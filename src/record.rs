use vstd::prelude::*;

use crate::augment::{
    augment_led_spec, augment_pass, cell_reading, cells_wf, gains_cover, reading_at, GainMap,
    ReadingMap,
};
use crate::clean::{cell_vecs, clean_led_spec, clean_point, RawMap, Readings};
use crate::config::CleanAugmentConfig;
use crate::point::Point;
use crate::point_map::{cell_index, lemma_filter_ext, GridError, PointMap, PointMapConfig};

verus! {

/// A point with one reading vector.
#[derive(Debug)]
pub struct RssRecord {
    pub point: Point,
    pub rss: Readings,
}

/// A copy of `v`.
pub fn copy_readings(v: &Readings) -> (r: Readings)
    ensures
        r@ == v@,
{
    let mut out: Readings = Vec::new();
    let mut i: usize = 0;
    while i < v.len()
        invariant
            i <= v@.len(),
            out@ == v@.take(i as int),
        decreases v@.len() - i,
    {
        out.push(v[i]);
        assert(v@.take(i + 1) =~= v@.take(i as int).push(v@[i as int]));
        i = i + 1;
    }
    assert(v@.take(v@.len() as int) =~= v@);
    out
}

/// The reading vectors of `recs` that fall into cell `k` of `m`'s layout,
/// in arrival order.
pub open spec fn group(cols: int, res: int, recs: Seq<RssRecord>, k: int) -> Seq<Seq<Option<u32>>>
    decreases recs.len(),
{
    if recs.len() == 0 {
        Seq::empty()
    } else {
        let prev = group(cols, res, recs.drop_last(), k);
        if cell_index(cols, res, recs.last().point) == k {
            prev.push(recs.last().rss@)
        } else {
            prev
        }
    }
}

/// The reading vector of the first of `recs` that falls into cell `k`.
pub open spec fn first_at(cols: int, res: int, recs: Seq<RssRecord>, k: int) -> Option<
    Seq<Option<u32>>,
>
    decreases recs.len(),
{
    if recs.len() == 0 {
        None
    } else {
        let prev = first_at(cols, res, recs.drop_last(), k);
        if prev is Some {
            prev
        } else if cell_index(cols, res, recs.last().point) == k {
            Some(recs.last().rss@)
        } else {
            None
        }
    }
}

/// The raw vectors of a cell's content.
pub open spec fn vecs_of(c: Option<Vec<Readings>>) -> Seq<Seq<Option<u32>>> {
    match c {
        Some(vs) => vs@.map_values(|v: Readings| v@),
        None => Seq::empty(),
    }
}

/// Every record falls into the grid that `config` describes.
pub open spec fn all_covered(config: PointMapConfig, recs: Seq<RssRecord>) -> bool {
    forall|j: int| 0 <= j < recs.len() ==> config.covers(#[trigger] recs[j].point)
}

impl PointMap<Vec<Readings>> {
    /// Appends `rss` to the vectors of the cell holding `p`.
    pub fn add_record(&mut self, p: Point, rss: Readings) -> (r: Result<(), GridError>)
        requires
            old(self).wf(),
        ensures
            final(self).wf(),
            final(self).same_shape(old(self)),
            final(self).cells().len() == old(self).cells().len(),
            r is Err <==> !old(self).in_bounds(p),
            r is Err ==> final(self).cells() == old(self).cells(),
            r is Ok ==> {
                let k = old(self).index_of(p);
                &&& 0 <= k < old(self).cells().len()
                &&& final(self).cells()[k] is Some
                &&& vecs_of(final(self).cells()[k]) == vecs_of(old(self).cells()[k]).push(rss@)
                &&& forall|q: int|
                    0 <= q < old(self).cells().len() && q != k ==> final(self).cells()[q] == old(
                        self,
                    ).cells()[q]
            },
    {
        if !self.in_bounds_exec(p) {
            return Err(GridError::OutOfBounds);
        }
        let k = self.get_index(p);
        let cell = self.take_cell(k);
        let mut vs: Vec<Readings> = match cell {
            Some(vs) => vs,
            None => Vec::new(),
        };
        let ghost vs0 = vs@;
        let ghost rv = rss@;
        vs.push(rss);
        assert(vs@.map_values(|v: Readings| v@) =~= vs0.map_values(|v: Readings| v@).push(rv));
        self.put(k, vs);
        Ok(())
    }

    /// The list-valued grid of `records`: each cell holds every reading vector
    /// recorded at a point that quantizes to it, in arrival order.
    pub fn from_raw_records(records: &Vec<RssRecord>, config: PointMapConfig) -> (r: Result<
        RawMap,
        GridError,
    >)
        requires
            config.resolution > 0,
            (config.x_size / config.resolution) * (config.y_size / config.resolution) <= usize::MAX,
        ensures
            r is Err <==> !all_covered(config, records@),
            r is Ok ==> {
                let m = r->Ok_0;
                &&& m.wf()
                &&& m.cols() == config.x_size / config.resolution
                &&& m.rows() == config.y_size / config.resolution
                &&& m.res() == config.resolution
                &&& forall|k: int|
                    0 <= k < m.cells().len() ==> cell_vecs(&m, k) == group(m.cols(), m.res(), records@, k) && (
                    m.occupied(k) <==> group(m.cols(), m.res(), records@, k).len() > 0)
            },
    {
        let mut m: RawMap = PointMap::new(config);
        proof {
            assert forall|k: int| 0 <= k < m.cells().len() implies vecs_of(#[trigger] m.cells()[k]) =~= Seq::empty() && m.cells()[k] is None by {
                assert(!m.occupied(k));
            }
        }
        let mut j: usize = 0;
        while j < records.len()
            invariant
                m.wf(),
                m.cols() == config.x_size / config.resolution,
                m.rows() == config.y_size / config.resolution,
                m.res() == config.resolution,
                j <= records@.len(),
                forall|q: int| 0 <= q < j ==> config.covers(#[trigger] records@[q].point),
                forall|k: int|
                    0 <= k < m.cells().len() ==> vecs_of(#[trigger] m.cells()[k]) == group(
                        m.cols(),
                        m.res(),
                        records@.take(j as int),
                        k,
                    ) && (m.cells()[k] is Some <==> group(m.cols(), m.res(), records@.take(j as int), k).len() > 0),
            decreases records@.len() - j,
        {
            let rec = &records[j];
            let ghost before = m.cells();
            let ghost k = m.index_of(rec.point);
            let res = m.add_record(rec.point, copy_readings(&rec.rss));
            match res {
                Err(e) => {
                    return Err(e);
                },
                Ok(()) => {},
            }
            proof {
                let t = records@.take(j + 1);
                assert(t.drop_last() =~= records@.take(j as int));
                assert(t.last() == records@[j as int]);
                assert forall|q: int|
                    0 <= q < m.cells().len() implies vecs_of(#[trigger] m.cells()[q]) == group(m.cols(), m.res(), t, q) && (
                m.cells()[q] is Some <==> group(m.cols(), m.res(), t, q).len() > 0) by {
                    if q != k {
                        assert(m.cells()[q] == before[q]);
                        assert(vecs_of(before[q]) == vecs_of(m.cells()[q]));
                    } else {
                        assert(vecs_of(before[q]) == group(m.cols(), m.res(), records@.take(j as int), q));
                    }
                }
            }
            j = j + 1;
        }
        assert(records@.take(records@.len() as int) =~= records@);
        assert forall|k: int| 0 <= k < m.cells().len() implies cell_vecs(&m, k) == group(m.cols(), m.res(), records@, k) && (
            m.occupied(k) <==> group(m.cols(), m.res(), records@, k).len() > 0) by {
            assert(vecs_of(m.cells()[k]) == cell_vecs(&m, k));
        }
        Ok(m)
    }
}

/// The cells that a subsample of `m` takes from `cands`, in order: each
/// candidate whose cell is occupied in `m` and not yet taken, until `count`
/// are taken.
pub open spec fn chosen(m: &ReadingMap, cands: Seq<Point>, count: int) -> Seq<int>
    decreases cands.len(),
{
    if cands.len() == 0 {
        Seq::empty()
    } else {
        let prev = chosen(m, cands.drop_last(), count);
        let p = cands.last();
        let k = m.index_of(p);
        if prev.len() < count && m.in_bounds(p) && m.occupied(k) && !prev.contains(k) {
            prev.push(k)
        } else {
            prev
        }
    }
}

impl PointMap<Readings> {
    /// The scalar grid of `records`: each cell holds the reading vector of the
    /// first record that quantizes to it.
    pub fn from_records(records: &Vec<RssRecord>, config: PointMapConfig) -> (r: Result<
        ReadingMap,
        GridError,
    >)
        requires
            config.resolution > 0,
            (config.x_size / config.resolution) * (config.y_size / config.resolution) <= usize::MAX,
        ensures
            r is Err <==> !all_covered(config, records@),
            r is Ok ==> {
                let m = r->Ok_0;
                &&& m.wf()
                &&& m.cols() == config.x_size / config.resolution
                &&& m.rows() == config.y_size / config.resolution
                &&& m.res() == config.resolution
                &&& forall|k: int|
                    0 <= k < m.cells().len() ==> (m.occupied(k) <==> first_at(m.cols(), m.res(), records@, k) is Some)
                        && (m.occupied(k) ==> m.cells()[k]->Some_0@ == first_at(m.cols(), m.res(), records@, k)->Some_0)
            },
    {
        let mut m: ReadingMap = PointMap::new(config);
        proof {
            assert forall|k: int| 0 <= k < m.cells().len() implies (#[trigger] m.cells()[k]) is None by {
                assert(!m.occupied(k));
            }
        }
        let mut j: usize = 0;
        while j < records.len()
            invariant
                m.wf(),
                m.cols() == config.x_size / config.resolution,
                m.rows() == config.y_size / config.resolution,
                m.res() == config.resolution,
                j <= records@.len(),
                forall|q: int| 0 <= q < j ==> config.covers(#[trigger] records@[q].point),
                forall|k: int|
                    0 <= k < m.cells().len() ==> ((#[trigger] m.cells()[k]) is Some <==> first_at(
                        m.cols(),
                        m.res(),
                        records@.take(j as int),
                        k,
                    ) is Some) && (m.cells()[k] is Some ==> m.cells()[k]->Some_0@ == first_at(
                        m.cols(),
                        m.res(),
                        records@.take(j as int),
                        k,
                    )->Some_0),
            decreases records@.len() - j,
        {
            let rec = &records[j];
            let ghost before = m.cells();
            let ghost idx = m.index_of(rec.point);
            let res = m.insert_if_absent(rec.point, copy_readings(&rec.rss));
            match res {
                Err(e) => {
                    return Err(e);
                },
                Ok(()) => {},
            }
            proof {
                let t = records@.take(j + 1);
                assert(t.drop_last() =~= records@.take(j as int));
                assert(t.last() == records@[j as int]);
                assert forall|q: int| 0 <= q < m.cells().len() implies ((#[trigger] m.cells()[q]) is Some <==> first_at(
                    m.cols(),
                    m.res(),
                    t,
                    q,
                ) is Some) && (m.cells()[q] is Some ==> m.cells()[q]->Some_0@ == first_at(m.cols(), m.res(), t, q)->Some_0) by {
                    assert(before[q] is Some <==> first_at(m.cols(), m.res(), records@.take(j as int), q) is Some);
                    if q != idx {
                        assert(m.cells()[q] == before[q]);
                    }
                }
            }
            j = j + 1;
        }
        assert(records@.take(records@.len() as int) =~= records@);
        Ok(m)
    }

    /// One record per occupied cell, in row-major order, at the cell's grid point.
    pub fn to_records(&self) -> (r: Vec<RssRecord>)
        requires
            self.wf(),
        ensures
            r@.len() == self.occupied_cells().len(),
            forall|j: int|
                0 <= j < r@.len() ==> {
                    &&& r@[j].point == self.point_at(self.occupied_cells()[j])
                    &&& self.cells()[self.occupied_cells()[j]] is Some
                    &&& r@[j].rss@ == self.cells()[self.occupied_cells()[j]]->Some_0@
                },
    {
        let m = self;
        let ks = m.occupied_indices();
        proof {
            crate::point_map::lemma_filter_sorted(|k: int| m.occupied(k), m.cells().len() as int);
            crate::point_map::lemma_filter_members(|k: int| m.occupied(k), m.cells().len() as int, 0);
        }
        let mut out: Vec<RssRecord> = Vec::new();
        let mut j: usize = 0;
        while j < ks.len()
            invariant
                m.wf(),
                ks@.len() == m.occupied_cells().len(),
                forall|q: int| 0 <= q < ks@.len() ==> ks@[q] as int == m.occupied_cells()[q],
                forall|q: int| 0 <= q < ks@.len() ==> 0 <= #[trigger] m.occupied_cells()[q] < m.cells().len(),
                j <= ks@.len(),
                out@.len() == j,
                forall|q: int|
                    0 <= q < j ==> {
                        &&& (#[trigger] out@[q]).point == m.point_at(m.occupied_cells()[q])
                        &&& m.cells()[m.occupied_cells()[q]] is Some
                        &&& out@[q].rss@ == m.cells()[m.occupied_cells()[q]]->Some_0@
                    },
            decreases ks@.len() - j,
        {
            let k = ks[j];
            proof {
                assert(0 <= m.occupied_cells()[j as int] < m.cells().len());
                crate::point_map::lemma_filter_members(
                    |k: int| m.occupied(k),
                    m.cells().len() as int,
                    k as int,
                );
                assert(m.occupied_cells().contains(k as int));
                assert(m.occupied(k as int));
            }
            if let Some(v) = m.cell(k) {
                let p = m.point_of_cell(k);
                let rss = copy_readings(v);
                let ghost before = out@;
                out.push(RssRecord { point: p, rss });
                proof {
                    assert(out@[j as int].point == m.point_at(m.occupied_cells()[j as int]));
                    assert(out@[j as int].rss@ == m.cells()[m.occupied_cells()[j as int]]->Some_0@);
                    assert forall|q: int| 0 <= q < j implies #[trigger] out@[q] == before[q] by {}
                }
            }
            j = j + 1;
        }
        out
    }

    /// A grid holding up to `count` of `self`'s readings, taken at the
    /// candidate points in order, skipping empty and already taken cells.
    pub fn subsample(&self, candidates: &Vec<Point>, count: usize) -> (r: PointMap<Readings>)
        requires
            self.wf(),
        ensures
            r.wf(),
            r.same_shape(self),
            r.cells().len() == self.cells().len(),
            chosen(self, candidates@, count as int).len() <= count,
            forall|k: int|
                0 <= k < self.cells().len() ==> (r.occupied(k) <==> chosen(
                    self,
                    candidates@,
                    count as int,
                ).contains(k)),
            forall|k: int|
                0 <= k < self.cells().len() && r.occupied(k) ==> self.occupied(k)
                    && r.cells()[k]->Some_0@ == self.cells()[k]->Some_0@,
    {
        let mut out: PointMap<Readings> = self.empty_like();
        let n = self.cell_count();
        proof {
            assert forall|q: int| 0 <= q < n implies (#[trigger] out.cells()[q]) is None by {
                assert(!out.occupied(q));
            }
        }
        let mut taken: usize = 0;
        let mut j: usize = 0;
        while j < candidates.len()
            invariant
                self.wf(),
                n == self.cells().len(),
                out.wf(),
                out.same_shape(self),
                out.cells().len() == n,
                j <= candidates@.len(),
                taken as int == chosen(self, candidates@.take(j as int), count as int).len(),
                taken <= count,
                forall|q: int|
                    0 <= q < n ==> ((#[trigger] out.cells()[q]) is Some <==> chosen(
                        self,
                        candidates@.take(j as int),
                        count as int,
                    ).contains(q)),
                forall|q: int|
                    0 <= q < n && (#[trigger] out.cells()[q]) is Some ==> self.occupied(q)
                        && out.cells()[q]->Some_0@ == self.cells()[q]->Some_0@,
            decreases candidates@.len() - j,
        {
            let p = candidates[j];
            let ghost prev = chosen(self, candidates@.take(j as int), count as int);
            let ghost before = out.cells();
            proof {
                let t = candidates@.take(j + 1);
                assert(t.drop_last() =~= candidates@.take(j as int));
                assert(t.last() == p);
            }
            if taken < count && self.in_bounds_exec(p) {
                let k = self.get_index(p);
                if let Some(v) = self.cell(k) {
                    if out.cell(k).is_none() {
                        proof {
                            assert(!prev.contains(k as int));
                        }
                        out.put(k, copy_readings(v));
                        taken = taken + 1;
                        proof {
                            let cur = prev.push(k as int);
                            assert forall|q: int| 0 <= q < n implies ((#[trigger] out.cells()[q]) is Some <==> cur.contains(q)) by {
                                if q == k {
                                    assert(cur[prev.len() as int] == q);
                                } else {
                                    assert(out.cells()[q] == before[q]);
                                    if prev.contains(q) {
                                        let w = choose|w: int| 0 <= w < prev.len() && prev[w] == q;
                                        assert(cur[w] == q);
                                    }
                                    if cur.contains(q) {
                                        let w = choose|w: int| 0 <= w < cur.len() && cur[w] == q;
                                        assert(w < prev.len());
                                        assert(prev[w] == q);
                                    }
                                }
                            }
                            assert forall|q: int|
                                0 <= q < n && (#[trigger] out.cells()[q]) is Some implies self.occupied(q)
                                    && out.cells()[q]->Some_0@ == self.cells()[q]->Some_0@ by {
                                if q != k {
                                    assert(out.cells()[q] == before[q]);
                                }
                            }
                        }
                    } else {
                        proof {
                            assert(prev.contains(k as int));
                        }
                    }
                }
            }
            j = j + 1;
        }
        assert(candidates@.take(candidates@.len() as int) =~= candidates@);
        out
    }
}

/// The cleaning pass: a scalar grid where each occupied cell of `raw` holds
/// the cleaned readings at its grid point.
pub fn clean_map(raw: &RawMap, cfg: &CleanAugmentConfig) -> (r: ReadingMap)
    requires
        raw.wf(),
        cfg.wf(),
    ensures
        r.wf(),
        r.same_shape(raw),
        r.cells().len() == raw.cells().len(),
        cells_wf(r.cells(), cfg.led_count as int),
        forall|k: int| 0 <= k < raw.cells().len() ==> (r.occupied(k) <==> raw.occupied(k)),
        forall|k: int, i: int|
            0 <= k < raw.cells().len() && raw.occupied(k) && 0 <= i < cfg.led_count ==> cell_reading(
                r.cells()[k],
                i,
            ) == clean_led_spec(raw, raw.point_at(k), i, cfg),
{
    let mut out: ReadingMap = raw.empty_like();
    let n = raw.cell_count();
    proof {
        assert forall|q: int| 0 <= q < n implies (#[trigger] out.cells()[q]) is None by {
            assert(!out.occupied(q));
        }
    }
    let mut k: usize = 0;
    while k < n
        invariant
            raw.wf(),
            cfg.wf(),
            n == raw.cells().len(),
            k <= n,
            out.wf(),
            out.same_shape(raw),
            out.cells().len() == n,
            forall|q: int|
                0 <= q < n ==> ((#[trigger] out.cells()[q]) is Some <==> (q < k && raw.occupied(q))),
            cells_wf(out.cells(), cfg.led_count as int),
            forall|q: int, i: int|
                0 <= q < k && raw.occupied(q) && 0 <= i < cfg.led_count ==> #[trigger] cell_reading(
                    out.cells()[q],
                    i,
                ) == clean_led_spec(raw, raw.point_at(q), i, cfg),
        decreases n - k,
    {
        if raw.cell(k).is_some() {
            let t = raw.point_of_cell(k);
            let v = clean_point(t, raw, cfg);
            let ghost before = out.cells();
            out.put(k, v);
            proof {
                assert forall|q: int| 0 <= q < n implies ((#[trigger] out.cells()[q]) is Some <==> (q
                    < k + 1 && raw.occupied(q))) by {
                    if q != k {
                        assert(out.cells()[q] == before[q]);
                    }
                }
                assert forall|q: int|
                    0 <= q < n && (#[trigger] out.cells()[q]) is Some implies out.cells()[q]->Some_0@.len()
                        == cfg.led_count by {
                    if q != k {
                        assert(out.cells()[q] == before[q]);
                    }
                }
                assert forall|q: int, i: int|
                    0 <= q < k + 1 && raw.occupied(q) && 0 <= i < cfg.led_count implies #[trigger] cell_reading(
                    out.cells()[q],
                    i,
                ) == clean_led_spec(raw, raw.point_at(q), i, cfg) by {
                    if q < k {
                        assert(out.cells()[q] == before[q]);
                        assert(cell_reading(before[q], i) == cell_reading(out.cells()[q], i));
                    } else {
                        assert(out.cells()[q] == Some(v));
                        assert(t == raw.point_at(q));
                    }
                }
            }
        } else {
            proof {
                assert forall|q: int| 0 <= q < n implies ((#[trigger] out.cells()[q]) is Some <==> (q
                    < k + 1 && raw.occupied(q))) by {}
            }
        }
        k = k + 1;
    }
    out
}

/// `m` is the list-valued grid of `records` over `config`.
pub open spec fn raw_grid_of(m: &RawMap, records: Seq<RssRecord>, config: PointMapConfig) -> bool {
    &&& m.wf()
    &&& m.cols() == config.x_size / config.resolution
    &&& m.rows() == config.y_size / config.resolution
    &&& m.res() == config.resolution
    &&& forall|k: int|
        0 <= k < m.cells().len() ==> cell_vecs(m, k) == group(m.cols(), m.res(), records, k) && (
        m.occupied(k) <==> group(m.cols(), m.res(), records, k).len() > 0)
}

/// The first cleaning stage: indexes `raw_records` on the grid of `config`
/// and cleans every occupied point, one record per point in row-major order.
pub fn clean_records_stg1(
    raw_records: &Vec<RssRecord>,
    config: PointMapConfig,
    cfg: &CleanAugmentConfig,
) -> (r: Result<Vec<RssRecord>, GridError>)
    requires
        config.resolution > 0,
        (config.x_size / config.resolution) * (config.y_size / config.resolution) <= usize::MAX,
        cfg.wf(),
    ensures
        r is Err <==> !all_covered(config, raw_records@),
        r is Ok ==> exists|m: RawMap|
            #![trigger raw_grid_of(&m, raw_records@, config)]
            raw_grid_of(&m, raw_records@, config) && r->Ok_0@.len() == m.occupied_cells().len()
                && forall|j: int|
                0 <= j < r->Ok_0@.len() ==> {
                    &&& (#[trigger] r->Ok_0@[j]).point == m.point_at(m.occupied_cells()[j])
                    &&& r->Ok_0@[j].rss@.len() == cfg.led_count
                    &&& forall|i: int|
                        0 <= i < cfg.led_count ==> r->Ok_0@[j].rss@[i] == clean_led_spec(
                            &m,
                            m.point_at(m.occupied_cells()[j]),
                            i,
                            cfg,
                        )
                },
{
    let raw = match RawMap::from_raw_records(raw_records, config) {
        Ok(m) => m,
        Err(e) => {
            return Err(e);
        },
    };
    let cleaned = clean_map(&raw, cfg);
    let out = cleaned.to_records();
    proof {
        let n = raw.cells().len() as int;
        lemma_filter_ext(|k: int| cleaned.occupied(k), |k: int| raw.occupied(k), n);
        crate::point_map::lemma_filter_sorted(|k: int| raw.occupied(k), n);
        assert(cleaned.occupied_cells() == raw.occupied_cells());
        assert(raw_grid_of(&raw, raw_records@, config));
        assert forall|j: int| 0 <= j < out@.len() implies {
            &&& (#[trigger] out@[j]).point == raw.point_at(raw.occupied_cells()[j])
            &&& out@[j].rss@.len() == cfg.led_count
            &&& forall|i: int|
                0 <= i < cfg.led_count ==> out@[j].rss@[i] == clean_led_spec(
                    &raw,
                    raw.point_at(raw.occupied_cells()[j]),
                    i,
                    cfg,
                )
        } by {
            let k = raw.occupied_cells()[j];
            crate::point_map::lemma_filter_members(|q: int| raw.occupied(q), n, k);
            assert(raw.occupied_cells().contains(k));
            assert(cleaned.point_at(k) == raw.point_at(k));
            assert(raw.occupied(k));
            assert(cleaned.cells()[k] is Some);
            assert(out@[j].rss@ == cleaned.cells()[k]->Some_0@);
            assert forall|i: int| 0 <= i < cfg.led_count implies out@[j].rss@[i] == clean_led_spec(
                &raw,
                raw.point_at(k),
                i,
                cfg,
            ) by {
                assert(cell_reading(cleaned.cells()[k], i) == clean_led_spec(&raw, raw.point_at(k), i, cfg));
            }
        }
    }
    Ok(out)
}

/// `m` is the scalar grid of `records` over `config`.
pub open spec fn scalar_grid_of(m: &ReadingMap, records: Seq<RssRecord>, config: PointMapConfig) -> bool {
    &&& m.wf()
    &&& m.cols() == config.x_size / config.resolution
    &&& m.rows() == config.y_size / config.resolution
    &&& m.res() == config.resolution
    &&& forall|k: int|
        0 <= k < m.cells().len() ==> (m.occupied(k) <==> first_at(m.cols(), m.res(), records, k) is Some)
            && (m.occupied(k) ==> m.cells()[k]->Some_0@ == first_at(m.cols(), m.res(), records, k)->Some_0)
}

/// `g` gives a positive gain for each of `led_count` emitters at every cell
/// of the grid of `config`.
pub open spec fn gains_for(g: &GainMap, config: PointMapConfig, led_count: int) -> bool {
    &&& g.wf()
    &&& g.cols() == config.x_size / config.resolution
    &&& g.rows() == config.y_size / config.resolution
    &&& g.res() == config.resolution
    &&& forall|k: int|
        0 <= k < g.cells().len() ==> {
            &&& #[trigger] g.cells()[k] is Some
            &&& g.cells()[k]->Some_0@.len() == led_count
            &&& forall|i: int| 0 <= i < led_count ==> g.cells()[k]->Some_0@[i] > 0
        }
}

/// The second cleaning stage: indexes `records` on the grid of `config` and
/// runs one augmentation pass with the strict neighbor count, one record per
/// point in row-major order.
pub fn clean_records_stg2(
    records: &Vec<RssRecord>,
    config: PointMapConfig,
    g: &GainMap,
    cfg: &CleanAugmentConfig,
) -> (r: Result<Vec<RssRecord>, GridError>)
    requires
        config.resolution > 0,
        (config.x_size / config.resolution) * (config.y_size / config.resolution) <= usize::MAX,
        gains_for(g, config, cfg.led_count as int),
    ensures
        r is Err <==> !all_covered(config, records@),
        r is Ok ==> exists|m: ReadingMap|
            #![trigger scalar_grid_of(&m, records@, config)]
            scalar_grid_of(&m, records@, config) && r->Ok_0@.len() == m.occupied_cells().len()
                && forall|j: int|
                0 <= j < r->Ok_0@.len() ==> {
                    &&& (#[trigger] r->Ok_0@[j]).point == m.point_at(m.occupied_cells()[j])
                    &&& r->Ok_0@[j].rss@.len() == cfg.led_count
                    &&& forall|i: int|
                        0 <= i < cfg.led_count ==> r->Ok_0@[j].rss@[i] == augment_led_spec(
                            &m,
                            g,
                            m.point_at(m.occupied_cells()[j]),
                            i,
                            cfg.augm_dist as int,
                            cfg.augm_min_neighbors as int,
                        )
                },
{
    let m = match ReadingMap::from_records(records, config) {
        Ok(m) => m,
        Err(e) => {
            return Err(e);
        },
    };
    assert(gains_cover(g, &m, cfg.led_count as int));
    let next = augment_pass(&m, g, cfg, cfg.augm_min_neighbors);
    let out = next.to_records();
    proof {
        let n = m.cells().len() as int;
        lemma_filter_ext(|k: int| next.occupied(k), |k: int| m.occupied(k), n);
        crate::point_map::lemma_filter_sorted(|k: int| m.occupied(k), n);
        assert(next.occupied_cells() == m.occupied_cells());
        assert(scalar_grid_of(&m, records@, config));
        assert forall|j: int| 0 <= j < out@.len() implies {
            &&& (#[trigger] out@[j]).point == m.point_at(m.occupied_cells()[j])
            &&& out@[j].rss@.len() == cfg.led_count
            &&& forall|i: int|
                0 <= i < cfg.led_count ==> out@[j].rss@[i] == augment_led_spec(
                    &m,
                    g,
                    m.point_at(m.occupied_cells()[j]),
                    i,
                    cfg.augm_dist as int,
                    cfg.augm_min_neighbors as int,
                )
        } by {
            let k = m.occupied_cells()[j];
            crate::point_map::lemma_filter_members(|q: int| m.occupied(q), n, k);
            assert(m.occupied_cells().contains(k));
            assert(next.point_at(k) == m.point_at(k));
            assert(m.occupied(k));
            assert(next.cells()[k] is Some);
            assert(out@[j].rss@ == next.cells()[k]->Some_0@);
            assert forall|i: int| 0 <= i < cfg.led_count implies out@[j].rss@[i] == augment_led_spec(
                &m,
                g,
                m.point_at(k),
                i,
                cfg.augm_dist as int,
                cfg.augm_min_neighbors as int,
            ) by {
                assert(reading_at(&next, k, i) == augment_led_spec(
                    &m,
                    g,
                    m.point_at(k),
                    i,
                    cfg.augm_dist as int,
                    cfg.augm_min_neighbors as int,
                ));
            }
        }
    }
    Ok(out)
}

} // verus!
