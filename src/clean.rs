use vstd::prelude::*;

use crate::config::CleanAugmentConfig;
use crate::point::Point;
use crate::point_map::PointMap;

verus! {

/// One reading per emitter; `None` is an unknown reading.
pub type Readings = Vec<Option<u32>>;

/// A grid whose cells hold every raw reading vector recorded there.
pub type RawMap = PointMap<Vec<Readings>>;

/// Reading `i` of `v` as a number, zero where it is unknown or missing.
pub open spec fn reading_value(v: Seq<Option<u32>>, i: int) -> int {
    if 0 <= i < v.len() && v[i] is Some {
        v[i]->Some_0 as int
    } else {
        0
    }
}

pub open spec fn reading_known(v: Seq<Option<u32>>, i: int) -> bool {
    0 <= i < v.len() && v[i] is Some
}

/// The raw vectors of cell `k`, in arrival order.
pub open spec fn cell_vecs(m: &RawMap, k: int) -> Seq<Seq<Option<u32>>> {
    match m.cells()[k] {
        Some(vs) => vs@.map_values(|v: Readings| v@),
        None => Seq::empty(),
    }
}

/// Sum of reading `i` over `vs`.
pub open spec fn vec_sum(vs: Seq<Seq<Option<u32>>>, i: int) -> int
    decreases vs.len(),
{
    if vs.len() == 0 {
        0
    } else {
        vec_sum(vs.drop_last(), i) + reading_value(vs.last(), i)
    }
}

pub open spec fn vec_known(vs: Seq<Seq<Option<u32>>>, i: int) -> bool {
    forall|j: int| 0 <= j < vs.len() ==> reading_known(#[trigger] vs[j], i)
}

/// Sum of reading `i` over every raw vector of the cells `ks`.
pub open spec fn nbr_sum(m: &RawMap, ks: Seq<int>, i: int) -> int
    decreases ks.len(),
{
    if ks.len() == 0 {
        0
    } else {
        nbr_sum(m, ks.drop_last(), i) + vec_sum(cell_vecs(m, ks.last()), i)
    }
}

/// Number of raw vectors in the cells `ks`.
pub open spec fn nbr_count(m: &RawMap, ks: Seq<int>) -> int
    decreases ks.len(),
{
    if ks.len() == 0 {
        0
    } else {
        nbr_count(m, ks.drop_last()) + cell_vecs(m, ks.last()).len()
    }
}

/// Every raw vector of the cells `ks` knows reading `i`.
pub open spec fn nbr_known(m: &RawMap, ks: Seq<int>, i: int) -> bool {
    forall|j: int| 0 <= j < ks.len() ==> vec_known(cell_vecs(m, #[trigger] ks[j]), i)
}

/// Continuity score of `v` against the baseline `sum / n`, multiplied by
/// `n * penalty`: a reading above the baseline counts its excess divided by
/// `penalty`, one below it its whole shortfall.
pub open spec fn scaled_score(v: int, sum: int, n: int, penalty: int) -> int {
    if v * n > sum {
        v * n - sum
    } else {
        (sum - v * n) * penalty
    }
}

/// The first candidate, in arrival order, with the lowest score on
/// reading `i`, with that score; candidates that do not know reading `i`
/// take no part.
pub open spec fn best_candidate(
    cands: Seq<Seq<Option<u32>>>,
    i: int,
    sum: int,
    n: int,
    penalty: int,
) -> Option<(u32, int)>
    decreases cands.len(),
{
    if cands.len() == 0 {
        None
    } else {
        let prev = best_candidate(cands.drop_last(), i, sum, n, penalty);
        let last = cands.last();
        if reading_known(last, i) {
            let v = last[i]->Some_0;
            let sc = scaled_score(v as int, sum, n, penalty);
            match prev {
                Some(b) => if sc < b.1 {
                    Some((v, sc))
                } else {
                    prev
                },
                None => Some((v, sc)),
            }
        } else {
            prev
        }
    }
}

/// The baseline of reading `i` over the cells `ks` is defined: there is at
/// least one raw vector, every one knows reading `i`, and their number fits
/// in 64 bits.
pub open spec fn baseline_defined(m: &RawMap, ks: Seq<int>, i: int) -> bool {
    &&& 0 < nbr_count(m, ks) <= u64::MAX
    &&& nbr_known(m, ks, i)
}

/// The cleaned reading `i` at `p`: the best-scoring candidate of `p`'s cell
/// if its score is within the threshold, unknown otherwise or where the
/// baseline is not defined.
pub open spec fn clean_led_spec(m: &RawMap, p: Point, i: int, cfg: &CleanAugmentConfig) -> Option<
    u32,
> {
    let ks = m.neighbors(p, cfg.clean_dist as int);
    let n = nbr_count(m, ks);
    let sum = nbr_sum(m, ks, i);
    let pen = cfg.darkness_penalty as int;
    if !baseline_defined(m, ks, i) {
        None
    } else {
        match best_candidate(cell_vecs(m, m.index_of(p)), i, sum, n, pen) {
            Some(b) => if b.1 <= cfg.continuity_thresh * n * pen {
                Some(b.0)
            } else {
                None
            },
            None => None,
        }
    }
}

/// Sum of reading `i` over the vectors of one cell, and whether all know it.
fn cell_stats(vs: &Vec<Readings>, i: usize) -> (r: (u128, bool))
    ensures
        r.1 == vec_known(vs@.map_values(|v: Readings| v@), i as int),
        r.0 == vec_sum(vs@.map_values(|v: Readings| v@), i as int),
        r.0 <= vs@.len() * 0xffff_ffff,
{
    let ghost view = vs@.map_values(|v: Readings| v@);
    let mut sum: u128 = 0;
    let mut known = true;
    let mut j: usize = 0;
    while j < vs.len()
        invariant
            view == vs@.map_values(|v: Readings| v@),
            j <= vs@.len(),
            sum == vec_sum(view.take(j as int), i as int),
            sum <= j * 0xffff_ffff,
            known == vec_known(view.take(j as int), i as int),
        decreases vs@.len() - j,
    {
        assert(view.take(j + 1).drop_last() =~= view.take(j as int));
        let v = &vs[j];
        assert(view[j as int] == v@);
        if i < v.len() {
            match v[i] {
                Some(x) => {
                    sum = sum + x as u128;
                },
                None => {
                    known = false;
                },
            }
        } else {
            known = false;
        }
        proof {
            let t = view.take(j + 1);
            assert(t.last() == v@);
            if known {
                assert forall|q: int| 0 <= q < t.len() implies reading_known(#[trigger] t[q], i as int) by {
                    if q < j {
                        assert(t[q] == view.take(j as int)[q]);
                    }
                }
            } else {
                if !reading_known(v@, i as int) {
                    assert(!reading_known(t[j as int], i as int));
                } else {
                    let q = choose|q: int| 0 <= q < j && !reading_known(#[trigger] view.take(j as int)[q], i as int);
                    assert(t[q] == view.take(j as int)[q]);
                }
            }
        }
        j = j + 1;
    }
    assert(view.take(vs@.len() as int) =~= view);
    (sum, known)
}

proof fn lemma_nbr_prefix(m: &RawMap, ks: Seq<int>, j: int, i: int)
    requires
        0 <= j < ks.len(),
    ensures
        nbr_sum(m, ks.take(j + 1), i) == nbr_sum(m, ks.take(j), i) + vec_sum(cell_vecs(m, ks[j]), i),
        nbr_count(m, ks.take(j + 1)) == nbr_count(m, ks.take(j)) + cell_vecs(m, ks[j]).len(),
        nbr_known(m, ks.take(j + 1), i) == (nbr_known(m, ks.take(j), i) && vec_known(cell_vecs(m, ks[j]), i)),
{
    let t = ks.take(j + 1);
    assert(t.drop_last() =~= ks.take(j));
    assert(t.last() == ks[j]);
    if nbr_known(m, ks.take(j), i) && vec_known(cell_vecs(m, ks[j]), i) {
        assert forall|q: int| 0 <= q < t.len() implies vec_known(cell_vecs(m, #[trigger] t[q]), i) by {
            if q < j {
                assert(t[q] == ks.take(j)[q]);
            }
        }
    }
    if nbr_known(m, t, i) {
        assert(t[j] == ks[j]);
        assert forall|q: int| 0 <= q < j implies vec_known(cell_vecs(m, #[trigger] ks.take(j)[q]), i) by {
            assert(t[q] == ks.take(j)[q]);
        }
    }
}

/// Baseline statistics of reading `i` over the cells `ks`: the sum, the
/// number of vectors, and whether the baseline is defined.
fn nbr_stats(m: &RawMap, ks: &Vec<usize>, i: usize) -> (r: (u128, u64, bool))
    requires
        m.wf(),
        forall|j: int| 0 <= j < ks@.len() ==> ks@[j] < m.cells().len(),
    ensures
        ({
            let s = ks@.map_values(|k: usize| k as int);
            &&& r.2 == (nbr_known(m, s, i as int) && nbr_count(m, s) <= u64::MAX)
            &&& r.2 ==> r.0 == nbr_sum(m, s, i as int) && r.1 == nbr_count(m, s)
            &&& r.2 ==> r.0 <= r.1 * 0xffff_ffff
        }),
{
    let ghost s = ks@.map_values(|k: usize| k as int);
    let mut sum: u128 = 0;
    let mut n: u64 = 0;
    let mut ok = true;
    let mut j: usize = 0;
    while j < ks.len()
        invariant
            m.wf(),
            forall|q: int| 0 <= q < ks@.len() ==> ks@[q] < m.cells().len(),
            s == ks@.map_values(|k: usize| k as int),
            j <= ks@.len(),
            ok ==> sum == nbr_sum(m, s.take(j as int), i as int) && n == nbr_count(m, s.take(j as int))
                && nbr_known(m, s.take(j as int), i as int) && sum <= n * 0xffff_ffff,
            !ok ==> !nbr_known(m, s.take(j as int), i as int) || nbr_count(m, s.take(j as int))
                > u64::MAX,
            nbr_count(m, s.take(j as int)) >= 0,
        decreases ks@.len() - j,
    {
        proof {
            lemma_nbr_prefix(m, s, j as int, i as int);
        }
        let k = ks[j];
        let cell = m.cell(k);
        match cell {
            Some(vs) => {
                assert(cell_vecs(m, s[j as int]) == vs@.map_values(|v: Readings| v@));
                let (cs, cknown) = cell_stats(vs, i);
                if ok {
                    if !cknown {
                        ok = false;
                    } else if vs.len() as u128 > (u64::MAX - n) as u128 {
                        ok = false;
                    } else {
                        n = n + vs.len() as u64;
                        sum = sum + cs;
                    }
                }
            },
            None => {
                assert(cell_vecs(m, s[j as int]) =~= Seq::empty());
            },
        }
        j = j + 1;
    }
    assert(s.take(ks@.len() as int) =~= s);
    (sum, n, ok)
}

/// Scaled continuity score of reading `v` against the baseline `sum / n`.
fn score_of(v: u32, sum: u128, n: u64, penalty: u32) -> (r: u128)
    requires
        sum <= n * 0xffff_ffff,
    ensures
        r == scaled_score(v as int, sum as int, n as int, penalty as int),
{
    assert(v as u128 * n as u128 <= 0xffff_ffff_u128 * 0xffff_ffff_ffff_ffff_u128)
        by (nonlinear_arith)
        requires
            v <= 0xffff_ffff_u32,
            n <= 0xffff_ffff_ffff_ffff_u64,
    ;
    let vn: u128 = v as u128 * n as u128;
    if vn > sum {
        vn - sum
    } else {
        let d = sum - vn;
        assert(d * penalty <= 0xffff_ffff_ffff_ffff_u128 * 0xffff_ffff_u128 * 0xffff_ffff_u128)
            by (nonlinear_arith)
            requires
                d <= sum,
                sum <= n * 0xffff_ffff,
                n <= 0xffff_ffff_ffff_ffff_u64,
                penalty <= 0xffff_ffff_u32,
        ;
        d * penalty as u128
    }
}

/// The best-scoring candidate among `cands` on reading `i`.
fn pick_candidate(cands: &Vec<Readings>, i: usize, sum: u128, n: u64, penalty: u32) -> (r: Option<
    (u32, u128),
>)
    requires
        sum <= n * 0xffff_ffff,
    ensures
        ({
            let spec_best = best_candidate(
                cands@.map_values(|v: Readings| v@),
                i as int,
                sum as int,
                n as int,
                penalty as int,
            );
            &&& r is Some <==> spec_best is Some
            &&& r is Some ==> r->Some_0.0 == spec_best->Some_0.0 && r->Some_0.1
                == spec_best->Some_0.1
        }),
{
    let ghost view = cands@.map_values(|v: Readings| v@);
    let mut best: Option<(u32, u128)> = None;
    let mut j: usize = 0;
    while j < cands.len()
        invariant
            view == cands@.map_values(|v: Readings| v@),
            j <= cands@.len(),
            sum <= n * 0xffff_ffff,
            ({
                let sb = best_candidate(view.take(j as int), i as int, sum as int, n as int, penalty as int);
                &&& best is Some <==> sb is Some
                &&& best is Some ==> best->Some_0.0 == sb->Some_0.0 && best->Some_0.1 == sb->Some_0.1
            }),
        decreases cands@.len() - j,
    {
        assert(view.take(j + 1).drop_last() =~= view.take(j as int));
        let v = &cands[j];
        assert(view.take(j + 1).last() == v@);
        if i < v.len() {
            if let Some(x) = v[i] {
                let sc = score_of(x, sum, n, penalty);
                match best {
                    Some(b) => {
                        if sc < b.1 {
                            best = Some((x, sc));
                        }
                    },
                    None => {
                        best = Some((x, sc));
                    },
                }
            }
        }
        j = j + 1;
    }
    assert(view.take(cands@.len() as int) =~= view);
    best
}

/// Cleaned readings at `p`: for each emitter, the best-scoring raw value
/// recorded in `p`'s cell, judged against the mean of every raw vector
/// within `clean_dist` of `p`; unknown where no value passes.
/// The baseline counts `p`'s own cell exactly when its grid point lies
/// within `clean_dist` of `p`, which always holds when `p` is a grid point,
/// as it is for every call from the cleaning pass.
pub fn clean_point(p: Point, m: &RawMap, cfg: &CleanAugmentConfig) -> (r: Readings)
    requires
        m.wf(),
        m.in_bounds(p),
        cfg.wf(),
    ensures
        r@.len() == cfg.led_count,
        forall|i: int| 0 <= i < cfg.led_count ==> r@[i] == clean_led_spec(m, p, i, cfg),
{
    let ks = m.neighbor_indices(p, cfg.clean_dist);
    let ghost s = ks@.map_values(|k: usize| k as int);
    assert(s =~= m.neighbors(p, cfg.clean_dist as int));
    proof {
        crate::point_map::lemma_filter_sorted(
            |k: int| m.near(p, cfg.clean_dist as int, k),
            m.cells().len() as int,
        );
    }
    let own = m.value_at(p);
    let mut out: Readings = Vec::new();
    let mut i: usize = 0;
    while i < cfg.led_count
        invariant
            m.wf(),
            m.in_bounds(p),
            cfg.wf(),
            s == ks@.map_values(|k: usize| k as int),
            s == m.neighbors(p, cfg.clean_dist as int),
            forall|j: int| 0 <= j < ks@.len() ==> ks@[j] < m.cells().len(),
            own is Ok && *own->Ok_0 == m.cells()[m.index_of(p)],
            i <= cfg.led_count,
            out@.len() == i,
            forall|q: int| 0 <= q < i ==> out@[q] == clean_led_spec(m, p, q, cfg),
        decreases cfg.led_count - i,
    {
        let (sum, n, ok) = nbr_stats(m, &ks, i);
        let mut led: Option<u32> = None;
        if ok && n > 0 {
            if let Ok(Some(cands)) = own {
                assert(cell_vecs(m, m.index_of(p)) == cands@.map_values(|v: Readings| v@));
                if let Some((v, sc)) = pick_candidate(cands, i, sum, n, cfg.darkness_penalty) {
                    assert(cfg.continuity_thresh as u128 * n as u128 <= 0xffff_ffff_u128
                        * 0xffff_ffff_ffff_ffff_u128) by (nonlinear_arith)
                        requires
                            cfg.continuity_thresh <= 0xffff_ffff_u32,
                            n <= 0xffff_ffff_ffff_ffff_u64,
                    ;
                    assert(cfg.continuity_thresh as u128 * n as u128 * cfg.darkness_penalty as u128
                        <= 0xffff_ffff_u128 * 0xffff_ffff_ffff_ffff_u128 * 0xffff_ffff_u128)
                        by (nonlinear_arith)
                        requires
                            cfg.continuity_thresh as u128 * n as u128 <= 0xffff_ffff_u128
                                * 0xffff_ffff_ffff_ffff_u128,
                            cfg.darkness_penalty <= 0xffff_ffff_u32,
                    ;
                    let bound: u128 = cfg.continuity_thresh as u128 * n as u128
                        * cfg.darkness_penalty as u128;
                    if sc <= bound {
                        led = Some(v);
                    }
                }
            } else {
                assert(cell_vecs(m, m.index_of(p)) =~= Seq::empty());
            }
        }
        out.push(led);
        i = i + 1;
    }
    out
}

/// With a single raw vector in `p`'s cell, cleaning keeps its reading `i`
/// exactly when the baseline is defined and its score is within the
/// threshold, and leaves the reading unknown otherwise.
pub proof fn lemma_single_candidate(m: &RawMap, p: Point, i: int, cfg: &CleanAugmentConfig)
    requires
        cell_vecs(m, m.index_of(p)).len() == 1,
    ensures
        ({
            let v = cell_vecs(m, m.index_of(p))[0];
            let ks = m.neighbors(p, cfg.clean_dist as int);
            let n = nbr_count(m, ks);
            let sum = nbr_sum(m, ks, i);
            let pen = cfg.darkness_penalty as int;
            clean_led_spec(m, p, i, cfg) == if baseline_defined(m, ks, i) && reading_known(v, i)
                && scaled_score(v[i]->Some_0 as int, sum, n, pen) <= cfg.continuity_thresh * n * pen {
                v[i]
            } else {
                None
            }
        }),
{
    let cands = cell_vecs(m, m.index_of(p));
    let ks = m.neighbors(p, cfg.clean_dist as int);
    let n = nbr_count(m, ks);
    let sum = nbr_sum(m, ks, i);
    let pen = cfg.darkness_penalty as int;
    assert(cands.drop_last() =~= Seq::empty());
    assert(best_candidate(cands.drop_last(), i, sum, n, pen) is None);
    assert(cands.last() == cands[0]);
}

} // verus!
