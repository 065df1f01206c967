use vstd::prelude::*;
use vstd::arithmetic::div_mod::{lemma_div_is_ordered, lemma_div_multiples_vanish};

use crate::clean::Readings;
use crate::config::CleanAugmentConfig;
use crate::point::Point;
use crate::point_map::{cell_index, GridError, PointMap};

verus! {

/// A grid whose cells hold one reading vector each.
pub type ReadingMap = PointMap<Readings>;

/// A grid whose cells hold, per emitter, the fixed-point gain of the
/// propagation model at the cell's grid point: attenuation over the distance
/// to the emitter times the Lambertian angular factor.
pub type GainMap = PointMap<Vec<u32>>;

/// Reading `i` of a cell's content.
pub open spec fn cell_reading(c: Option<Readings>, i: int) -> Option<u32> {
    match c {
        Some(v) => if 0 <= i < v@.len() {
            v@[i]
        } else {
            None
        },
        None => None,
    }
}

/// Reading `i` of cell `k`.
pub open spec fn reading_at(m: &ReadingMap, k: int, i: int) -> Option<u32> {
    cell_reading(m.cells()[k], i)
}

/// Gain of emitter `i` at cell `k`.
pub open spec fn gain_at(g: &GainMap, k: int, i: int) -> int {
    match g.cells()[k] {
        Some(v) => if 0 <= i < v@.len() {
            v@[i] as int
        } else {
            0
        },
        None => 0,
    }
}

/// Every occupied cell of `cells` holds exactly `led_count` readings.
pub open spec fn cells_wf(cells: Seq<Option<Readings>>, led_count: int) -> bool {
    forall|k: int|
        0 <= k < cells.len() && (#[trigger] cells[k]) is Some ==> cells[k]->Some_0@.len()
            == led_count
}

pub open spec fn readings_wf(m: &ReadingMap, led_count: int) -> bool {
    &&& m.wf()
    &&& cells_wf(m.cells(), led_count)
}

/// `g` gives a positive gain for each of `led_count` emitters at every cell
/// of `m`'s layout.
pub open spec fn gains_cover(g: &GainMap, m: &ReadingMap, led_count: int) -> bool {
    &&& g.wf()
    &&& g.same_shape(m)
    &&& g.cells().len() == m.cells().len()
    &&& forall|k: int|
        0 <= k < g.cells().len() ==> {
            &&& #[trigger] g.cells()[k] is Some
            &&& g.cells()[k]->Some_0@.len() == led_count
            &&& forall|i: int| 0 <= i < led_count ==> g.cells()[k]->Some_0@[i] > 0
        }
}

/// A reading `r` taken where the gain is `gs`, carried over to where it is
/// `gt`; saturates at the largest reading.
pub open spec fn rescale(r: int, gt: int, gs: int) -> int {
    if r * gt / gs > u32::MAX {
        u32::MAX as int
    } else {
        r * gt / gs
    }
}

/// Number of cells among `ks` that know reading `i`.
pub open spec fn contrib_count(m: &ReadingMap, ks: Seq<int>, i: int) -> int
    decreases ks.len(),
{
    if ks.len() == 0 {
        0
    } else {
        contrib_count(m, ks.drop_last(), i) + if reading_at(m, ks.last(), i) is Some {
            1int
        } else {
            0
        }
    }
}

/// Sum of the known readings `i` among the cells `ks`, each rescaled to the
/// target gain `gt`.
pub open spec fn contrib_sum(m: &ReadingMap, g: &GainMap, ks: Seq<int>, i: int, gt: int) -> int
    decreases ks.len(),
{
    if ks.len() == 0 {
        0
    } else {
        contrib_sum(m, g, ks.drop_last(), i, gt) + match reading_at(m, ks.last(), i) {
            Some(r) => rescale(r as int, gt, gain_at(g, ks.last(), i)),
            None => 0,
        }
    }
}

/// Reading `i` at `t` after augmentation: a known reading stays; an unknown
/// one becomes the mean of the rescaled known readings within `radius`, if
/// at least `min_pts` (and at least one) of them contribute, and stays
/// unknown otherwise.
pub open spec fn augment_led_spec(
    m: &ReadingMap,
    g: &GainMap,
    t: Point,
    i: int,
    radius: int,
    min_pts: int,
) -> Option<u32> {
    let k = m.index_of(t);
    if reading_at(m, k, i) is Some {
        reading_at(m, k, i)
    } else {
        let ks = m.neighbors(t, radius);
        let c = contrib_count(m, ks, i);
        if c < min_pts || c == 0 {
            None
        } else {
            Some((contrib_sum(m, g, ks, i, gain_at(g, k, i)) / c) as u32)
        }
    }
}

fn rescale_exec(r: u32, gt: u32, gs: u32) -> (e: u32)
    requires
        gs > 0,
    ensures
        e == rescale(r as int, gt as int, gs as int),
{
    assert(r as u64 * gt as u64 <= 0xffff_ffff_u64 * 0xffff_ffff_u64) by (nonlinear_arith)
        requires
            r <= 0xffff_ffff_u32,
            gt <= 0xffff_ffff_u32,
    ;
    let e = (r as u64 * gt as u64) / gs as u64;
    if e > u32::MAX as u64 {
        u32::MAX
    } else {
        e as u32
    }
}

proof fn lemma_contrib_prefix(m: &ReadingMap, g: &GainMap, ks: Seq<int>, j: int, i: int, gt: int)
    requires
        0 <= j < ks.len(),
    ensures
        contrib_count(m, ks.take(j + 1), i) == contrib_count(m, ks.take(j), i) + if reading_at(
            m,
            ks[j],
            i,
        ) is Some {
            1int
        } else {
            0
        },
        contrib_sum(m, g, ks.take(j + 1), i, gt) == contrib_sum(m, g, ks.take(j), i, gt)
            + match reading_at(m, ks[j], i) {
            Some(r) => rescale(r as int, gt, gain_at(g, ks[j], i)),
            None => 0,
        },
{
    assert(ks.take(j + 1).drop_last() =~= ks.take(j));
    assert(ks.take(j + 1).last() == ks[j]);
}

/// Count and sum of the rescaled known readings `i` among the cells `ks`.
fn contributions(
    m: &ReadingMap,
    g: &GainMap,
    ks: &Vec<usize>,
    i: usize,
    gt: u32,
    led_count: usize,
) -> (r: (u128, usize))
    requires
        m.wf(),
        i < led_count,
        gains_cover(g, m, led_count as int),
        forall|j: int| 0 <= j < ks@.len() ==> ks@[j] < m.cells().len(),
    ensures
        ({
            let s = ks@.map_values(|k: usize| k as int);
            &&& r.0 == contrib_sum(m, g, s, i as int, gt as int)
            &&& r.1 == contrib_count(m, s, i as int)
            &&& r.0 <= r.1 * 0xffff_ffff
        }),
{
    let ghost s = ks@.map_values(|k: usize| k as int);
    let mut sum: u128 = 0;
    let mut c: usize = 0;
    let mut j: usize = 0;
    while j < ks.len()
        invariant
            m.wf(),
            i < led_count,
            gains_cover(g, m, led_count as int),
            forall|q: int| 0 <= q < ks@.len() ==> ks@[q] < m.cells().len(),
            s == ks@.map_values(|k: usize| k as int),
            j <= ks@.len(),
            c <= j,
            sum == contrib_sum(m, g, s.take(j as int), i as int, gt as int),
            c == contrib_count(m, s.take(j as int), i as int),
            sum <= c * 0xffff_ffff,
        decreases ks@.len() - j,
    {
        proof {
            lemma_contrib_prefix(m, g, s, j as int, i as int, gt as int);
        }
        let k = ks[j];
        if let Some(v) = m.cell(k) {
            if i < v.len() {
                if let Some(x) = v[i] {
                    let gs_vec = g.cell(k);
                    if let Some(gv) = gs_vec {
                        let e = rescale_exec(x, gt, gv[i]);
                        sum = sum + e as u128;
                        c = c + 1;
                    }
                }
            }
        }
        j = j + 1;
    }
    assert(s.take(ks@.len() as int) =~= s);
    (sum, c)
}

/// Augmented readings at `t`: known readings pass through, unknown ones are
/// estimated from the known readings of the neighbors within `augm_dist`,
/// rescaled by the propagation model's gains; all unknown where `t`'s cell
/// is empty or outside the grid.
pub fn augment_point(
    t: Point,
    m: &ReadingMap,
    g: &GainMap,
    cfg: &CleanAugmentConfig,
    min_pts: usize,
) -> (r: Readings)
    requires
        m.wf(),
        gains_cover(g, m, cfg.led_count as int),
    ensures
        r@.len() == cfg.led_count,
        !(m.in_bounds(t) && m.occupied(m.index_of(t))) ==> forall|i: int|
            0 <= i < cfg.led_count ==> r@[i] is None,
        m.in_bounds(t) && m.occupied(m.index_of(t)) ==> forall|i: int|
            0 <= i < cfg.led_count ==> r@[i] == augment_led_spec(
                m,
                g,
                t,
                i,
                cfg.augm_dist as int,
                min_pts as int,
            ),
{
    let mut out: Readings = Vec::new();
    if !m.contains(t) {
        while out.len() < cfg.led_count
            invariant
                out@.len() <= cfg.led_count,
                forall|q: int| 0 <= q < out@.len() ==> out@[q] is None,
            decreases cfg.led_count - out@.len(),
        {
            out.push(None);
        }
        return out;
    }
    let kt = m.get_index(t);
    let own = m.cell(kt);
    let gt_cell = g.cell(kt);
    let ks = m.neighbor_indices(t, cfg.augm_dist);
    let ghost s = ks@.map_values(|k: usize| k as int);
    assert(s =~= m.neighbors(t, cfg.augm_dist as int));
    proof {
        crate::point_map::lemma_filter_sorted(
            |k: int| m.near(t, cfg.augm_dist as int, k),
            m.cells().len() as int,
        );
    }
    let mut i: usize = 0;
    while i < cfg.led_count
        invariant
            m.wf(),
            gains_cover(g, m, cfg.led_count as int),
            m.in_bounds(t),
            kt as int == m.index_of(t),
            kt < m.cells().len(),
            m.occupied(kt as int),
            *own == m.cells()[kt as int],
            *gt_cell == g.cells()[kt as int],
            s == ks@.map_values(|k: usize| k as int),
            s == m.neighbors(t, cfg.augm_dist as int),
            forall|j: int| 0 <= j < ks@.len() ==> ks@[j] < m.cells().len(),
            i <= cfg.led_count,
            out@.len() == i,
            forall|q: int|
                0 <= q < i ==> out@[q] == augment_led_spec(
                    m,
                    g,
                    t,
                    q,
                    cfg.augm_dist as int,
                    min_pts as int,
                ),
        decreases cfg.led_count - i,
    {
        let cur: Option<u32> = match own {
            Some(v) => if i < v.len() {
                v[i]
            } else {
                None
            },
            None => None,
        };
        if cur.is_some() {
            out.push(cur);
        } else {
            let gt = match gt_cell {
                Some(gv) => gv[i],
                None => 0,
            };
            let (sum, c) = contributions(m, g, &ks, i, gt, cfg.led_count);
            if c < min_pts || c == 0 {
                out.push(None);
            } else {
                proof {
                    lemma_div_is_ordered(sum as int, c * 0xffff_ffff, c as int);
                    lemma_div_multiples_vanish(0xffff_ffff, c as int);
                    assert(c * 0xffff_ffff == c as int * 0xffff_ffff as int);
                }
                let mean = (sum / c as u128) as u32;
                out.push(Some(mean));
            }
        }
        i = i + 1;
    }
    out
}

/// `b` is the grid that one augmentation pass with `min_pts` makes of `a`.
pub open spec fn is_pass(
    a: &ReadingMap,
    b: &ReadingMap,
    g: &GainMap,
    cfg: &CleanAugmentConfig,
    min_pts: int,
) -> bool {
    &&& readings_wf(b, cfg.led_count as int)
    &&& b.same_shape(a)
    &&& b.cells().len() == a.cells().len()
    &&& forall|k: int| 0 <= k < a.cells().len() ==> (b.occupied(k) <==> a.occupied(k))
    &&& forall|k: int, i: int|
        0 <= k < a.cells().len() && a.occupied(k) && 0 <= i < cfg.led_count ==> reading_at(
            b,
            k,
            i,
        ) == augment_led_spec(a, g, a.point_at(k), i, cfg.augm_dist as int, min_pts)
}

/// One augmentation pass: a fresh grid where each occupied cell of `m`
/// holds the augmented readings at its grid point.
pub fn augment_pass(m: &ReadingMap, g: &GainMap, cfg: &CleanAugmentConfig, min_pts: usize) -> (r:
    ReadingMap)
    requires
        m.wf(),
        gains_cover(g, m, cfg.led_count as int),
    ensures
        is_pass(m, &r, g, cfg, min_pts as int),
{
    let mut out: ReadingMap = m.empty_like();
    let n = m.cell_count();
    proof {
        assert forall|q: int| 0 <= q < n implies (#[trigger] out.cells()[q]) is None by {
            assert(!out.occupied(q));
        }
    }
    let mut k: usize = 0;
    while k < n
        invariant
            m.wf(),
            gains_cover(g, m, cfg.led_count as int),
            n == m.cells().len(),
            k <= n,
            out.wf(),
            out.same_shape(m),
            out.cells().len() == n,
            forall|q: int|
                0 <= q < n ==> ((#[trigger] out.cells()[q]) is Some <==> (q < k && m.occupied(q))),
            cells_wf(out.cells(), cfg.led_count as int),
            forall|q: int, i: int|
                0 <= q < k && m.occupied(q) && 0 <= i < cfg.led_count ==> #[trigger] cell_reading(
                    out.cells()[q],
                    i,
                ) == augment_led_spec(
                    m,
                    g,
                    m.point_at(q),
                    i,
                    cfg.augm_dist as int,
                    min_pts as int,
                ),
        decreases n - k,
    {
        if m.cell(k).is_some() {
            let t = m.point_of_cell(k);
            let v = augment_point(t, m, g, cfg, min_pts);
            let ghost before = out.cells();
            out.put(k, v);
            proof {
                assert forall|q: int| 0 <= q < n implies ((#[trigger] out.cells()[q]) is Some <==> (q
                    < k + 1 && m.occupied(q))) by {
                    if q != k {
                        assert(out.cells()[q] == before[q]);
                    }
                }
                assert forall|q: int|
                    0 <= q < n && (#[trigger] out.cells()[q]) is Some implies out.cells()[q]->Some_0@.len()
                        == cfg.led_count by {
                    if q != k {
                        assert(out.cells()[q] == before[q]);
                    }
                }
                assert forall|q: int, i: int|
                    0 <= q < k + 1 && m.occupied(q) && 0 <= i < cfg.led_count implies #[trigger] cell_reading(
                    out.cells()[q],
                    i,
                ) == augment_led_spec(
                    m,
                    g,
                    m.point_at(q),
                    i,
                    cfg.augm_dist as int,
                    min_pts as int,
                ) by {
                    if q < k {
                        assert(out.cells()[q] == before[q]);
                        assert(cell_reading(before[q], i) == cell_reading(out.cells()[q], i));
                    } else {
                        assert(out.cells()[q] == Some(v));
                        assert(t == m.point_at(q));
                    }
                }
            }
        } else {
            proof {
                assert forall|q: int| 0 <= q < n implies ((#[trigger] out.cells()[q]) is Some <==> (q
                    < k + 1 && m.occupied(q))) by {}
            }
        }
        k = k + 1;
    }
    out
}

/// Equal gains at the source and the target leave a reading unchanged.
pub proof fn lemma_rescale_identity(r: int, g: int)
    requires
        0 <= r <= u32::MAX,
        g > 0,
    ensures
        rescale(r, g, g) == r,
{
    lemma_div_multiples_vanish(r, g);
    assert(g * r == r * g) by (nonlinear_arith);
}

/// An unknown reading stays unknown when fewer than `min_pts` neighbors
/// know it, however many of them do.
pub proof fn lemma_too_few_contributors(
    m: &ReadingMap,
    g: &GainMap,
    t: Point,
    i: int,
    radius: int,
    min_pts: int,
)
    requires
        reading_at(m, m.index_of(t), i) is None,
        contrib_count(m, m.neighbors(t, radius), i) < min_pts,
    ensures
        augment_led_spec(m, g, t, i, radius, min_pts) is None,
{
}

/// Where every contributing neighbor knows the same value `v` and shares the
/// target's gain, the rescaled contributions sum to `v` per contributor.
proof fn lemma_uniform_sum(m: &ReadingMap, g: &GainMap, ks: Seq<int>, i: int, gt: int, v: u32)
    requires
        gt > 0,
        forall|j: int|
            0 <= j < ks.len() && (#[trigger] reading_at(m, ks[j], i)) is Some ==> reading_at(
                m,
                ks[j],
                i,
            ) == Some(v) && gain_at(g, ks[j], i) == gt,
    ensures
        contrib_sum(m, g, ks, i, gt) == contrib_count(m, ks, i) * v,
    decreases ks.len(),
{
    if ks.len() > 0 {
        let last = ks.len() - 1;
        assert forall|j: int|
            0 <= j < ks.drop_last().len() && (#[trigger] reading_at(m, ks.drop_last()[j], i)) is Some implies reading_at(
                m,
                ks.drop_last()[j],
                i,
            ) == Some(v) && gain_at(g, ks.drop_last()[j], i) == gt by {
            assert(ks.drop_last()[j] == ks[j]);
        }
        lemma_uniform_sum(m, g, ks.drop_last(), i, gt, v);
        if reading_at(m, ks.last(), i) is Some {
            assert(reading_at(m, ks[last], i) is Some);
            assert(v * gt / gt == v) by {
                lemma_div_multiples_vanish(v as int, gt);
                assert(gt * v == v * gt) by (nonlinear_arith);
            }
        }
        assert(contrib_count(m, ks.drop_last(), i) * v + v == (contrib_count(m, ks.drop_last(), i)
            + 1) * v) by (nonlinear_arith);
    }
}

/// Degenerate symmetric augmentation: an unknown reading whose contributing
/// neighbors all know the same value and share the target's gain becomes
/// that value, once enough of them contribute.
pub proof fn lemma_symmetric_augmentation(
    m: &ReadingMap,
    g: &GainMap,
    t: Point,
    i: int,
    radius: int,
    min_pts: int,
    v: u32,
)
    requires
        reading_at(m, m.index_of(t), i) is None,
        gain_at(g, m.index_of(t), i) > 0,
        contrib_count(m, m.neighbors(t, radius), i) >= min_pts,
        contrib_count(m, m.neighbors(t, radius), i) > 0,
        forall|j: int|
            0 <= j < m.neighbors(t, radius).len() && (#[trigger] reading_at(
                m,
                m.neighbors(t, radius)[j],
                i,
            )) is Some ==> reading_at(m, m.neighbors(t, radius)[j], i) == Some(v) && gain_at(
                g,
                m.neighbors(t, radius)[j],
                i,
            ) == gain_at(g, m.index_of(t), i),
    ensures
        augment_led_spec(m, g, t, i, radius, min_pts) == Some(v),
{
    let ks = m.neighbors(t, radius);
    let c = contrib_count(m, ks, i);
    lemma_uniform_sum(m, g, ks, i, gain_at(g, m.index_of(t), i), v);
    lemma_div_multiples_vanish(v as int, c);
    assert(c * v == v * c) by (nonlinear_arith);
}

/// The convergence driver: `iterations` augmentation passes with the relaxed
/// neighbor count, each over the grid that the previous pass produced.
pub fn converge(m: ReadingMap, g: &GainMap, cfg: &CleanAugmentConfig, iterations: u32) -> (r:
    ReadingMap)
    requires
        readings_wf(&m, cfg.led_count as int),
        gains_cover(g, &m, cfg.led_count as int),
    ensures
        readings_wf(&r, cfg.led_count as int),
        r.same_shape(&m),
        r.cells().len() == m.cells().len(),
        iterations == 0 ==> r == m,
        exists|ms: Seq<ReadingMap>|
            #![trigger ms[0]]
            ms.len() == iterations + 1 && ms[0] == m && ms.last() == r && forall|j: int|
                0 <= j < iterations ==> #[trigger] is_pass(
                    &ms[j],
                    &ms[j + 1],
                    g,
                    cfg,
                    cfg.augm_min_neighbors2 as int,
                ),
        forall|k: int| 0 <= k < m.cells().len() ==> (r.occupied(k) <==> m.occupied(k)),
        forall|k: int, i: int|
            0 <= k < m.cells().len() && reading_at(&m, k, i) is Some ==> #[trigger] reading_at(
                &r,
                k,
                i,
            ) == reading_at(&m, k, i),
{
    let ghost m0 = m.cells();
    let ghost len = m.cells().len();
    let ghost mut ms: Seq<ReadingMap> = seq![m];
    let mut cur = m;
    let mut it: u32 = 0;
    while it < iterations
        invariant
            readings_wf(&cur, cfg.led_count as int),
            gains_cover(g, &cur, cfg.led_count as int),
            cur.same_shape(&m),
            cur.cells().len() == len,
            len == m.cells().len(),
            m0 == m.cells(),
            it <= iterations,
            it == 0 ==> cur == m,
            ms.len() == it + 1,
            ms[0] == m,
            ms.last() == cur,
            forall|j: int|
                0 <= j < it ==> #[trigger] is_pass(
                    &ms[j],
                    &ms[j + 1],
                    g,
                    cfg,
                    cfg.augm_min_neighbors2 as int,
                ),
            forall|k: int| 0 <= k < len ==> (cur.occupied(k) <==> m.occupied(k)),
            forall|k: int, i: int|
                0 <= k < len && reading_at(&m, k, i) is Some ==> #[trigger] reading_at(&cur, k, i)
                    == reading_at(&m, k, i),
        decreases iterations - it,
    {
        let next = augment_pass(&cur, g, cfg, cfg.augm_min_neighbors2);
        assert(gains_cover(g, &next, cfg.led_count as int));
        proof {
            assert forall|k: int, i: int|
                0 <= k < len && reading_at(&m, k, i) is Some implies #[trigger] reading_at(
                &next,
                k,
                i,
            ) == reading_at(&m, k, i) by {
                assert(reading_at(&cur, k, i) is Some);
                assert(cur.occupied(k));
                assert(0 <= i < cfg.led_count);
                let t = cur.point_at(k);
                assert(cur.index_of(t) == k) by {
                    cur.lemma_point_at_index(k);
                }
            }
        }
        proof {
            let ms2 = ms.push(next);
            assert forall|j: int|
                0 <= j < it + 1 implies #[trigger] is_pass(
                &ms2[j],
                &ms2[j + 1],
                g,
                cfg,
                cfg.augm_min_neighbors2 as int,
            ) by {
                assert(ms2[j] == ms[j] || j == it);
                if j < it {
                    assert(ms2[j + 1] == ms[j + 1]);
                } else {
                    assert(ms2[j] == cur);
                    assert(ms2[j + 1] == next);
                }
            }
            ms = ms2;
        }
        cur = next;
        it = it + 1;
    }
    assert(ms[0] == m);
    cur
}

/// A rectangle of the plane to fill, seeded every `resolution` units from
/// its lower-left corner up to, and excluding, its upper-right one.
#[derive(Debug, Clone, Copy, PartialEq, Eq, Structural)]
pub struct AugmentBox {
    pub ll: Point,
    pub ur: Point,
    pub resolution: u32,
}

/// Default seeding stride of an augmentation rectangle.
pub const BOX_RESOLUTION: u32 = 10;

impl AugmentBox {
    pub fn new(ll: Point, ur: Point) -> (r: AugmentBox)
        ensures
            r.ll == ll,
            r.ur == ur,
            r.resolution == BOX_RESOLUTION,
    {
        AugmentBox { ll, ur, resolution: BOX_RESOLUTION }
    }

    /// The rectangle of width `w` and height `h` above and right of `ll`.
    pub fn new_with_size(ll: Point, w: u32, h: u32) -> (r: AugmentBox)
        requires
            ll.x + w <= u32::MAX,
            ll.y + h <= u32::MAX,
        ensures
            r.ll == ll,
            r.ur.x == ll.x + w,
            r.ur.y == ll.y + h,
            r.resolution == BOX_RESOLUTION,
    {
        AugmentBox { ll, ur: Point { x: ll.x + w, y: ll.y + h }, resolution: BOX_RESOLUTION }
    }
}

/// Side of each default augmentation rectangle.
pub const AUG_BOX_SIZE: u32 = 1210;

/// The default rectangles to fill: four squares at the corners of the
/// measured area.
pub fn aug_boxes() -> (r: Vec<AugmentBox>)
    ensures
        r@.len() == 4,
        r@[0].ll == (Point { x: 0, y: 0 }),
        r@[1].ll == (Point { x: 1610, y: 0 }),
        r@[2].ll == (Point { x: 0, y: 1550 }),
        r@[3].ll == (Point { x: 1610, y: 1550 }),
        forall|b: int|
            0 <= b < 4 ==> {
                &&& (#[trigger] r@[b]).ur.x == r@[b].ll.x + AUG_BOX_SIZE
                &&& r@[b].ur.y == r@[b].ll.y + AUG_BOX_SIZE
                &&& r@[b].resolution == BOX_RESOLUTION
            },
{
    let mut r: Vec<AugmentBox> = Vec::new();
    r.push(AugmentBox::new_with_size(Point::new(0, 0), AUG_BOX_SIZE, AUG_BOX_SIZE));
    r.push(AugmentBox::new_with_size(Point::new(1610, 0), AUG_BOX_SIZE, AUG_BOX_SIZE));
    r.push(AugmentBox::new_with_size(Point::new(0, 1550), AUG_BOX_SIZE, AUG_BOX_SIZE));
    r.push(AugmentBox::new_with_size(Point::new(1610, 1550), AUG_BOX_SIZE, AUG_BOX_SIZE));
    r
}

/// An all-unknown reading vector.
fn unknown_readings(led_count: usize) -> (r: Readings)
    ensures
        r@.len() == led_count,
        forall|i: int| 0 <= i < led_count ==> r@[i] is None,
{
    let mut out: Readings = Vec::new();
    while out.len() < led_count
        invariant
            out@.len() <= led_count,
            forall|q: int| 0 <= q < out@.len() ==> out@[q] is None,
        decreases led_count - out@.len(),
    {
        out.push(None);
    }
    out
}

/// Seed `(a, c)` of box `b`: `a` strides right and `c` strides up from its
/// lower-left corner.
pub open spec fn seed_point(b: AugmentBox, a: nat, c: nat) -> Point {
    Point { x: (b.ll.x + a * b.resolution) as u32, y: (b.ll.y + c * b.resolution) as u32 }
}

/// Seed `(a, c)` lies inside box `b`.
pub open spec fn seed_in_box(b: AugmentBox, a: nat, c: nat) -> bool {
    &&& b.ll.x + a * b.resolution < b.ur.x
    &&& b.ll.y + c * b.resolution < b.ur.y
}

/// Cell `k` of a grid of `cols` columns and stride `res` holds a seed of one
/// of `boxes`.
pub open spec fn seeded_cell(boxes: Seq<AugmentBox>, cols: int, res: int, k: int) -> bool {
    exists|q: int, a: nat, c: nat|
        0 <= q < boxes.len() && seed_in_box(boxes[q], a, c) && cell_index(
            cols,
            res,
            #[trigger] seed_point(boxes[q], a, c),
        ) == k
}

/// `p` quantizes to a cell of a grid of the given layout.
pub open spec fn in_shape(cols: int, rows: int, res: int, p: Point) -> bool {
    &&& (p.x as int) / res < cols
    &&& (p.y as int) / res < rows
}

/// Seeds every point of each box, at the box's stride, with an all-unknown
/// reading vector where its cell is empty. Fails on the first seed outside
/// the grid.
pub fn populate_points(m: &mut ReadingMap, boxes: &Vec<AugmentBox>, led_count: usize) -> (r:
    Result<(), GridError>)
    requires
        readings_wf(old(m), led_count as int),
        forall|b: int| 0 <= b < boxes@.len() ==> (#[trigger] boxes@[b]).resolution > 0,
    ensures
        readings_wf(final(m), led_count as int),
        final(m).same_shape(old(m)),
        final(m).cells().len() == old(m).cells().len(),
        forall|k: int|
            0 <= k < old(m).cells().len() && old(m).occupied(k) ==> final(m).cells()[k] == old(
                m,
            ).cells()[k],
        forall|k: int|
            0 <= k < old(m).cells().len() && !old(m).occupied(k) && (#[trigger] final(m).cells()[k]) is Some ==> forall|i: int|
                0 <= i < led_count ==> cell_reading(final(m).cells()[k], i) is None,
        forall|k: int|
            0 <= k < old(m).cells().len() && (#[trigger] final(m).cells()[k]) is Some ==> old(
                m,
            ).cells()[k] is Some || seeded_cell(boxes@, old(m).cols(), old(m).res(), k),
        r is Ok ==> forall|b: int, a: nat, c: nat|
            0 <= b < boxes@.len() && seed_in_box(boxes@[b], a, c) ==> final(m).in_bounds(
                #[trigger] seed_point(boxes@[b], a, c),
            ) && final(m).occupied(final(m).index_of(seed_point(boxes@[b], a, c))),
        r is Err ==> exists|b: int, a: nat, c: nat|
            0 <= b < boxes@.len() && seed_in_box(boxes@[b], a, c) && !old(m).in_bounds(
                #[trigger] seed_point(boxes@[b], a, c),
            ),
{
    let ghost m0 = m.cells();
    let ghost cols = m.cols();
    let ghost rows = m.rows();
    let ghost res = m.res();
    let mut b: usize = 0;
    while b < boxes.len()
        invariant
            readings_wf(m, led_count as int),
            m.same_shape(old(m)),
            cols == old(m).cols(),
            rows == old(m).rows(),
            res == old(m).res(),
            m.cells().len() == m0.len(),
            m0 == old(m).cells(),
            b <= boxes@.len(),
            forall|q: int| 0 <= q < boxes@.len() ==> (#[trigger] boxes@[q]).resolution > 0,
            forall|k: int| 0 <= k < m0.len() && m0[k] is Some ==> m.cells()[k] == m0[k],
            forall|k: int|
                0 <= k < m0.len() && (#[trigger] m.cells()[k]) is Some ==> m0[k] is Some || seeded_cell(
                    boxes@,
                    cols,
                    res,
                    k,
                ),
            forall|k: int|
                0 <= k < m0.len() && m0[k] is None && (#[trigger] m.cells()[k]) is Some ==> forall|
                    i: int,
                | 0 <= i < led_count ==> cell_reading(m.cells()[k], i) is None,
            forall|q: int, a: nat, c: nat|
                0 <= q < b && seed_in_box(boxes@[q], a, c) ==> in_shape(
                    cols,
                    rows,
                    res,
                    #[trigger] seed_point(boxes@[q], a, c),
                ) && 0 <= cell_index(cols, res, seed_point(boxes@[q], a, c)) < m0.len() && m.cells()[cell_index(cols, res, seed_point(boxes@[q], a, c))] is Some,
        decreases boxes@.len() - b,
    {
        let bx = boxes[b];
        let mut x: u32 = bx.ll.x;
        let ghost mut a: nat = 0;
        while x < bx.ur.x
            invariant
                readings_wf(m, led_count as int),
                m.same_shape(old(m)),
                cols == old(m).cols(),
                rows == old(m).rows(),
                res == old(m).res(),
                m.cells().len() == m0.len(),
                bx.resolution > 0,
                bx == boxes@[b as int],
                b < boxes@.len(),
                m0 == old(m).cells(),
                x < bx.ur.x ==> x == bx.ll.x + a * bx.resolution,
                x >= bx.ll.x,
                forall|k: int| 0 <= k < m0.len() && m0[k] is Some ==> m.cells()[k] == m0[k],
                forall|k: int|
                    0 <= k < m0.len() && (#[trigger] m.cells()[k]) is Some ==> m0[k] is Some || seeded_cell(
                        boxes@,
                        cols,
                        res,
                        k,
                    ),
                forall|k: int|
                    0 <= k < m0.len() && m0[k] is None && (#[trigger] m.cells()[k]) is Some ==> forall|
                        i: int,
                    | 0 <= i < led_count ==> cell_reading(m.cells()[k], i) is None,
                forall|q: int, a2: nat, c: nat|
                    0 <= q < b && seed_in_box(boxes@[q], a2, c) ==> in_shape(
                        cols,
                        rows,
                        res,
                        #[trigger] seed_point(boxes@[q], a2, c),
                    ) && 0 <= cell_index(cols, res, seed_point(boxes@[q], a2, c)) < m0.len() && m.cells()[cell_index(cols, res, seed_point(boxes@[q], a2, c))] is Some,
                forall|a2: nat, c: nat|
                    seed_in_box(bx, a2, c) && bx.ll.x + a2 * bx.resolution < x ==> in_shape(
                        cols,
                        rows,
                        res,
                        #[trigger] seed_point(bx, a2, c),
                    ) && 0 <= cell_index(cols, res, seed_point(bx, a2, c)) < m0.len() && m.cells()[cell_index(cols, res, seed_point(bx, a2, c))] is Some,
            decreases bx.ur.x - x,
        {
            let mut y: u32 = bx.ll.y;
            let ghost mut c: nat = 0;
            while y < bx.ur.y
                invariant
                    readings_wf(m, led_count as int),
                    m.same_shape(old(m)),
                    cols == old(m).cols(),
                    rows == old(m).rows(),
                    res == old(m).res(),
                    m.cells().len() == m0.len(),
                    bx.resolution > 0,
                    bx == boxes@[b as int],
                    b < boxes@.len(),
                    m0 == old(m).cells(),
                    x < bx.ur.x,
                    x == bx.ll.x + a * bx.resolution,
                    y < bx.ur.y ==> y == bx.ll.y + c * bx.resolution,
                    y >= bx.ll.y,
                    forall|k: int| 0 <= k < m0.len() && m0[k] is Some ==> m.cells()[k] == m0[k],
                    forall|k: int|
                        0 <= k < m0.len() && (#[trigger] m.cells()[k]) is Some ==> m0[k] is Some || seeded_cell(
                            boxes@,
                            cols,
                            res,
                            k,
                        ),
                    forall|k: int|
                        0 <= k < m0.len() && m0[k] is None && (#[trigger] m.cells()[k]) is Some ==> forall|
                            i: int,
                        | 0 <= i < led_count ==> cell_reading(m.cells()[k], i) is None,
                    forall|q: int, a2: nat, c2: nat|
                        0 <= q < b && seed_in_box(boxes@[q], a2, c2) ==> in_shape(
                            cols,
                            rows,
                            res,
                            #[trigger] seed_point(boxes@[q], a2, c2),
                        ) && 0 <= cell_index(cols, res, seed_point(boxes@[q], a2, c2)) < m0.len() && m.cells()[cell_index(cols, res, seed_point(boxes@[q], a2, c2))] is Some,
                    forall|a2: nat, c2: nat|
                        seed_in_box(bx, a2, c2) && (bx.ll.x + a2 * bx.resolution < x || (a2 == a
                            && bx.ll.y + c2 * bx.resolution < y)) ==> in_shape(
                            cols,
                            rows,
                            res,
                            #[trigger] seed_point(bx, a2, c2),
                        ) && 0 <= cell_index(cols, res, seed_point(bx, a2, c2)) < m0.len() && m.cells()[cell_index(cols, res, seed_point(bx, a2, c2))] is Some,
                decreases bx.ur.y - y,
            {
                let seed = unknown_readings(led_count);
                let ghost before = m.cells();
                let ghost idx = m.index_of(Point { x, y });
                assert(seed_point(bx, a, c) == Point { x, y });
                let res_ins = m.insert_if_absent(Point { x, y }, seed);
                match res_ins {
                    Err(e) => {
                        proof {
                            assert(seed_in_box(boxes@[b as int], a, c));
                            assert(!old(m).in_bounds(seed_point(boxes@[b as int], a, c)));
                        }
                        return Err(e);
                    },
                    Ok(()) => {},
                }
                proof {
                    assert forall|k: int| 0 <= k < m.cells().len() && before[k] is Some implies (#[trigger] m.cells()[k]) is Some by {
                        if k != idx {
                            assert(m.cells()[k] == before[k]);
                        }
                    }
                    assert forall|k: int|
                        0 <= k < m.cells().len() && (#[trigger] m.cells()[k]) is Some implies m.cells()[k]->Some_0@.len()
                            == led_count by {
                        if k != idx {
                            assert(m.cells()[k] == before[k]);
                        }
                    }
                    assert(seed_in_box(boxes@[b as int], a, c));
                    assert(cell_index(cols, res, seed_point(boxes@[b as int], a, c)) == idx);
                    assert(seeded_cell(boxes@, cols, res, idx));
                    assert forall|k: int|
                        0 <= k < m0.len() && (#[trigger] m.cells()[k]) is Some implies m0[k] is Some
                            || seeded_cell(boxes@, cols, res, k) by {
                        if k != idx {
                            assert(m.cells()[k] == before[k]);
                        }
                    }
                    assert forall|k: int| 0 <= k < m0.len() && m0[k] is Some implies m.cells()[k] == m0[k] by {
                        if k != idx {
                            assert(m.cells()[k] == before[k]);
                        }
                    }
                    assert forall|k: int|
                        0 <= k < m0.len() && m0[k] is None && (#[trigger] m.cells()[k]) is Some implies forall|i: int|
                            0 <= i < led_count ==> cell_reading(m.cells()[k], i) is None by {
                        if k != idx || before[k] is Some {
                            assert(m.cells()[k] == before[k]);
                        } else {
                            assert(m.cells()[k] == Some(seed));
                        }
                    }
                    assert(m.cells()[idx] is Some);
                    assert(idx == cell_index(cols, res, Point { x, y }));
                }
                let ghost y_prev = y;
                if (bx.ur.y - y) <= bx.resolution {
                    y = bx.ur.y;
                } else {
                    y = y + bx.resolution;
                }
                proof {
                    c = c + 1;
                    assert(y_prev + bx.resolution == bx.ll.y + c * bx.resolution) by (nonlinear_arith)
                        requires
                            y_prev == bx.ll.y + (c - 1) * bx.resolution,
                    ;
                    assert forall|a2: nat, c2: nat|
                        seed_in_box(bx, a2, c2) && (bx.ll.x + a2 * bx.resolution < x || (a2 == a
                            && bx.ll.y + c2 * bx.resolution < y)) implies in_shape(
                            cols,
                            rows,
                            res,
                            #[trigger] seed_point(bx, a2, c2),
                        ) && 0 <= cell_index(cols, res, seed_point(bx, a2, c2)) < m0.len() && m.cells()[cell_index(cols, res, seed_point(bx, a2, c2))] is Some by {
                        if a2 == a && bx.ll.y + c2 * bx.resolution >= y_prev
                            && bx.ll.x + a2 * bx.resolution >= x {
                            assert(bx.ll.y + c2 * bx.resolution < y_prev + bx.resolution);
                            assert(c2 == c - 1) by (nonlinear_arith)
                                requires
                                    bx.ll.y + c2 * bx.resolution >= bx.ll.y + (c - 1) * bx.resolution,
                                    bx.ll.y + c2 * bx.resolution < bx.ll.y + c * bx.resolution,
                                    bx.resolution > 0,
                                    c >= 1,
                            ;
                        }
                    }
                }
            }
            let ghost x_prev = x;
            if (bx.ur.x - x) <= bx.resolution {
                x = bx.ur.x;
            } else {
                x = x + bx.resolution;
            }
            proof {
                a = a + 1;
                assert(x_prev + bx.resolution == bx.ll.x + a * bx.resolution) by (nonlinear_arith)
                    requires
                        x_prev == bx.ll.x + (a - 1) * bx.resolution,
                ;
                assert forall|a2: nat, c2: nat|
                    seed_in_box(bx, a2, c2) && bx.ll.x + a2 * bx.resolution < x implies in_shape(
                        cols,
                        rows,
                        res,
                        #[trigger] seed_point(bx, a2, c2),
                    ) && 0 <= cell_index(cols, res, seed_point(bx, a2, c2)) < m0.len() && m.cells()[cell_index(cols, res, seed_point(bx, a2, c2))] is Some by {
                    if bx.ll.x + a2 * bx.resolution >= x_prev {
                        assert(bx.ll.x + a2 * bx.resolution < x_prev + bx.resolution);
                        assert(a2 == a - 1) by (nonlinear_arith)
                            requires
                                bx.ll.x + a2 * bx.resolution >= bx.ll.x + (a - 1) * bx.resolution,
                                bx.ll.x + a2 * bx.resolution < bx.ll.x + a * bx.resolution,
                                bx.resolution > 0,
                                a >= 1,
                        ;
                    }
                }
            }
        }
        b = b + 1;
    }
    Ok(())
}

} // verus!
