use vstd::prelude::*;
use vstd::arithmetic::div_mod::{
    lemma_div_is_ordered, lemma_div_multiples_vanish, lemma_fundamental_div_mod,
    lemma_fundamental_div_mod_converse,
};

use crate::point::{dist_sq_spec, Point};

verus! {

/// Physical extents of the mapped area and the stride between grid cells.
#[derive(Debug, Clone, Copy, PartialEq, Eq, Structural)]
pub struct PointMapConfig {
    pub x_size: u32,
    pub y_size: u32,
    pub resolution: u32,
}

impl PointMapConfig {
    /// `p` quantizes to a cell of a grid built from this configuration.
    pub open spec fn covers(&self, p: Point) -> bool {
        &&& p.x / self.resolution < self.x_size / self.resolution
        &&& p.y / self.resolution < self.y_size / self.resolution
    }
}

/// A point that lies outside the configured extents.
#[derive(Debug, Clone, Copy, PartialEq, Eq, Structural)]
pub enum GridError {
    OutOfBounds,
}

/// The indices `k < n`, in increasing order, for which `pred` holds.
pub open spec fn filter_upto(pred: spec_fn(int) -> bool, n: int) -> Seq<int>
    decreases n,
{
    if n <= 0 {
        Seq::empty()
    } else if pred(n - 1) {
        filter_upto(pred, n - 1).push(n - 1)
    } else {
        filter_upto(pred, n - 1)
    }
}

/// Indices on which `pred` fails do not change the filtered prefix.
pub proof fn lemma_filter_skip(pred: spec_fn(int) -> bool, a: int, b: int)
    requires
        0 <= a <= b,
        forall|k: int| a <= k < b ==> !#[trigger] pred(k),
    ensures
        filter_upto(pred, b) == filter_upto(pred, a),
    decreases b - a,
{
    if b > a {
        lemma_filter_skip(pred, a, b - 1);
    }
}

/// An index is in the filtered prefix exactly when it is below the bound
/// and satisfies the predicate.
pub proof fn lemma_filter_members(pred: spec_fn(int) -> bool, n: int, k: int)
    ensures
        filter_upto(pred, n).contains(k) <==> (0 <= k < n && pred(k)),
    decreases n,
{
    if n > 0 {
        lemma_filter_members(pred, n - 1, k);
        let prev = filter_upto(pred, n - 1);
        if pred(n - 1) {
            assert(prev.push(n - 1).contains(k) <==> (prev.contains(k) || k == n - 1)) by {
                if k == n - 1 {
                    assert(prev.push(n - 1)[prev.len() as int] == k);
                }
                if prev.contains(k) {
                    let j = choose|j: int| 0 <= j < prev.len() && prev[j] == k;
                    assert(prev.push(n - 1)[j] == k);
                }
            }
        }
    }
}

/// Predicates that agree below `n` filter the same prefix.
pub proof fn lemma_filter_ext(p1: spec_fn(int) -> bool, p2: spec_fn(int) -> bool, n: int)
    requires
        forall|k: int| 0 <= k < n ==> #[trigger] p1(k) == p2(k),
    ensures
        filter_upto(p1, n) == filter_upto(p2, n),
    decreases n,
{
    if n > 0 {
        lemma_filter_ext(p1, p2, n - 1);
    }
}

/// The filtered prefix holds indices below its bound, in strictly increasing order.
pub proof fn lemma_filter_sorted(pred: spec_fn(int) -> bool, n: int)
    ensures
        forall|i: int, j: int|
            0 <= i < j < filter_upto(pred, n).len() ==> #[trigger] filter_upto(pred, n)[i]
                < #[trigger] filter_upto(pred, n)[j],
        forall|i: int|
            0 <= i < filter_upto(pred, n).len() ==> 0 <= #[trigger] filter_upto(pred, n)[i] < n,
    decreases n,
{
    if n > 0 {
        lemma_filter_sorted(pred, n - 1);
        let prev = filter_upto(pred, n - 1);
        if pred(n - 1) {
            let cur = prev.push(n - 1);
            assert forall|i: int| 0 <= i < cur.len() implies 0 <= #[trigger] cur[i] < n by {
                if i < prev.len() {
                    assert(cur[i] == prev[i]);
                }
            }
            assert forall|i: int, j: int| 0 <= i < j < cur.len() implies #[trigger] cur[i]
                < #[trigger] cur[j] by {
                assert(cur[i] == prev[i]);
                if j < prev.len() {
                    assert(cur[j] == prev[j]);
                }
            }
        }
    }
}

/// Row-major index of the cell holding `p` in a grid of `cols` columns and
/// stride `res`.
pub open spec fn cell_index(cols: int, res: int, p: Point) -> int {
    ((p.y as int) / res) * cols + (p.x as int) / res
}

/// Cells `c` after putting `v` into cell `k` unless it is occupied.
pub open spec fn insert_cells<T>(c: Seq<Option<T>>, k: int, v: T) -> Seq<Option<T>> {
    if c[k] is Some {
        c
    } else {
        c.update(k, Some(v))
    }
}

/// Inserting into an occupied cell changes nothing: a second insertion at
/// the same cell, with any value, leaves the first one's result as it is.
pub proof fn lemma_insert_idempotent<T>(c: Seq<Option<T>>, k: int, v: T, w: T)
    requires
        0 <= k < c.len(),
    ensures
        insert_cells(c, k, v)[k] is Some,
        insert_cells(insert_cells(c, k, v), k, w) == insert_cells(c, k, v),
{
}

/// A dense grid over the configured extents, one optional cell per multiple
/// of the resolution on each axis, stored row by row.
#[derive(Debug)]
pub struct PointMap<T> {
    data: Vec<Option<T>>,
    cols: u32,
    rows: u32,
    resolution: u32,
}

proof fn lemma_index_bound(cx: int, cy: int, cols: int, rows: int)
    requires
        0 <= cx < cols,
        0 <= cy < rows,
    ensures
        0 <= cy * cols + cx < rows * cols,
        cy * cols + cx < cols * rows,
        (cy + 1) * cols <= cols * rows,
        (cy * cols + cx) % cols == cx,
        (cy * cols + cx) / cols == cy,
{
    assert(cy * cols + cx < rows * cols) by (nonlinear_arith)
        requires
            0 <= cx < cols,
            0 <= cy < rows,
    ;
    assert(rows * cols == cols * rows) by (nonlinear_arith);
    assert((cy + 1) * cols <= cols * rows) by (nonlinear_arith)
        requires
            0 <= cx < cols,
            0 <= cy < rows,
    ;
    assert(0 <= cy * cols) by (nonlinear_arith)
        requires
            0 <= cy,
            0 <= cols,
    ;
    lemma_fundamental_div_mod_converse(cy * cols + cx, cols, cy, cx);
}

/// For an index below `bound * cols` the row is below `bound`; for one at or
/// above it, the row is at least `bound`.
proof fn lemma_row_of(k: int, cols: int, bound: int)
    requires
        cols > 0,
        k >= 0,
        bound >= 0,
    ensures
        k < bound * cols ==> k / cols < bound,
        k >= bound * cols ==> k / cols >= bound,
        0 <= k % cols < cols,
{
    lemma_fundamental_div_mod(k, cols);
    let q = k / cols;
    let m = k % cols;
    assert(0 <= m < cols);
    if k < bound * cols {
        assert(q < bound) by (nonlinear_arith)
            requires
                k == cols * q + m,
                0 <= m,
                k < bound * cols,
                cols > 0,
        ;
    }
    if k >= bound * cols {
        assert(q >= bound) by (nonlinear_arith)
            requires
                k == cols * q + m,
                m < cols,
                k >= bound * cols,
                cols > 0,
        ;
    }
}

/// A cell column whose coordinate lies within `r` of `px` is inside the
/// column range that the stride gives for `[px - r, px + r]`.
proof fn lemma_col_in_range(px: int, r: int, res: int, col: int)
    requires
        res > 0,
        r >= 0,
        px >= 0,
        col >= 0,
        (px - col * res) * (px - col * res) <= r * r,
    ensures
        (if px >= r { px - r } else { 0 }) / res <= col,
        col <= (px + r) / res,
{
    let c = col * res;
    assert(px - c <= r && c - px <= r) by (nonlinear_arith)
        requires
            (px - c) * (px - c) <= r * r,
            r >= 0,
    ;
    lemma_div_multiples_vanish(col, res);
    assert(res * col == col * res) by (nonlinear_arith);
    let lo = if px >= r { px - r } else { 0 };
    assert(lo <= c) by (nonlinear_arith)
        requires
            c == col * res,
            col >= 0,
            res > 0,
            px - c <= r,
            lo == (if px >= r { px - r } else { 0 }),
    ;
    lemma_div_is_ordered(lo, c, res);
    lemma_div_is_ordered(c, px + r, res);
}

/// A nonempty product of two naturals has positive factors.
proof fn lemma_positive_factors(k: int, cols: int, rows: int)
    requires
        0 <= k < cols * rows,
        cols >= 0,
        rows >= 0,
    ensures
        cols > 0,
        rows > 0,
{
    assert(cols > 0 && rows > 0) by (nonlinear_arith)
        requires
            0 <= k < cols * rows,
            cols >= 0,
            rows >= 0,
    ;
}

impl<T> PointMap<T> {
    /// The cells, row by row.
    pub closed spec fn cells(&self) -> Seq<Option<T>> {
        self.data@
    }

    /// Number of cell columns.
    pub closed spec fn cols(&self) -> int {
        self.cols as int
    }

    /// Number of cell rows.
    pub closed spec fn rows(&self) -> int {
        self.rows as int
    }

    /// Stride between cells.
    pub closed spec fn res(&self) -> int {
        self.resolution as int
    }

    pub open spec fn wf(&self) -> bool {
        &&& self.res() > 0
        &&& self.cols() >= 0
        &&& self.rows() >= 0
        &&& self.cells().len() == self.cols() * self.rows()
        &&& self.cols() * self.res() <= u32::MAX
        &&& self.rows() * self.res() <= u32::MAX
    }

    /// Both maps have the same cell layout.
    pub open spec fn same_shape<U>(&self, other: &PointMap<U>) -> bool {
        &&& self.cols() == other.cols()
        &&& self.rows() == other.rows()
        &&& self.res() == other.res()
    }

    pub open spec fn cell_x(&self, k: int) -> int {
        (k % self.cols()) * self.res()
    }

    pub open spec fn cell_y(&self, k: int) -> int {
        (k / self.cols()) * self.res()
    }

    /// The grid point that cell `k` stands for.
    pub open spec fn point_at(&self, k: int) -> Point {
        Point { x: self.cell_x(k) as u32, y: self.cell_y(k) as u32 }
    }

    pub open spec fn in_bounds(&self, p: Point) -> bool {
        &&& (p.x as int) / self.res() < self.cols()
        &&& (p.y as int) / self.res() < self.rows()
    }

    /// The cell that holds `p` after quantization.
    pub open spec fn index_of(&self, p: Point) -> int {
        cell_index(self.cols(), self.res(), p)
    }

    pub open spec fn occupied(&self, k: int) -> bool {
        self.cells()[k] is Some
    }

    /// Cell `k` is occupied and its grid point lies within `r` of `p`.
    pub open spec fn near(&self, p: Point, r: int, k: int) -> bool {
        &&& self.occupied(k)
        &&& dist_sq_spec(p.x as int, p.y as int, self.cell_x(k), self.cell_y(k)) <= r * r
    }

    /// Occupied cells within `r` of `p`, in row-major order.
    pub open spec fn neighbors(&self, p: Point, r: int) -> Seq<int> {
        filter_upto(|k: int| self.near(p, r, k), self.cells().len() as int)
    }

    /// Column range of the square of half-side `r` around `p`.
    pub open spec fn square_col_lo(&self, p: Point, r: int) -> int {
        (if p.x >= r { p.x - r } else { 0int }) / self.res()
    }

    pub open spec fn square_row_lo(&self, p: Point, r: int) -> int {
        (if p.y >= r { p.y - r } else { 0int }) / self.res()
    }

    /// Cell `k`, occupied or not, lies in the rows and columns of the square
    /// of half-side `r` around `p`.
    pub open spec fn in_square(&self, p: Point, r: int, k: int) -> bool {
        &&& self.square_col_lo(p, r) <= k % self.cols() <= (p.x as int + r) / self.res()
        &&& self.square_row_lo(p, r) <= k / self.cols() <= (p.y as int + r) / self.res()
    }

    /// Every cell of the square around `p`, in row-major order.
    pub open spec fn square(&self, p: Point, r: int) -> Seq<int> {
        filter_upto(|k: int| self.in_square(p, r, k), self.cells().len() as int)
    }

    /// Occupied cells, in row-major order.
    pub open spec fn occupied_cells(&self) -> Seq<int> {
        filter_upto(|k: int| self.occupied(k), self.cells().len() as int)
    }

    /// Empty cells, in row-major order.
    pub open spec fn empty_cells(&self) -> Seq<int> {
        filter_upto(|k: int| !self.occupied(k), self.cells().len() as int)
    }

    pub open spec fn points_of(&self, ks: Seq<int>) -> Seq<Point> {
        ks.map_values(|k: int| self.point_at(k))
    }

    /// An empty grid over `config`; the strip beyond the last whole multiple
    /// of the resolution on each axis is not covered.
    pub fn new(config: PointMapConfig) -> (r: PointMap<T>)
        requires
            config.resolution > 0,
            (config.x_size / config.resolution) * (config.y_size / config.resolution)
                <= usize::MAX,
        ensures
            r.wf(),
            r.cols() == config.x_size / config.resolution,
            r.rows() == config.y_size / config.resolution,
            r.res() == config.resolution,
            forall|k: int| 0 <= k < r.cells().len() ==> !r.occupied(k),
    {
        let cols = config.x_size / config.resolution;
        let rows = config.y_size / config.resolution;
        let n = cols as usize * rows as usize;
        proof {
            lemma_fundamental_div_mod(config.x_size as int, config.resolution as int);
            lemma_fundamental_div_mod(config.y_size as int, config.resolution as int);
            assert(cols * config.resolution <= config.x_size) by (nonlinear_arith)
                requires
                    config.x_size == config.resolution * cols + config.x_size % config.resolution,
                    config.x_size % config.resolution >= 0,
            ;
            assert(rows * config.resolution <= config.y_size) by (nonlinear_arith)
                requires
                    config.y_size == config.resolution * rows + config.y_size % config.resolution,
                    config.y_size % config.resolution >= 0,
            ;
        }
        let mut data: Vec<Option<T>> = Vec::new();
        while data.len() < n
            invariant
                data@.len() <= n,
                forall|k: int| 0 <= k < data@.len() ==> data@[k] is None,
            decreases n - data@.len(),
        {
            data.push(None);
        }
        PointMap { data, cols, rows, resolution: config.resolution }
    }

    pub fn in_bounds_exec(&self, p: Point) -> (r: bool)
        requires
            self.wf(),
        ensures
            r == self.in_bounds(p),
    {
        p.x / self.resolution < self.cols && p.y / self.resolution < self.rows
    }

    /// Index of the cell holding `p`.
    pub fn get_index(&self, p: Point) -> (r: usize)
        requires
            self.wf(),
            self.in_bounds(p),
        ensures
            r as int == self.index_of(p),
            r < self.cells().len(),
    {
        let n = self.data.len();
        let cx = p.x / self.resolution;
        let cy = p.y / self.resolution;
        proof {
            lemma_index_bound(cx as int, cy as int, self.cols(), self.rows());
        }
        cy as usize * self.cols as usize + cx as usize
    }

    /// Whether the cell holding `p` exists and is occupied.
    pub fn contains(&self, p: Point) -> (r: bool)
        requires
            self.wf(),
        ensures
            r == (self.in_bounds(p) && self.occupied(self.index_of(p))),
    {
        if !self.in_bounds_exec(p) {
            return false;
        }
        let k = self.get_index(p);
        self.data[k].is_some()
    }

    /// The content of the cell holding `p`.
    pub fn value_at(&self, p: Point) -> (r: Result<&Option<T>, GridError>)
        requires
            self.wf(),
        ensures
            r is Err <==> !self.in_bounds(p),
            r is Ok ==> *r->Ok_0 == self.cells()[self.index_of(p)],
            self.in_bounds(p) ==> 0 <= self.index_of(p) < self.cells().len(),
    {
        if !self.in_bounds_exec(p) {
            return Err(GridError::OutOfBounds);
        }
        let k = self.get_index(p);
        proof {
            lemma_index_bound(
                (p.x as int) / self.res(),
                (p.y as int) / self.res(),
                self.cols(),
                self.rows(),
            );
        }
        Ok(&self.data[k])
    }

    /// The content of cell `k`.
    pub fn cell(&self, k: usize) -> (r: &Option<T>)
        requires
            k < self.cells().len(),
        ensures
            *r == self.cells()[k as int],
    {
        &self.data[k]
    }

    /// The grid point of cell `k`.
    pub fn point_of_cell(&self, k: usize) -> (r: Point)
        requires
            self.wf(),
            k < self.cells().len(),
        ensures
            r == self.point_at(k as int),
            r.x as int == self.cell_x(k as int),
            r.y as int == self.cell_y(k as int),
            self.in_bounds(r),
            self.index_of(r) == k,
    {
        proof {
            lemma_row_of(k as int, self.cols(), self.rows());
        }
        let cx = (k % self.cols as usize) as u32;
        let cy = (k / self.cols as usize) as u32;
        proof {
            assert(cx * self.res() <= self.cols() * self.res()) by (nonlinear_arith)
                requires
                    cx < self.cols(),
                    self.res() > 0,
            ;
            assert(cy * self.res() <= self.rows() * self.res()) by (nonlinear_arith)
                requires
                    cy < self.rows(),
                    self.res() > 0,
            ;
            lemma_div_multiples_vanish(cx as int, self.res());
            lemma_div_multiples_vanish(cy as int, self.res());
            assert(self.res() * cx == cx * self.res()) by (nonlinear_arith);
            assert(self.res() * cy == cy * self.res()) by (nonlinear_arith);
            lemma_fundamental_div_mod(k as int, self.cols());
            assert(cy * self.cols() + cx == k) by (nonlinear_arith)
                requires
                    k == self.cols() * (k as int / self.cols()) + k as int % self.cols(),
                    cx == k as int % self.cols(),
                    cy == k as int / self.cols(),
            ;
        }
        Point { x: cx * self.resolution, y: cy * self.resolution }
    }

    /// An empty grid with the same cell layout as `self`.
    pub fn empty_like<U>(&self) -> (r: PointMap<U>)
        requires
            self.wf(),
        ensures
            r.wf(),
            r.same_shape(self),
            r.cells().len() == self.cells().len(),
            forall|k: int| 0 <= k < r.cells().len() ==> !r.occupied(k),
    {
        let n = self.data.len();
        let mut data: Vec<Option<U>> = Vec::new();
        while data.len() < n
            invariant
                n == self.cells().len(),
                data@.len() <= n,
                forall|k: int| 0 <= k < data@.len() ==> data@[k] is None,
            decreases n - data@.len(),
        {
            data.push(None);
        }
        PointMap { data, cols: self.cols, rows: self.rows, resolution: self.resolution }
    }

    /// Sets cell `k` to `value`.
    pub fn put(&mut self, k: usize, value: T)
        requires
            k < old(self).cells().len(),
        ensures
            final(self).cells() == old(self).cells().update(k as int, Some(value)),
            final(self).same_shape(old(self)),
            old(self).wf() ==> final(self).wf(),
    {
        self.data[k] = Some(value);
    }

    /// The grid point of cell `k` lies in the grid and quantizes back to `k`.
    pub proof fn lemma_point_at_index(&self, k: int)
        requires
            self.wf(),
            0 <= k < self.cells().len(),
        ensures
            self.in_bounds(self.point_at(k)),
            self.index_of(self.point_at(k)) == k,
            self.point_at(k).x as int == self.cell_x(k),
            self.point_at(k).y as int == self.cell_y(k),
    {
        lemma_positive_factors(k, self.cols(), self.rows());
        assert(self.rows() * self.cols() == self.cols() * self.rows()) by (nonlinear_arith);
        lemma_row_of(k, self.cols(), self.rows());
        let cx = k % self.cols();
        let cy = k / self.cols();
        assert(0 <= cx * self.res() <= self.cols() * self.res()) by (nonlinear_arith)
            requires
                0 <= cx < self.cols(),
                self.res() > 0,
        ;
        assert(0 <= cy * self.res() <= self.rows() * self.res()) by (nonlinear_arith)
            requires
                0 <= cy < self.rows(),
                self.res() > 0,
        ;
        lemma_div_multiples_vanish(cx, self.res());
        lemma_div_multiples_vanish(cy, self.res());
        assert(self.res() * cx == cx * self.res()) by (nonlinear_arith);
        assert(self.res() * cy == cy * self.res()) by (nonlinear_arith);
        lemma_fundamental_div_mod(k, self.cols());
        assert(cy * self.cols() + cx == k) by (nonlinear_arith)
            requires
                k == self.cols() * (k / self.cols()) + k % self.cols(),
                cx == k % self.cols(),
                cy == k / self.cols(),
        ;
    }

    /// Takes the content out of cell `k`, leaving it empty.
    pub fn take_cell(&mut self, k: usize) -> (r: Option<T>)
        requires
            k < old(self).cells().len(),
        ensures
            r == old(self).cells()[k as int],
            final(self).cells() == old(self).cells().update(k as int, None),
            final(self).same_shape(old(self)),
            old(self).wf() ==> final(self).wf(),
    {
        let mut tmp: Option<T> = None;
        std::mem::swap(&mut self.data[k], &mut tmp);
        tmp
    }

    /// Number of cells.
    pub fn cell_count(&self) -> (r: usize)
        ensures
            r == self.cells().len(),
    {
        self.data.len()
    }

    /// Puts `value` into the cell holding `p` unless that cell is occupied.
    pub fn insert_if_absent(&mut self, p: Point, value: T) -> (r: Result<(), GridError>)
        requires
            old(self).wf(),
        ensures
            final(self).wf(),
            final(self).same_shape(old(self)),
            r is Err <==> !old(self).in_bounds(p),
            r is Err ==> final(self).cells() == old(self).cells(),
            r is Ok ==> 0 <= old(self).index_of(p) < old(self).cells().len(),
            r is Ok ==> final(self).cells() == insert_cells(
                old(self).cells(),
                old(self).index_of(p),
                value,
            ),
    {
        if !self.in_bounds_exec(p) {
            return Err(GridError::OutOfBounds);
        }
        let k = self.get_index(p);
        proof {
            lemma_index_bound(
                (p.x as int) / self.res(),
                (p.y as int) / self.res(),
                self.cols(),
                self.rows(),
            );
        }
        if self.data[k].is_none() {
            self.data[k] = Some(value);
        }
        Ok(())
    }

    /// The column and row ranges, half-open, of the cells whose grid points
    /// can lie within `r` of `p`.
    fn ranges(&self, p: Point, r: u32) -> (res: (u32, u32, u32, u32))
        requires
            self.wf(),
        ensures
            res.0 <= res.1 <= self.cols(),
            res.2 <= res.3 <= self.rows(),
            forall|k: int|
                0 <= k < self.cells().len() && self.in_square(p, r as int, k) ==> {
                    &&& res.0 <= k % self.cols() < res.1
                    &&& res.2 <= k / self.cols() < res.3
                },
            forall|k: int|
                0 <= k < self.cells().len() && res.0 <= k % self.cols() < res.1 && res.2 <= k
                    / self.cols() < res.3 ==> self.in_square(p, r as int, k),
            forall|k: int|
                0 <= k < self.cells().len() && (p.x - self.cell_x(k)) * (p.x - self.cell_x(k))
                    <= r * r && (p.y - self.cell_y(k)) * (p.y - self.cell_y(k)) <= r * r ==> {
                    &&& res.0 <= k % self.cols() < res.1
                    &&& res.2 <= k / self.cols() < res.3
                },
    {
        let res = self.resolution as u64;
        let x1 = (p.x as u64 + r as u64) / res + 1;
        let x1: u32 = if x1 < self.cols as u64 { x1 as u32 } else { self.cols };
        let x0 = (p.x.saturating_sub(r) as u64 / res) as u32;
        let x0: u32 = if x0 < x1 { x0 } else { x1 };
        let y1 = (p.y as u64 + r as u64) / res + 1;
        let y1: u32 = if y1 < self.rows as u64 { y1 as u32 } else { self.rows };
        let y0 = (p.y.saturating_sub(r) as u64 / res) as u32;
        let y0: u32 = if y0 < y1 { y0 } else { y1 };
        proof {
            let lox = self.square_col_lo(p, r as int);
            let loy = self.square_row_lo(p, r as int);
            assert(x0 <= lox);
            assert(y0 <= loy);
            assert(x1 == (if (p.x as int + r) / self.res() + 1 < self.cols() {
                (p.x as int + r) / self.res() + 1
            } else {
                self.cols()
            }));
            assert(y1 == (if (p.y as int + r) / self.res() + 1 < self.rows() {
                (p.y as int + r) / self.res() + 1
            } else {
                self.rows()
            }));
            assert forall|k: int|
                0 <= k < self.cells().len() && self.in_square(p, r as int, k) implies {
                &&& x0 <= k % self.cols() < x1
                &&& y0 <= k / self.cols() < y1
            } by {
                lemma_positive_factors(k, self.cols(), self.rows());
                assert(self.rows() * self.cols() == self.cols() * self.rows()) by (nonlinear_arith);
                lemma_row_of(k, self.cols(), self.rows());
                assert(x0 <= k % self.cols() < x1);
                assert(y0 <= k / self.cols() < y1);
            }
            assert forall|k: int|
                0 <= k < self.cells().len() && (p.x - self.cell_x(k)) * (p.x - self.cell_x(k))
                    <= r * r && (p.y - self.cell_y(k)) * (p.y - self.cell_y(k)) <= r * r implies {
                &&& x0 <= k % self.cols() < x1
                &&& y0 <= k / self.cols() < y1
            } by {
                self.lemma_reach_in_square(p, r as int, k);
                lemma_positive_factors(k, self.cols(), self.rows());
                assert(self.rows() * self.cols() == self.cols() * self.rows()) by (nonlinear_arith);
                lemma_row_of(k, self.cols(), self.rows());
            }
        }
        (x0, x1, y0, y1)
    }

    /// A cell within `r` of `p` on each axis lies in the square of half-side `r`.
    proof fn lemma_reach_in_square(&self, p: Point, r: int, k: int)
        requires
            self.wf(),
            r >= 0,
            0 <= k < self.cells().len(),
            (p.x - self.cell_x(k)) * (p.x - self.cell_x(k)) <= r * r,
            (p.y - self.cell_y(k)) * (p.y - self.cell_y(k)) <= r * r,
        ensures
            self.in_square(p, r, k),
    {
        lemma_positive_factors(k, self.cols(), self.rows());
        lemma_row_of(k, self.cols(), self.rows());
        lemma_col_in_range(p.x as int, r, self.res(), k % self.cols());
        lemma_col_in_range(p.y as int, r, self.res(), k / self.cols());
    }

    /// Cell `k` near `p` lies in the square of the same half-side.
    proof fn lemma_near_in_square(&self, p: Point, r: int, k: int)
        requires
            self.wf(),
            r >= 0,
            0 <= k < self.cells().len(),
            self.near(p, r, k),
        ensures
            self.in_square(p, r, k),
    {
        lemma_positive_factors(k, self.cols(), self.rows());
        lemma_row_of(k, self.cols(), self.rows());
        let dx = p.x as int - self.cell_x(k);
        let dy = p.y as int - self.cell_y(k);
        assert(dx * dx <= r * r && dy * dy <= r * r) by (nonlinear_arith)
            requires
                dx * dx + dy * dy <= r * r,
        ;
        self.lemma_reach_in_square(p, r, k);
    }

    /// Indices of the occupied cells within `r` of `p`, in row-major order.
    pub fn neighbor_indices(&self, p: Point, r: u32) -> (res: Vec<usize>)
        requires
            self.wf(),
        ensures
            res@.len() == self.neighbors(p, r as int).len(),
            forall|j: int|
                0 <= j < res@.len() ==> res@[j] as int == self.neighbors(p, r as int)[j],
    {
        let ghost pred = |k: int| self.near(p, r as int, k);
        let ghost len = self.cells().len() as int;
        let ghost cols = self.cols();
        let (x0, x1, y0, y1) = self.ranges(p, r);
        let n = self.data.len();
        proof {
            assert forall|k: int| 0 <= k < len && #[trigger] pred(k) implies {
                &&& x0 <= k % cols < x1
                &&& y0 <= k / cols < y1
            } by {
                self.lemma_near_in_square(p, r as int, k);
            }
            assert(y0 * cols <= len && y1 * cols <= len) by (nonlinear_arith)
                requires
                    y0 <= y1 <= self.rows(),
                    len == cols * self.rows(),
                    cols >= 0,
            ;
            assert forall|k: int| 0 <= k < y0 * cols implies !#[trigger] pred(k) by {
                lemma_positive_factors(k, cols, self.rows());
                lemma_row_of(k, cols, y0 as int);
            }
            assert(y0 * cols <= len) by (nonlinear_arith)
                requires
                    y0 <= self.rows(),
                    len == cols * self.rows(),
                    cols >= 0,
            ;
            lemma_filter_skip(pred, 0, y0 * cols);
        }
        let mut res: Vec<usize> = Vec::new();
        let mut y: u32 = y0;
        while y < y1
            invariant
                self.wf(),
                pred == (|k: int| self.near(p, r as int, k)),
                len == self.cells().len(),
                len <= usize::MAX,
                cols == self.cols(),
                x0 <= x1 <= cols,
                y0 <= y <= y1 <= self.rows(),
                forall|k: int|
                    0 <= k < len && #[trigger] pred(k) ==> {
                        &&& x0 <= k % cols < x1
                        &&& y0 <= k / cols < y1
                    },
                res@.len() == filter_upto(pred, y * cols).len(),
                forall|j: int|
                    0 <= j < res@.len() ==> res@[j] as int == filter_upto(pred, y * cols)[j],
            decreases y1 - y,
        {
            proof {
                assert((y + 1) * cols <= len) by (nonlinear_arith)
                    requires
                        y < self.rows(),
                        len == cols * self.rows(),
                        cols >= 0,
                ;
                assert((y + 1) * cols == y * cols + cols) by (nonlinear_arith);
                assert forall|k: int| y * cols <= k < y * cols + x0 implies !#[trigger] pred(k) by {
                    lemma_fundamental_div_mod_converse(k, cols, y as int, k - y * cols);
                }
                lemma_filter_skip(pred, y * cols, y * cols + x0);
            }
            let mut x: u32 = x0;
            while x < x1
                invariant
                    self.wf(),
                    pred == (|k: int| self.near(p, r as int, k)),
                    len == self.cells().len(),
                    len <= usize::MAX,
                    cols == self.cols(),
                    x0 <= x <= x1 <= cols,
                    y < self.rows(),
                    y * cols + cols <= len,
                    res@.len() == filter_upto(pred, y * cols + x).len(),
                    forall|j: int|
                        0 <= j < res@.len() ==> res@[j] as int == filter_upto(
                            pred,
                            y * cols + x,
                        )[j],
                decreases x1 - x,
            {
                proof {
                    lemma_index_bound(x as int, y as int, cols, self.rows());
                }
                let k: usize = y as usize * self.cols as usize + x as usize;
                if self.data[k].is_some() {
                    let q = self.point_of_cell(k);
                    let d = p.dist_sq(&q);
                    assert(r as u128 * r as u128 <= 0xffff_ffff_u128 * 0xffff_ffff_u128)
                        by (nonlinear_arith)
                        requires
                            r <= 0xffff_ffff_u32,
                    ;
                    if d <= r as u128 * r as u128 {
                        res.push(k);
                    }
                }
                x = x + 1;
            }
            proof {
                assert forall|k: int| y * cols + x1 <= k < y * cols + cols implies !#[trigger] pred(k) by {
                    lemma_fundamental_div_mod_converse(k, cols, y as int, k - y * cols);
                }
                lemma_filter_skip(pred, y * cols + x1, y * cols + cols);
            }
            y = y + 1;
        }
        proof {
            assert forall|k: int| y1 * cols <= k < len implies !#[trigger] pred(k) by {
                lemma_positive_factors(k, cols, self.rows());
                lemma_row_of(k, cols, y1 as int);
            }
            lemma_filter_skip(pred, y1 * cols, len);
        }
        res
    }

    /// Indices of every cell, occupied or empty, in the square of half-side `r`
    /// around `p`, in row-major order.
    pub fn square_indices(&self, p: Point, r: u32) -> (res: Vec<usize>)
        requires
            self.wf(),
        ensures
            res@.len() == self.square(p, r as int).len(),
            forall|j: int|
                0 <= j < res@.len() ==> res@[j] as int == self.square(p, r as int)[j],
    {
        let ghost pred = |k: int| self.in_square(p, r as int, k);
        let ghost len = self.cells().len() as int;
        let ghost cols = self.cols();
        let (x0, x1, y0, y1) = self.ranges(p, r);
        let n = self.data.len();
        proof {
            assert forall|k: int| 0 <= k < len && #[trigger] pred(k) implies {
                &&& x0 <= k % cols < x1
                &&& y0 <= k / cols < y1
            } by {
            }
            assert(y0 * cols <= len && y1 * cols <= len) by (nonlinear_arith)
                requires
                    y0 <= y1 <= self.rows(),
                    len == cols * self.rows(),
                    cols >= 0,
            ;
            assert forall|k: int| 0 <= k < y0 * cols implies !#[trigger] pred(k) by {
                lemma_positive_factors(k, cols, self.rows());
                lemma_row_of(k, cols, y0 as int);
            }
            assert(y0 * cols <= len) by (nonlinear_arith)
                requires
                    y0 <= self.rows(),
                    len == cols * self.rows(),
                    cols >= 0,
            ;
            lemma_filter_skip(pred, 0, y0 * cols);
        }
        let mut res: Vec<usize> = Vec::new();
        let mut y: u32 = y0;
        while y < y1
            invariant
                self.wf(),
                pred == (|k: int| self.in_square(p, r as int, k)),
                len == self.cells().len(),
                len <= usize::MAX,
                forall|k: int|
                    0 <= k < len && x0 <= k % cols < x1 && y0 <= k / cols < y1 ==> #[trigger] pred(
                        k,
                    ),
                cols == self.cols(),
                x0 <= x1 <= cols,
                y0 <= y <= y1 <= self.rows(),
                forall|k: int|
                    0 <= k < len && #[trigger] pred(k) ==> {
                        &&& x0 <= k % cols < x1
                        &&& y0 <= k / cols < y1
                    },
                res@.len() == filter_upto(pred, y * cols).len(),
                forall|j: int|
                    0 <= j < res@.len() ==> res@[j] as int == filter_upto(pred, y * cols)[j],
            decreases y1 - y,
        {
            proof {
                assert((y + 1) * cols <= len) by (nonlinear_arith)
                    requires
                        y0 <= y < y1 <= self.rows(),
                        len == cols * self.rows(),
                        cols >= 0,
                ;
                assert((y + 1) * cols == y * cols + cols) by (nonlinear_arith);
                assert forall|k: int| y * cols <= k < y * cols + x0 implies !#[trigger] pred(k) by {
                    lemma_fundamental_div_mod_converse(k, cols, y as int, k - y * cols);
                }
                lemma_filter_skip(pred, y * cols, y * cols + x0);
            }
            let mut x: u32 = x0;
            while x < x1
                invariant
                    self.wf(),
                    pred == (|k: int| self.in_square(p, r as int, k)),
                    len == self.cells().len(),
                    len <= usize::MAX,
                    forall|k: int|
                        0 <= k < len && x0 <= k % cols < x1 && y0 <= k / cols < y1
                            ==> #[trigger] pred(k),
                    cols == self.cols(),
                    x0 <= x <= x1 <= cols,
                    y0 <= y < y1 <= self.rows(),
                    y * cols + cols <= len,
                    res@.len() == filter_upto(pred, y * cols + x).len(),
                    forall|j: int|
                        0 <= j < res@.len() ==> res@[j] as int == filter_upto(
                            pred,
                            y * cols + x,
                        )[j],
                decreases x1 - x,
            {
                proof {
                    lemma_index_bound(x as int, y as int, cols, self.rows());
                }
                let k: usize = y as usize * self.cols as usize + x as usize;
                proof {
                    assert(k as int == y * cols + x);
                    assert((k as int) % cols == x && (k as int) / cols == y);
                    assert(pred(k as int));
                }
                res.push(k);
                x = x + 1;
            }
            proof {
                assert forall|k: int| y * cols + x1 <= k < y * cols + cols implies !#[trigger] pred(k) by {
                    lemma_fundamental_div_mod_converse(k, cols, y as int, k - y * cols);
                }
                lemma_filter_skip(pred, y * cols + x1, y * cols + cols);
            }
            y = y + 1;
        }
        proof {
            assert forall|k: int| y1 * cols <= k < len implies !#[trigger] pred(k) by {
                lemma_positive_factors(k, cols, self.rows());
                lemma_row_of(k, cols, y1 as int);
            }
            lemma_filter_skip(pred, y1 * cols, len);
        }
        res
    }

    /// Grid points of the occupied cells within `r` of `p`, in row-major order.
    pub fn within_radius(&self, p: Point, r: u32) -> (res: Vec<Point>)
        requires
            self.wf(),
        ensures
            res@ == self.points_of(self.neighbors(p, r as int)),
    {
        let ks = self.neighbor_indices(p, r);
        proof {
            lemma_filter_sorted(|k: int| self.near(p, r as int, k), self.cells().len() as int);
        }
        let res = self.points_of_indices(&ks);
        assert(res@ =~= self.points_of(self.neighbors(p, r as int)));
        res
    }

    /// Grid points of every cell, occupied or empty, in the square of
    /// half-side `r` around `p`, in row-major order: the rows and columns from
    /// `(p - r) / stride` to `(p + r) / stride` that lie in the grid.
    pub fn within_square(&self, p: Point, r: u32) -> (res: Vec<Point>)
        requires
            self.wf(),
        ensures
            res@ == self.points_of(self.square(p, r as int)),
    {
        let ks = self.square_indices(p, r);
        proof {
            lemma_filter_sorted(|k: int| self.in_square(p, r as int, k), self.cells().len() as int);
        }
        let res = self.points_of_indices(&ks);
        assert(res@ =~= self.points_of(self.square(p, r as int)));
        res
    }

    /// Indices of the cells that are occupied (or, with `want` false, empty),
    /// in row-major order.
    fn scan_cells(&self, want: bool) -> (res: Vec<usize>)
        requires
            self.wf(),
        ensures
            res@.len() == filter_upto(|k: int| self.occupied(k) == want, self.cells().len() as int).len(),
            forall|j: int|
                0 <= j < res@.len() ==> res@[j] as int == filter_upto(
                    |k: int| self.occupied(k) == want,
                    self.cells().len() as int,
                )[j],
    {
        let ghost pred = |k: int| self.occupied(k) == want;
        let mut res: Vec<usize> = Vec::new();
        let mut k: usize = 0;
        while k < self.data.len()
            invariant
                pred == (|k: int| self.occupied(k) == want),
                k <= self.cells().len(),
                res@.len() == filter_upto(pred, k as int).len(),
                forall|j: int| 0 <= j < res@.len() ==> res@[j] as int == filter_upto(pred, k as int)[j],
            decreases self.cells().len() - k,
        {
            if self.data[k].is_some() == want {
                res.push(k);
            }
            k = k + 1;
        }
        res
    }

    /// Indices of the occupied cells, in row-major order.
    pub fn occupied_indices(&self) -> (res: Vec<usize>)
        requires
            self.wf(),
        ensures
            res@.len() == self.occupied_cells().len(),
            forall|j: int| 0 <= j < res@.len() ==> res@[j] as int == self.occupied_cells()[j],
    {
        let res = self.scan_cells(true);
        assert(filter_upto(|k: int| self.occupied(k) == true, self.cells().len() as int)
            == self.occupied_cells()) by {
            assert((|k: int| self.occupied(k) == true) =~= (|k: int| self.occupied(k)));
        }
        res
    }

    /// Grid points of every occupied cell, in row-major order.
    pub fn occupied_points(&self) -> (res: Vec<Point>)
        requires
            self.wf(),
        ensures
            res@ == self.points_of(self.occupied_cells()),
    {
        let ks = self.occupied_indices();
        proof {
            lemma_filter_sorted(|k: int| self.occupied(k), self.cells().len() as int);
        }
        let res = self.points_of_indices(&ks);
        assert(res@ =~= self.points_of(self.occupied_cells()));
        res
    }

    /// Grid points of every empty cell, in row-major order.
    pub fn missing_points(&self) -> (res: Vec<Point>)
        requires
            self.wf(),
        ensures
            res@ == self.points_of(self.empty_cells()),
    {
        let ks = self.scan_cells(false);
        assert(filter_upto(|k: int| self.occupied(k) == false, self.cells().len() as int)
            == self.empty_cells()) by {
            assert((|k: int| self.occupied(k) == false) =~= (|k: int| !self.occupied(k)));
        }
        proof {
            lemma_filter_sorted(|k: int| !self.occupied(k), self.cells().len() as int);
        }
        let res = self.points_of_indices(&ks);
        assert(res@ =~= self.points_of(self.empty_cells()));
        res
    }

    fn points_of_indices(&self, ks: &Vec<usize>) -> (res: Vec<Point>)
        requires
            self.wf(),
            forall|j: int| 0 <= j < ks@.len() ==> ks@[j] < self.cells().len(),
        ensures
            res@.len() == ks@.len(),
            forall|j: int| 0 <= j < ks@.len() ==> res@[j] == self.point_at(ks@[j] as int),
    {
        let mut res: Vec<Point> = Vec::new();
        let mut j: usize = 0;
        while j < ks.len()
            invariant
                self.wf(),
                forall|i: int| 0 <= i < ks@.len() ==> ks@[i] < self.cells().len(),
                j <= ks@.len(),
                res@.len() == j,
                forall|i: int| 0 <= i < j ==> res@[i] == self.point_at(ks@[i] as int),
            decreases ks@.len() - j,
        {
            res.push(self.point_of_cell(ks[j]));
            j = j + 1;
        }
        res
    }
}

/// The neighbor query returns exactly the occupied cells whose grid points
/// lie within `r` of `p`, whatever the stride.
pub proof fn lemma_neighbors_exact<T>(m: &PointMap<T>, p: Point, r: int, k: int)
    requires
        m.wf(),
    ensures
        m.neighbors(p, r).contains(k) <==> (0 <= k < m.cells().len() && m.occupied(k)
            && m.point_at(k).dist_sq_to(p) <= r * r),
{
    lemma_filter_members(|k: int| m.near(p, r, k), m.cells().len() as int, k);
    if 0 <= k < m.cells().len() {
        lemma_positive_factors(k, m.cols(), m.rows());
        lemma_row_of(k, m.cols(), m.rows());
        assert(m.rows() * m.cols() == m.cols() * m.rows()) by (nonlinear_arith);
        assert(m.cell_x(k) <= m.cols() * m.res()) by (nonlinear_arith)
            requires
                0 <= k % m.cols() < m.cols(),
                m.res() > 0,
                m.cell_x(k) == (k % m.cols()) * m.res(),
        ;
        assert(m.cell_y(k) <= m.rows() * m.res()) by (nonlinear_arith)
            requires
                0 <= k / m.cols() < m.rows(),
                m.res() > 0,
                m.cell_y(k) == (k / m.cols()) * m.res(),
        ;
        assert(0 <= m.cell_x(k) && 0 <= m.cell_y(k)) by (nonlinear_arith)
            requires
                0 <= k % m.cols(),
                0 <= k / m.cols(),
                m.res() > 0,
                m.cell_x(k) == (k % m.cols()) * m.res(),
                m.cell_y(k) == (k / m.cols()) * m.res(),
        ;
        assert(dist_sq_spec(p.x as int, p.y as int, m.cell_x(k), m.cell_y(k))
            == dist_sq_spec(m.cell_x(k), m.cell_y(k), p.x as int, p.y as int)) by (nonlinear_arith);
    }
}

} // verus!
