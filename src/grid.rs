//! The mathematical model of a three-dimensional boolean grid, and the
//! arithmetic facts about its row-major layout.

use vstd::arithmetic::div_mod::*;
use vstd::prelude::*;

verus! {

/// A `w` by `h` by `d` box of cells, stored with `x` outermost and `z` innermost.
pub struct Grid {
    pub w: int,
    pub h: int,
    pub d: int,
    pub cells: Seq<bool>,
}

/// Position of cell `(x, y, z)` in the row-major layout of a box of height `h`
/// and depth `d`.
pub open spec fn flat_index(h: int, d: int, x: int, y: int, z: int) -> int {
    (x * h + y) * d + z
}

/// The grid of the given extents whose cell `(x, y, z)` is `f(x, y, z)`.
pub open spec fn tabulate(w: int, h: int, d: int, f: spec_fn(int, int, int) -> bool) -> Grid {
    Grid {
        w,
        h,
        d,
        cells: Seq::new((w * h * d) as nat, |i: int| f(i / (h * d), (i / d) % h, i % d)),
    }
}

/// The grid of the given extents with every cell clear.
pub open spec fn empty_grid(w: int, h: int, d: int) -> Grid {
    tabulate(w, h, d, |x: int, y: int, z: int| false)
}

/// Extents that a grid may have: positive, with a cell count that fits in `isize`.
pub open spec fn extents_ok(w: int, h: int, d: int) -> bool {
    1 <= w && 1 <= h && 1 <= d && w * h * d <= isize::MAX
}

impl Grid {
    pub open spec fn size(self) -> int {
        self.w * self.h * self.d
    }

    pub open spec fn wf(self) -> bool {
        &&& extents_ok(self.w, self.h, self.d)
        &&& self.cells.len() == self.size()
    }

    pub open spec fn inside(self, x: int, y: int, z: int) -> bool {
        0 <= x < self.w && 0 <= y < self.h && 0 <= z < self.d
    }

    pub open spec fn at(self, x: int, y: int, z: int) -> bool {
        self.cells[flat_index(self.h, self.d, x, y, z)]
    }

    /// The cell is inside the box and set.
    pub open spec fn filled(self, x: int, y: int, z: int) -> bool {
        self.inside(x, y, z) && self.at(x, y, z)
    }
}

/// The position of an in-box cell lies in the layout, and so do the partial sums
/// that compute it.
pub proof fn lemma_index_bounds(w: int, h: int, d: int, x: int, y: int, z: int)
    requires
        1 <= w,
        1 <= h,
        1 <= d,
        0 <= x < w,
        0 <= y < h,
        0 <= z < d,
    ensures
        0 <= x * h,
        0 <= x * h + y < w * h,
        w * h <= w * h * d,
        0 <= (x * h + y) * d,
        (x * h + y) * d + z < w * h * d,
        0 <= flat_index(h, d, x, y, z) < w * h * d,
{
    assert(0 <= x * h) by (nonlinear_arith)
        requires
            0 <= x,
            1 <= h,
    ;
    assert(x * h <= (w - 1) * h) by (nonlinear_arith)
        requires
            x <= w - 1,
            1 <= h,
    ;
    assert((w - 1) * h == w * h - h) by (nonlinear_arith);
    let r = x * h + y;
    assert(0 <= r * d) by (nonlinear_arith)
        requires
            0 <= r,
            1 <= d,
    ;
    assert(r * d <= (w * h - 1) * d) by (nonlinear_arith)
        requires
            r <= w * h - 1,
            1 <= d,
    ;
    assert((w * h - 1) * d == w * h * d - d) by (nonlinear_arith);
    assert(w * h <= w * h * d) by (nonlinear_arith)
        requires
            1 <= w * h,
            1 <= d,
    ;
}

/// Reading the coordinates back from the position of an in-box cell.
pub proof fn lemma_index_coords(h: int, d: int, x: int, y: int, z: int)
    requires
        1 <= h,
        1 <= d,
        0 <= x,
        0 <= y < h,
        0 <= z < d,
    ensures
        flat_index(h, d, x, y, z) / (h * d) == x,
        (flat_index(h, d, x, y, z) / d) % h == y,
        flat_index(h, d, x, y, z) % d == z,
{
    let i = flat_index(h, d, x, y, z);
    let r = x * h + y;
    assert(0 <= x * h) by (nonlinear_arith)
        requires
            0 <= x,
            1 <= h,
    ;
    lemma_fundamental_div_mod_converse(i, d, r, z);
    lemma_fundamental_div_mod_converse(r, h, x, y);
    lemma_div_denominator(i, d, h);
    assert(d * h == h * d) by (nonlinear_arith);
}

/// Every position of the layout is the position of an in-box cell.
pub proof fn lemma_coords_index(w: int, h: int, d: int, i: int)
    requires
        1 <= w,
        1 <= h,
        1 <= d,
        0 <= i < w * h * d,
    ensures
        0 <= i / (h * d) < w,
        0 <= (i / d) % h < h,
        0 <= i % d < d,
        flat_index(h, d, i / (h * d), (i / d) % h, i % d) == i,
{
    let q = i / d;
    lemma_fundamental_div_mod(i, d);
    lemma_mod_pos_bound(i, d);
    lemma_div_pos_is_pos(i, d);
    lemma_fundamental_div_mod(q, h);
    lemma_mod_pos_bound(q, h);
    lemma_div_pos_is_pos(q, h);
    lemma_div_denominator(i, d, h);
    assert(d * h == h * d) by (nonlinear_arith);
    assert(i < d * (w * h)) by (nonlinear_arith)
        requires
            i < w * h * d,
    ;
    lemma_multiply_divide_lt(i, d, w * h);
    assert(q < h * w) by (nonlinear_arith)
        requires
            q < w * h,
    ;
    lemma_multiply_divide_lt(q, h, w);
    assert(h * (q / h) == (q / h) * h) by (nonlinear_arith);
    assert(d * q == q * d) by (nonlinear_arith);
}

/// A tabulated grid holds the tabulated values.
pub proof fn lemma_tabulate_at(
    w: int,
    h: int,
    d: int,
    f: spec_fn(int, int, int) -> bool,
    x: int,
    y: int,
    z: int,
)
    requires
        1 <= w,
        1 <= h,
        1 <= d,
        0 <= x < w,
        0 <= y < h,
        0 <= z < d,
    ensures
        tabulate(w, h, d, f).at(x, y, z) == f(x, y, z),
        tabulate(w, h, d, f).cells.len() == w * h * d,
{
    lemma_index_bounds(w, h, d, x, y, z);
    lemma_index_coords(h, d, x, y, z);
}

/// Two well-formed grids of equal extents that agree on every cell are equal.
pub proof fn lemma_grid_ext(a: Grid, b: Grid)
    requires
        a.wf(),
        b.wf(),
        a.w == b.w,
        a.h == b.h,
        a.d == b.d,
        forall|x: int, y: int, z: int| a.inside(x, y, z) ==> #[trigger] a.at(x, y, z) == b.at(x, y, z),
    ensures
        a == b,
{
    assert forall|i: int| 0 <= i < a.cells.len() implies a.cells[i] == b.cells[i] by {
        lemma_coords_index(a.w, a.h, a.d, i);
        let x = i / (a.h * a.d);
        let y = (i / a.d) % a.h;
        let z = i % a.d;
        assert(a.at(x, y, z) == b.at(x, y, z));
    }
    assert(a.cells =~= b.cells);
}

} // verus!
