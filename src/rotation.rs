//! Rotations of a grid by quarter turns, modelled as signed permutations of
//! the three axes.

use crate::grid::{lemma_grid_ext, lemma_tabulate_at, tabulate, Grid};
use vstd::prelude::*;

verus! {

/// The `i`-th of three integers.
pub open spec fn pick(a: int, b: int, c: int, i: int) -> int {
    if i == 0 {
        a
    } else if i == 1 {
        b
    } else {
        c
    }
}

/// The `i`-th of three booleans.
pub open spec fn pick_bool(a: bool, b: bool, c: bool, i: int) -> bool {
    if i == 0 {
        a
    } else if i == 1 {
        b
    } else {
        c
    }
}

/// Coordinate `c` along an axis of extent `n`, read from the far end when `flip` holds.
pub open spec fn flip_coord(flip: bool, n: int, c: int) -> int {
    if flip {
        n - 1 - c
    } else {
        c
    }
}

/// A map of the grid onto itself that sends source axis `k` to result axis `tk`,
/// reversed when `sk` holds.
pub struct Rot {
    pub t0: int,
    pub t1: int,
    pub t2: int,
    pub s0: bool,
    pub s1: bool,
    pub s2: bool,
}

impl Rot {
    /// The axis images form a permutation of the three axes.
    pub open spec fn valid(self) -> bool {
        &&& 0 <= self.t0 < 3
        &&& 0 <= self.t1 < 3
        &&& 0 <= self.t2 < 3
        &&& self.t0 != self.t1
        &&& self.t0 != self.t2
        &&& self.t1 != self.t2
    }

    /// Extent of the result along axis `i`, for a source of extents `w`, `h`, `d`.
    pub open spec fn extent(self, w: int, h: int, d: int, i: int) -> int {
        if self.t0 == i {
            w
        } else if self.t1 == i {
            h
        } else {
            d
        }
    }

    /// The source cell that lands on result cell `(x, y, z)`.
    pub open spec fn src_x(self, w: int, x: int, y: int, z: int) -> int {
        flip_coord(self.s0, w, pick(x, y, z, self.t0))
    }

    pub open spec fn src_y(self, h: int, x: int, y: int, z: int) -> int {
        flip_coord(self.s1, h, pick(x, y, z, self.t1))
    }

    pub open spec fn src_z(self, d: int, x: int, y: int, z: int) -> int {
        flip_coord(self.s2, d, pick(x, y, z, self.t2))
    }

    /// The grid moved by this map.
    pub open spec fn apply(self, g: Grid) -> Grid {
        tabulate(
            self.extent(g.w, g.h, g.d, 0),
            self.extent(g.w, g.h, g.d, 1),
            self.extent(g.w, g.h, g.d, 2),
            |x: int, y: int, z: int|
                g.at(self.src_x(g.w, x, y, z), self.src_y(g.h, x, y, z), self.src_z(g.d, x, y, z)),
        )
    }

    /// The map that applies `first` and then this one.
    pub open spec fn after(self, first: Rot) -> Rot {
        Rot {
            t0: pick(self.t0, self.t1, self.t2, first.t0),
            t1: pick(self.t0, self.t1, self.t2, first.t1),
            t2: pick(self.t0, self.t1, self.t2, first.t2),
            s0: first.s0 != pick_bool(self.s0, self.s1, self.s2, first.t0),
            s1: first.s1 != pick_bool(self.s0, self.s1, self.s2, first.t1),
            s2: first.s2 != pick_bool(self.s0, self.s1, self.s2, first.t2),
        }
    }
}

/// The map that changes nothing.
pub open spec fn rot_id() -> Rot {
    Rot { t0: 0, t1: 1, t2: 2, s0: false, s1: false, s2: false }
}

/// A quarter turn about the x axis: `(x, y, z)` goes to `(x, d - 1 - z, y)`.
pub open spec fn rot_x() -> Rot {
    Rot { t0: 0, t1: 2, t2: 1, s0: false, s1: false, s2: true }
}

/// A quarter turn about the y axis: `(x, y, z)` goes to `(z, y, w - 1 - x)`.
pub open spec fn rot_y() -> Rot {
    Rot { t0: 2, t1: 1, t2: 0, s0: true, s1: false, s2: false }
}

/// A quarter turn about the z axis: `(x, y, z)` goes to `(h - 1 - y, x, z)`.
pub open spec fn rot_z() -> Rot {
    Rot { t0: 1, t1: 0, t2: 2, s0: false, s1: true, s2: false }
}

/// Permuting the extents keeps the cell count.
pub proof fn lemma_extent_product(r: Rot, w: int, h: int, d: int)
    requires
        r.valid(),
    ensures
        r.extent(w, h, d, 0) * r.extent(w, h, d, 1) * r.extent(w, h, d, 2) == w * h * d,
{
    assert(w * d * h == w * h * d) by (nonlinear_arith);
    assert(h * w * d == w * h * d) by (nonlinear_arith);
    assert(h * d * w == w * h * d) by (nonlinear_arith);
    assert(d * w * h == w * h * d) by (nonlinear_arith);
    assert(d * h * w == w * h * d) by (nonlinear_arith);
}

/// A moved grid is well formed, and each of its cells is the source cell that
/// the map sends there.
pub proof fn lemma_apply_at(r: Rot, g: Grid, x: int, y: int, z: int)
    requires
        r.valid(),
        g.wf(),
        r.apply(g).inside(x, y, z),
    ensures
        r.apply(g).wf(),
        g.inside(r.src_x(g.w, x, y, z), r.src_y(g.h, x, y, z), r.src_z(g.d, x, y, z)),
        r.apply(g).at(x, y, z) == g.at(
            r.src_x(g.w, x, y, z),
            r.src_y(g.h, x, y, z),
            r.src_z(g.d, x, y, z),
        ),
{
    lemma_apply_wf(r, g);
    let a = r.apply(g);
    lemma_tabulate_at(
        a.w,
        a.h,
        a.d,
        |x: int, y: int, z: int|
            g.at(r.src_x(g.w, x, y, z), r.src_y(g.h, x, y, z), r.src_z(g.d, x, y, z)),
        x,
        y,
        z,
    );
}

/// A moved grid is well formed.
pub proof fn lemma_apply_wf(r: Rot, g: Grid)
    requires
        r.valid(),
        g.wf(),
    ensures
        r.apply(g).wf(),
        r.apply(g).size() == g.size(),
{
    lemma_extent_product(r, g.w, g.h, g.d);
}

/// Moving by `first` and then by `second` is moving by their composite.
pub proof fn lemma_apply_after(second: Rot, first: Rot, g: Grid)
    requires
        second.valid(),
        first.valid(),
        g.wf(),
    ensures
        second.after(first).valid(),
        second.apply(first.apply(g)) == second.after(first).apply(g),
{
    let both = second.after(first);
    let g1 = first.apply(g);
    lemma_apply_wf(first, g);
    lemma_apply_wf(second, g1);
    lemma_apply_wf(both, g);
    let l = second.apply(g1);
    let r = both.apply(g);
    assert forall|x: int, y: int, z: int| l.inside(x, y, z) implies #[trigger] l.at(x, y, z) == r.at(
        x,
        y,
        z,
    ) by {
        lemma_apply_at(second, g1, x, y, z);
        let x1 = second.src_x(g1.w, x, y, z);
        let y1 = second.src_y(g1.h, x, y, z);
        let z1 = second.src_z(g1.d, x, y, z);
        lemma_apply_at(first, g, x1, y1, z1);
        lemma_apply_at(both, g, x, y, z);
    }
    lemma_grid_ext(l, r);
}

/// The identity map leaves a grid as it is.
pub proof fn lemma_apply_id(g: Grid)
    requires
        g.wf(),
    ensures
        rot_id().apply(g) == g,
{
    let a = rot_id().apply(g);
    lemma_apply_wf(rot_id(), g);
    assert forall|x: int, y: int, z: int| a.inside(x, y, z) implies #[trigger] a.at(x, y, z) == g.at(
        x,
        y,
        z,
    ) by {
        lemma_apply_at(rot_id(), g, x, y, z);
    }
    lemma_grid_ext(a, g);
}

/// Where the three quarter turns send the cells and extents of a grid.
pub proof fn lemma_quarter_turn_cells(g: Grid, x: int, y: int, z: int)
    requires
        g.wf(),
        g.inside(x, y, z),
    ensures
        rot_x().apply(g).w == g.w && rot_x().apply(g).h == g.d && rot_x().apply(g).d == g.h,
        rot_x().apply(g).inside(x, g.d - 1 - z, y),
        rot_x().apply(g).at(x, g.d - 1 - z, y) == g.at(x, y, z),
        rot_y().apply(g).w == g.d && rot_y().apply(g).h == g.h && rot_y().apply(g).d == g.w,
        rot_y().apply(g).inside(z, y, g.w - 1 - x),
        rot_y().apply(g).at(z, y, g.w - 1 - x) == g.at(x, y, z),
        rot_z().apply(g).w == g.h && rot_z().apply(g).h == g.w && rot_z().apply(g).d == g.d,
        rot_z().apply(g).inside(g.h - 1 - y, x, z),
        rot_z().apply(g).at(g.h - 1 - y, x, z) == g.at(x, y, z),
{
    lemma_apply_at(rot_x(), g, x, g.d - 1 - z, y);
    lemma_apply_at(rot_y(), g, z, y, g.w - 1 - x);
    lemma_apply_at(rot_z(), g, g.h - 1 - y, x, z);
}

} // verus!
