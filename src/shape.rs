//! The executable grid of cells.

use crate::grid::{empty_grid, extents_ok, flat_index, lemma_index_bounds, Grid};
use crate::order::{differs_first_at, grid_lt};
use crate::rotation::{lemma_apply_at, lemma_apply_wf, rot_x, rot_y, rot_z, Rot};
use core::cmp::Ordering;
use vstd::prelude::*;

verus! {

/// A box of `width * height * depth` cells; cell `(x, y, z)` is stored at
/// `(x * height + y) * depth + z`.
#[derive(Clone, Debug, PartialEq, Eq, Hash)]
pub struct Bitfield3D {
    pub data: Vec<bool>,
    pub width: isize,
    pub height: isize,
    pub depth: isize,
}

impl View for Bitfield3D {
    type V = Grid;

    open spec fn view(&self) -> Grid {
        Grid { w: self.width as int, h: self.height as int, d: self.depth as int, cells: self.data@ }
    }
}

impl Bitfield3D {
    pub open spec fn wf(&self) -> bool {
        self@.wf()
    }

    /// A box of the given extents with every cell clear.
    pub fn new(width: isize, height: isize, depth: isize) -> (r: Self)
        requires
            extents_ok(width as int, height as int, depth as int),
        ensures
            r.wf(),
            r@ == empty_grid(width as int, height as int, depth as int),
    {
        assert(1 <= width * height) by (nonlinear_arith)
            requires
                1 <= width,
                1 <= height,
        ;
        assert(width * height <= width * height * depth) by (nonlinear_arith)
            requires
                1 <= width * height,
                1 <= depth,
        ;
        let n = (width * height * depth) as usize;
        let data = vec![false; n];
        let r = Bitfield3D { data, width, height, depth };
        proof {
            let e = empty_grid(width as int, height as int, depth as int);
            assert(r@.cells =~= e.cells);
        }
        r
    }

    /// A copy of this grid.
    pub fn duplicate(&self) -> (r: Self)
        ensures
            r@ == self@,
    {
        Bitfield3D { data: self.data.clone(), width: self.width, height: self.height, depth: self.depth }
    }

    /// Compares two grids by extents, then cells.
    pub fn compare(&self, other: &Bitfield3D) -> (r: Ordering)
        requires
            self.wf(),
            other.wf(),
        ensures
            r == Ordering::Less <==> grid_lt(self@, other@),
            r == Ordering::Greater <==> grid_lt(other@, self@),
            r == Ordering::Equal <==> self@ == other@,
    {
        proof {
            crate::order::lemma_lt_asymmetric(self@, other@);
        }
        if self.width != other.width {
            return if self.width < other.width {
                Ordering::Less
            } else {
                Ordering::Greater
            };
        }
        if self.height != other.height {
            return if self.height < other.height {
                Ordering::Less
            } else {
                Ordering::Greater
            };
        }
        if self.depth != other.depth {
            return if self.depth < other.depth {
                Ordering::Less
            } else {
                Ordering::Greater
            };
        }
        let n = self.data.len();
        let mut i: usize = 0;
        while i < n
            invariant
                n == self.data.len(),
                n == other.data.len(),
                self.width == other.width,
                self.height == other.height,
                self.depth == other.depth,
                i <= n,
                forall|j: int| 0 <= j < i ==> self.data@[j] == other.data@[j],
            decreases n - i,
        {
            if self.data[i] != other.data[i] {
                if other.data[i] {
                    assert(differs_first_at(self@.cells, other@.cells, i as int));
                    return Ordering::Less;
                } else {
                    assert(differs_first_at(other@.cells, self@.cells, i as int));
                    return Ordering::Greater;
                }
            }
            i = i + 1;
        }
        assert(self.data@ =~= other.data@);
        Ordering::Equal
    }

    /// Whether `(x, y, z)` lies inside the box.
    pub fn is_inside(&self, x: isize, y: isize, z: isize) -> (r: bool)
        ensures
            r == self@.inside(x as int, y as int, z as int),
    {
        x >= 0 && x < self.width && y >= 0 && y < self.height && z >= 0 && z < self.depth
    }

    /// Position of an in-box cell in `data`.
    pub fn index_unchecked(&self, x: isize, y: isize, z: isize) -> (r: usize)
        requires
            self.wf(),
            self@.inside(x as int, y as int, z as int),
        ensures
            r as int == flat_index(self@.h, self@.d, x as int, y as int, z as int),
            r < self.data.len(),
    {
        proof {
            lemma_index_bounds(self@.w, self@.h, self@.d, x as int, y as int, z as int);
        }
        ((x * self.height + y) * self.depth + z) as usize
    }

    /// The value of an in-box cell.
    pub fn get_unchecked(&self, x: isize, y: isize, z: isize) -> (r: bool)
        requires
            self.wf(),
            self@.inside(x as int, y as int, z as int),
        ensures
            r == self@.at(x as int, y as int, z as int),
    {
        let i = self.index_unchecked(x, y, z);
        self.data[i]
    }

    /// Sets an in-box cell to `value`, leaving every other cell as it was.
    pub fn set_unchecked(&mut self, x: isize, y: isize, z: isize, value: bool)
        requires
            old(self).wf(),
            old(self)@.inside(x as int, y as int, z as int),
        ensures
            final(self).wf(),
            final(self)@.w == old(self)@.w,
            final(self)@.h == old(self)@.h,
            final(self)@.d == old(self)@.d,
            final(self)@.cells == old(self)@.cells.update(
                flat_index(old(self)@.h, old(self)@.d, x as int, y as int, z as int),
                value,
            ),
    {
        let i = self.index_unchecked(x, y, z);
        self.data.set(i, value);
    }

    /// Writes into `buffer` this grid moved by the axis map that sends source
    /// axis `k` to result axis `tk`, reversed when `sk` holds.
    fn rotate_by(
        &self,
        buffer: &mut Bitfield3D,
        t0: usize,
        t1: usize,
        t2: usize,
        s0: bool,
        s1: bool,
        s2: bool,
    )
        requires
            self.wf(),
            old(buffer).data.len() == self.data.len(),
            (Rot { t0: t0 as int, t1: t1 as int, t2: t2 as int, s0, s1, s2 }).valid(),
        ensures
            final(buffer).wf(),
            final(buffer).data.len() == self.data.len(),
            final(buffer)@ == (Rot { t0: t0 as int, t1: t1 as int, t2: t2 as int, s0, s1, s2 }).apply(
                self@,
            ),
    {
        let ghost r = Rot { t0: t0 as int, t1: t1 as int, t2: t2 as int, s0, s1, s2 };
        let ghost target = r.apply(self@);
        proof {
            lemma_apply_wf(r, self@);
        }
        let ew = if t0 == 0 {
            self.width
        } else if t1 == 0 {
            self.height
        } else {
            self.depth
        };
        let eh = if t0 == 1 {
            self.width
        } else if t1 == 1 {
            self.height
        } else {
            self.depth
        };
        let ed = if t0 == 2 {
            self.width
        } else if t1 == 2 {
            self.height
        } else {
            self.depth
        };
        buffer.width = ew;
        buffer.height = eh;
        buffer.depth = ed;
        let n = self.data.len();
        let mut i: usize = 0;
        let mut a: isize = 0;
        let mut b: isize = 0;
        let mut c: isize = 0;
        assert(flat_index(eh as int, ed as int, 0, 0, 0) == 0) by (nonlinear_arith);
        while i < n
            invariant
                self.wf(),
                r.valid(),
                target == r.apply(self@),
                target.wf(),
                target.size() == n,
                buffer.width == ew,
                buffer.height == eh,
                buffer.depth == ed,
                target.w == ew,
                target.h == eh,
                target.d == ed,
                buffer.data.len() == n,
                n == self.data.len(),
                r.t0 == t0 && r.t1 == t1 && r.t2 == t2 && r.s0 == s0 && r.s1 == s1 && r.s2 == s2,
                0 <= a,
                0 <= b < eh,
                0 <= c < ed,
                i <= n,
                i < n ==> a < ew,
                i == flat_index(eh as int, ed as int, a as int, b as int, c as int),
                forall|j: int| 0 <= j < i ==> buffer.data@[j] == target.cells[j],
            decreases n - i,
        {
            let ghost (ga, gb, gc) = (a as int, b as int, c as int);
            proof {
                lemma_apply_at(r, self@, ga, gb, gc);
            }
            let px = if t0 == 0 {
                a
            } else if t0 == 1 {
                b
            } else {
                c
            };
            let py = if t1 == 0 {
                a
            } else if t1 == 1 {
                b
            } else {
                c
            };
            let pz = if t2 == 0 {
                a
            } else if t2 == 1 {
                b
            } else {
                c
            };
            let sx = if s0 {
                self.width - 1 - px
            } else {
                px
            };
            let sy = if s1 {
                self.height - 1 - py
            } else {
                py
            };
            let sz = if s2 {
                self.depth - 1 - pz
            } else {
                pz
            };
            let v = self.get_unchecked(sx, sy, sz);
            buffer.data.set(i, v);
            proof {
                assert(target.cells[i as int] == target.at(ga, gb, gc));
                assert(gc + 1 <= ed);
                assert((ga * eh + gb + 1) * ed == (ga * eh + gb) * ed + ed) by (nonlinear_arith);
                assert((ga * eh + eh) * ed == ((ga + 1) * eh + 0) * ed) by (nonlinear_arith);
            }
            i = i + 1;
            c = c + 1;
            if c == ed {
                c = 0;
                b = b + 1;
                if b == eh {
                    b = 0;
                    a = a + 1;
                }
            }
            proof {
                if i < n {
                    if a >= ew {
                        let (na, nb, nc) = (a as int, b as int, c as int);
                        assert(flat_index(eh as int, ed as int, na, nb, nc) >= ew * eh * ed)
                            by (nonlinear_arith)
                            requires
                                na >= ew,
                                nb >= 0,
                                nc >= 0,
                                eh >= 1,
                                ed >= 1,
                                flat_index(eh as int, ed as int, na, nb, nc) == (na * eh + nb) * ed
                                    + nc,
                        ;
                    }
                }
            }
        }
        assert(buffer.data@ =~= target.cells);
    }

    /// Writes into `buffer` this grid turned a quarter about the x axis.
    pub fn rotate_x(&self, buffer: &mut Bitfield3D)
        requires
            self.wf(),
            old(buffer).data.len() == self.data.len(),
        ensures
            final(buffer).wf(),
            final(buffer).data.len() == self.data.len(),
            final(buffer)@ == rot_x().apply(self@),
    {
        self.rotate_by(buffer, 0, 2, 1, false, false, true);
    }

    /// Writes into `buffer` this grid turned a quarter about the y axis.
    pub fn rotate_y(&self, buffer: &mut Bitfield3D)
        requires
            self.wf(),
            old(buffer).data.len() == self.data.len(),
        ensures
            final(buffer).wf(),
            final(buffer).data.len() == self.data.len(),
            final(buffer)@ == rot_y().apply(self@),
    {
        self.rotate_by(buffer, 2, 1, 0, true, false, false);
    }

    /// Writes into `buffer` this grid turned a quarter about the z axis.
    pub fn rotate_z(&self, buffer: &mut Bitfield3D)
        requires
            self.wf(),
            old(buffer).data.len() == self.data.len(),
        ensures
            final(buffer).wf(),
            final(buffer).data.len() == self.data.len(),
            final(buffer)@ == rot_z().apply(self@),
    {
        self.rotate_by(buffer, 1, 0, 2, false, true, false);
    }
}

} // verus!
