//! Growing a grid by one cell: the cells that may be added, and the grids
//! that adding each of them gives.

use crate::canonical::canonical;
use crate::grid::{
    extents_ok, flat_index, lemma_grid_ext, lemma_index_bounds, lemma_tabulate_at, tabulate, Grid,
};
use crate::shape::Bitfield3D;
use crate::store::ShapeSet;
use vstd::prelude::*;

verus! {

/// How far the grid shifts along an axis so that coordinate `c` is not negative.
pub open spec fn grow_offset(c: int) -> int {
    if c < 0 {
        -c
    } else {
        0
    }
}

/// Extent along an axis of extent `n` once it is grown to hold coordinate `c`.
pub open spec fn grow_extent(n: int, c: int) -> int {
    if c >= n {
        c + 1
    } else {
        n + grow_offset(c)
    }
}

/// `g` grown so that `(x, y, z)` lies inside it, with its cells shifted by the
/// offsets that the negative coordinates call for.
pub open spec fn grown(g: Grid, x: int, y: int, z: int) -> Grid {
    tabulate(
        grow_extent(g.w, x),
        grow_extent(g.h, y),
        grow_extent(g.d, z),
        |a: int, b: int, c: int| g.filled(a - grow_offset(x), b - grow_offset(y), c - grow_offset(z)),
    )
}

/// Each cell of a grown grid is the shifted source cell, clear where that lies
/// outside the source.
pub proof fn lemma_grown_at(g: Grid, x: int, y: int, z: int, a: int, b: int, c: int)
    requires
        g.wf(),
        extents_ok(grow_extent(g.w, x), grow_extent(g.h, y), grow_extent(g.d, z)),
        grown(g, x, y, z).inside(a, b, c),
    ensures
        grown(g, x, y, z).wf(),
        grown(g, x, y, z).at(a, b, c) == g.filled(
            a - grow_offset(x),
            b - grow_offset(y),
            c - grow_offset(z),
        ),
{
    lemma_tabulate_at(
        grow_extent(g.w, x),
        grow_extent(g.h, y),
        grow_extent(g.d, z),
        |a: int, b: int, c: int| g.filled(a - grow_offset(x), b - grow_offset(y), c - grow_offset(z)),
        a,
        b,
        c,
    );
}

/// Room to grow by one cell along any one axis.
pub open spec fn growable(g: Grid) -> bool {
    &&& extents_ok(g.w + 1, g.h, g.d)
    &&& extents_ok(g.w, g.h + 1, g.d)
    &&& extents_ok(g.w, g.h, g.d + 1)
}

/// Each extent of a growable grid can take one more cell.
pub proof fn lemma_growable_bounds(g: Grid)
    requires
        g.wf(),
        growable(g),
    ensures
        g.w + 1 <= isize::MAX,
        g.h + 1 <= isize::MAX,
        g.d + 1 <= isize::MAX,
{
    let (w, h, d) = (g.w, g.h, g.d);
    assert(w + 1 <= (w + 1) * h * d && h + 1 <= w * (h + 1) * d && d + 1 <= w * h * (d + 1))
        by (nonlinear_arith)
        requires
            1 <= w,
            1 <= h,
            1 <= d,
    ;
}

/// One of the six face neighbours of `(x, y, z)` is a set cell of `g`.
pub open spec fn has_filled_neighbor(g: Grid, x: int, y: int, z: int) -> bool {
    ||| g.filled(x - 1, y, z)
    ||| g.filled(x + 1, y, z)
    ||| g.filled(x, y - 1, z)
    ||| g.filled(x, y + 1, z)
    ||| g.filled(x, y, z - 1)
    ||| g.filled(x, y, z + 1)
}

/// `(x, y, z)` is not a set cell of `g` but touches one by a face: a cell that
/// may be added. It lies inside `g` or one step outside a face.
pub open spec fn is_touching(g: Grid, x: int, y: int, z: int) -> bool {
    !g.filled(x, y, z) && has_filled_neighbor(g, x, y, z)
}

/// `(x, y, z)` comes before `(a, b, c)` in lexicographic order.
pub open spec fn coord_lt(x: int, y: int, z: int, a: int, b: int, c: int) -> bool {
    x < a || (x == a && y < b) || (x == a && y == b && z < c)
}

/// A coordinate triple as integers.
pub open spec fn triple(p: (isize, isize, isize)) -> (int, int, int) {
    (p.0 as int, p.1 as int, p.2 as int)
}

/// `g` with cell `(x, y, z)` set.
pub open spec fn with_cell(g: Grid, x: int, y: int, z: int) -> Grid {
    Grid { cells: g.cells.update(flat_index(g.h, g.d, x, y, z), true), ..g }
}

/// The grid that adding cell `(x, y, z)` to `g` gives, grown where the cell lies
/// outside; the added cell sits at `(x, y, z)` shifted by the growth.
pub open spec fn child(g: Grid, x: int, y: int, z: int) -> Grid {
    with_cell(
        grown(g, x, y, z),
        x + grow_offset(x),
        y + grow_offset(y),
        z + grow_offset(z),
    )
}

/// The canonical forms of every grid that adding one touching cell to `g` gives.
pub open spec fn children(g: Grid) -> Set<Grid> {
    Set::new(
        |t: Grid|
            exists|x: int, y: int, z: int| #[trigger]
                is_touching(g, x, y, z) && t == canonical(child(g, x, y, z)),
    )
}

/// A touching cell lies one step outside at most one face, and growing to hold
/// it stays within the machine's limits.
pub proof fn lemma_touching_bounds(g: Grid, x: int, y: int, z: int)
    requires
        g.wf(),
        growable(g),
        is_touching(g, x, y, z),
    ensures
        -1 <= x <= g.w,
        -1 <= y <= g.h,
        -1 <= z <= g.d,
        extents_ok(grow_extent(g.w, x), grow_extent(g.h, y), grow_extent(g.d, z)),
        grown(g, x, y, z).inside(x + grow_offset(x), y + grow_offset(y), z + grow_offset(z)),
{
}

/// The grid that adding a touching cell gives is well formed, and at most one
/// of its extents is one larger than in `g`.
pub proof fn lemma_child_wf(g: Grid, x: int, y: int, z: int)
    requires
        g.wf(),
        growable(g),
        is_touching(g, x, y, z),
    ensures
        child(g, x, y, z).wf(),
        child(g, x, y, z).w + child(g, x, y, z).h + child(g, x, y, z).d <= g.w + g.h + g.d + 1,
{
    lemma_touching_bounds(g, x, y, z);
    let (a, b, c) = (x + grow_offset(x), y + grow_offset(y), z + grow_offset(z));
    lemma_grown_at(g, x, y, z, a, b, c);
    let gr = grown(g, x, y, z);
    lemma_index_bounds(gr.w, gr.h, gr.d, a, b, c);
}

/// Growing to hold a cell that is already inside changes nothing.
pub proof fn lemma_grown_inside(g: Grid, x: int, y: int, z: int)
    requires
        g.wf(),
        g.inside(x, y, z),
    ensures
        grown(g, x, y, z) == g,
{
    let r = grown(g, x, y, z);
    assert forall|a: int, b: int, c: int| r.inside(a, b, c) implies #[trigger] r.at(a, b, c) == g.at(
        a,
        b,
        c,
    ) by {
        lemma_grown_at(g, x, y, z, a, b, c);
    }
    lemma_tabulate_at(g.w, g.h, g.d, |a: int, b: int, c: int| g.filled(a, b, c), 0, 0, 0);
    lemma_grid_ext(r, g);
}

impl Bitfield3D {
    /// Whether `(x, y, z)` is inside the box and set.
    pub fn is_filled(&self, x: isize, y: isize, z: isize) -> (r: bool)
        requires
            self.wf(),
        ensures
            r == self@.filled(x as int, y as int, z as int),
    {
        self.is_inside(x, y, z) && self.get_unchecked(x, y, z)
    }

    /// Whether one of the six face neighbours of `(x, y, z)` is a set cell.
    pub fn has_set_neighbor(&self, x: isize, y: isize, z: isize) -> (r: bool)
        requires
            self.wf(),
        ensures
            r == has_filled_neighbor(self@, x as int, y as int, z as int),
    {
        // a neighbour beyond the range of isize lies outside the box
        let left = x > isize::MIN && self.is_filled(x - 1, y, z);
        let right = x < isize::MAX && self.is_filled(x + 1, y, z);
        let below = y > isize::MIN && self.is_filled(x, y - 1, z);
        let above = y < isize::MAX && self.is_filled(x, y + 1, z);
        let front = z > isize::MIN && self.is_filled(x, y, z - 1);
        let back = z < isize::MAX && self.is_filled(x, y, z + 1);
        left || right || below || above || front || back
    }

    /// The cells that may be added: every cell that is not set and touches a
    /// set cell by a face, in increasing order.
    pub fn touching_unset_bits(&self) -> (r: Vec<(isize, isize, isize)>)
        requires
            self.wf(),
            growable(self@),
        ensures
            forall|i: int|
                0 <= i < r.len() ==> {
                    let p = triple(#[trigger] r@[i]);
                    is_touching(self@, p.0, p.1, p.2)
                },
            forall|x: int, y: int, z: int| #[trigger]
                is_touching(self@, x, y, z) ==> r@.contains(
                    (x as isize, y as isize, z as isize),
                ),
            forall|i: int, j: int|
                0 <= i < j < r.len() ==> {
                    let p = triple(#[trigger] r@[i]);
                    let q = triple(#[trigger] r@[j]);
                    coord_lt(p.0, p.1, p.2, q.0, q.1, q.2)
                },
    {
        let ghost g = self@;
        proof {
            lemma_growable_bounds(self@);
        }
        let mut r: Vec<(isize, isize, isize)> = Vec::new();
        let mut x: isize = -1;
        while x <= self.width
            invariant
                self.wf(),
                growable(self@),
                g == self@,
                self.width + 1 <= isize::MAX,
                self.height + 1 <= isize::MAX,
                self.depth + 1 <= isize::MAX,
                -1 <= x <= self.width + 1,
                forall|i: int|
                    0 <= i < r.len() ==> {
                        let p = triple(#[trigger] r@[i]);
                        is_touching(g, p.0, p.1, p.2) && p.0 < x
                    },
                forall|a: int, b: int, c: int| #[trigger]
                    is_touching(g, a, b, c) && a < x ==> r@.contains(
                        (a as isize, b as isize, c as isize),
                    ),
                forall|i: int, j: int|
                    0 <= i < j < r.len() ==> {
                        let p = triple(#[trigger] r@[i]);
                        let q = triple(#[trigger] r@[j]);
                        coord_lt(p.0, p.1, p.2, q.0, q.1, q.2)
                    },
            decreases self.width + 1 - x,
        {
            let mut y: isize = -1;
            while y <= self.height
                invariant
                    self.wf(),
                    growable(self@),
                    g == self@,
                    self.width + 1 <= isize::MAX,
                    self.height + 1 <= isize::MAX,
                    self.depth + 1 <= isize::MAX,
                    -1 <= x <= self.width,
                    -1 <= y <= self.height + 1,
                    forall|i: int|
                        0 <= i < r.len() ==> {
                            let p = triple(#[trigger] r@[i]);
                            is_touching(g, p.0, p.1, p.2) && (p.0 < x || (p.0 == x && p.1 < y))
                        },
                    forall|a: int, b: int, c: int| #[trigger]
                        is_touching(g, a, b, c) && (a < x || (a == x && b < y)) ==> r@.contains(
                            (a as isize, b as isize, c as isize),
                        ),
                    forall|i: int, j: int|
                        0 <= i < j < r.len() ==> {
                            let p = triple(#[trigger] r@[i]);
                            let q = triple(#[trigger] r@[j]);
                            coord_lt(p.0, p.1, p.2, q.0, q.1, q.2)
                        },
                decreases self.height + 1 - y,
            {
                let mut z: isize = -1;
                while z <= self.depth
                    invariant
                        self.wf(),
                        growable(self@),
                        g == self@,
                        self.width + 1 <= isize::MAX,
                        self.height + 1 <= isize::MAX,
                        self.depth + 1 <= isize::MAX,
                        -1 <= x <= self.width,
                        -1 <= y <= self.height,
                        -1 <= z <= self.depth + 1,
                        forall|i: int|
                            0 <= i < r.len() ==> {
                                let p = triple(#[trigger] r@[i]);
                                is_touching(g, p.0, p.1, p.2) && coord_lt(p.0, p.1, p.2, x as int, y as int, z as int)
                            },
                        forall|a: int, b: int, c: int| #[trigger]
                            is_touching(g, a, b, c) && coord_lt(a, b, c, x as int, y as int, z as int)
                                ==> r@.contains((a as isize, b as isize, c as isize)),
                        forall|i: int, j: int|
                            0 <= i < j < r.len() ==> {
                                let p = triple(#[trigger] r@[i]);
                                let q = triple(#[trigger] r@[j]);
                                coord_lt(p.0, p.1, p.2, q.0, q.1, q.2)
                            },
                    decreases self.depth + 1 - z,
                {
                    let unset = !self.is_inside(x, y, z) || !self.get_unchecked(x, y, z);
                    if unset && self.has_set_neighbor(x, y, z) {
                        let ghost old_r = r@;
                        r.push((x, y, z));
                        proof {
                            assert(r@[old_r.len() as int] == (x, y, z));
                            assert forall|a: int, b: int, c: int| #[trigger]
                                is_touching(g, a, b, c) && coord_lt(a, b, c, x as int, y as int, z + 1)
                                    implies r@.contains((a as isize, b as isize, c as isize)) by {
                                if coord_lt(a, b, c, x as int, y as int, z as int) {
                                    let k = choose|k: int| 0 <= k < old_r.len() && old_r[k] == (a as isize, b as isize, c as isize);
                                    assert(r@[k] == old_r[k]);
                                } else {
                                    assert(r@[old_r.len() as int] == (a as isize, b as isize, c as isize));
                                }
                            }
                        }
                    } else {
                        proof {
                            assert forall|a: int, b: int, c: int| #[trigger]
                                is_touching(g, a, b, c) && coord_lt(a, b, c, x as int, y as int, z + 1)
                                    implies r@.contains((a as isize, b as isize, c as isize)) by {
                                if !coord_lt(a, b, c, x as int, y as int, z as int) {
                                    assert(a == x && b == y && c == z);
                                }
                            }
                        }
                    }
                    z = z + 1;
                }
                proof {
                    assert forall|a: int, b: int, c: int| #[trigger]
                        is_touching(g, a, b, c) && (a < x || (a == x && b < y + 1)) implies r@.contains(
                            (a as isize, b as isize, c as isize),
                        ) by {
                        lemma_touching_bounds(g, a, b, c);
                        assert(coord_lt(a, b, c, x as int, y as int, z as int));
                    }
                }
                y = y + 1;
            }
            proof {
                assert forall|a: int, b: int, c: int| #[trigger]
                    is_touching(g, a, b, c) && a < x + 1 implies r@.contains(
                        (a as isize, b as isize, c as isize),
                    ) by {
                    lemma_touching_bounds(g, a, b, c);
                }
            }
            x = x + 1;
        }
        proof {
            assert forall|a: int, b: int, c: int| #[trigger] is_touching(g, a, b, c) implies r@.contains(
                (a as isize, b as isize, c as isize),
            ) by {
                lemma_touching_bounds(g, a, b, c);
            }
        }
        r
    }

    /// This grid grown, on the faces where it is needed, so that `(x, y, z)`
    /// lies inside; the set cells move with the growth on the negative faces.
    pub fn grow_to_fit(&self, x: isize, y: isize, z: isize) -> (r: Bitfield3D)
        requires
            self.wf(),
            extents_ok(
                grow_extent(self@.w, x as int),
                grow_extent(self@.h, y as int),
                grow_extent(self@.d, z as int),
            ),
        ensures
            r.wf(),
            r@ == grown(self@, x as int, y as int, z as int),
    {
        let ghost target = grown(self@, x as int, y as int, z as int);
        let ghost (gw, gh, gd) = (
            grow_extent(self@.w, x as int),
            grow_extent(self@.h, y as int),
            grow_extent(self@.d, z as int),
        );
        proof {
            assert(gw <= gw * gh * gd && gh <= gw * gh * gd && gd <= gw * gh * gd) by (nonlinear_arith)
                requires
                    1 <= gw,
                    1 <= gh,
                    1 <= gd,
            ;
        }
        let offset_x: isize = if x < 0 {
            -x
        } else {
            0
        };
        let offset_y: isize = if y < 0 {
            -y
        } else {
            0
        };
        let offset_z: isize = if z < 0 {
            -z
        } else {
            0
        };
        let new_width = if x >= self.width {
            x + 1
        } else {
            self.width + offset_x
        };
        let new_height = if y >= self.height {
            y + 1
        } else {
            self.height + offset_y
        };
        let new_depth = if z >= self.depth {
            z + 1
        } else {
            self.depth + offset_z
        };
        let mut r = Bitfield3D::new(new_width, new_height, new_depth);
        let n = r.data.len();
        let mut i: usize = 0;
        let mut a: isize = 0;
        let mut b: isize = 0;
        let mut c: isize = 0;
        assert(flat_index(new_height as int, new_depth as int, 0, 0, 0) == 0) by (nonlinear_arith);
        while i < n
            invariant
                self.wf(),
                target == grown(self@, x as int, y as int, z as int),
                extents_ok(gw, gh, gd),
                gw == new_width && gh == new_height && gd == new_depth,
                offset_x == grow_offset(x as int),
                offset_y == grow_offset(y as int),
                offset_z == grow_offset(z as int),
                target.size() == n,
                target.w == new_width,
                target.h == new_height,
                target.d == new_depth,
                r.width == new_width,
                r.height == new_height,
                r.depth == new_depth,
                r.data.len() == n,
                0 <= a,
                0 <= b < new_height,
                0 <= c < new_depth,
                i <= n,
                i < n ==> a < new_width,
                i == flat_index(new_height as int, new_depth as int, a as int, b as int, c as int),
                forall|j: int| 0 <= j < i ==> r.data@[j] == target.cells[j],
            decreases n - i,
        {
            let ghost (ga, gb, gc) = (a as int, b as int, c as int);
            proof {
                lemma_grown_at(self@, x as int, y as int, z as int, ga, gb, gc);
                lemma_index_bounds(gw, gh, gd, ga, gb, gc);
            }
            let sx = a - offset_x;
            let sy = b - offset_y;
            let sz = c - offset_z;
            let v = self.is_inside(sx, sy, sz) && self.get_unchecked(sx, sy, sz);
            r.data.set(i, v);
            proof {
                assert(target.cells[i as int] == target.at(ga, gb, gc));
                assert((ga * gh + gb + 1) * gd == (ga * gh + gb) * gd + gd) by (nonlinear_arith);
                assert((ga * gh + gh) * gd == ((ga + 1) * gh + 0) * gd) by (nonlinear_arith);
            }
            i = i + 1;
            c = c + 1;
            if c == new_depth {
                c = 0;
                b = b + 1;
                if b == new_height {
                    b = 0;
                    a = a + 1;
                }
            }
            proof {
                if i < n {
                    if a >= new_width {
                        let (na, nb, nc) = (a as int, b as int, c as int);
                        assert(flat_index(gh, gd, na, nb, nc) >= gw * gh * gd) by (nonlinear_arith)
                            requires
                                na >= gw,
                                nb >= 0,
                                nc >= 0,
                                gh >= 1,
                                gd >= 1,
                                flat_index(gh, gd, na, nb, nc) == (na * gh + nb) * gd + nc,
                        ;
                    }
                }
            }
        }
        assert(r.data@ =~= target.cells);
        r
    }

    /// Adds to `new_polycubes` the canonical form of every grid that adding
    /// one touching cell to this grid gives.
    pub fn generate(&self, new_polycubes: &mut ShapeSet)
        requires
            self.wf(),
            growable(self@),
            old(new_polycubes).wf(),
        ensures
            final(new_polycubes).wf(),
            final(new_polycubes)@ == old(new_polycubes)@.union(children(self@)),
    {
        let ghost g = self@;
        let ghost start = new_polycubes@;
        let cands = self.touching_unset_bits();
        let mut i: usize = 0;
        while i < cands.len()
            invariant
                self.wf(),
                growable(g),
                g == self@,
                new_polycubes.wf(),
                i <= cands.len(),
                forall|k: int|
                    0 <= k < cands.len() ==> {
                        let p = triple(#[trigger] cands@[k]);
                        is_touching(g, p.0, p.1, p.2)
                    },
                new_polycubes@ == start.union(added(g, cands@, i as int)),
            decreases cands.len() - i,
        {
            let (mut x, mut y, mut z) = cands[i];
            let ghost p = triple(cands@[i as int]);
            proof {
                assert(is_touching(g, p.0, p.1, p.2));
                lemma_touching_bounds(g, p.0, p.1, p.2);
            }
            let mut next = if !self.is_inside(x, y, z) {
                let result = self.grow_to_fit(x, y, z);
                if x < 0 {
                    x = 0;
                }
                if y < 0 {
                    y = 0;
                }
                if z < 0 {
                    z = 0;
                }
                result
            } else {
                proof {
                    lemma_grown_inside(g, p.0, p.1, p.2);
                }
                self.duplicate()
            };
            next.set_unchecked(x, y, z, true);
            proof {
                assert(next@.cells =~= child(g, p.0, p.1, p.2).cells);
            }
            let canonical = next.create_canonical();
            new_polycubes.insert(canonical);
            proof {
                assert(added(g, cands@, i + 1) =~= added(g, cands@, i as int).insert(
                    crate::canonical::canonical(child(g, p.0, p.1, p.2)),
                ));
                assert(new_polycubes@ =~= start.union(added(g, cands@, i + 1)));
            }
            i = i + 1;
        }
        proof {
            assert forall|t: Grid| added(g, cands@, cands.len() as int).contains(t) <==> children(
                g,
            ).contains(t) by {
                if added(g, cands@, cands.len() as int).contains(t) {
                    let k = choose|k: int|
                        0 <= k < cands.len() && t == canonical(
                            child(g, triple(cands@[k]).0, triple(cands@[k]).1, triple(cands@[k]).2),
                        );
                    let q = triple(cands@[k]);
                    assert(is_touching(g, q.0, q.1, q.2));
                }
                if children(g).contains(t) {
                    let (a, b, c) = choose|a: int, b: int, c: int|
                        #[trigger] is_touching(g, a, b, c) && t == canonical(child(g, a, b, c));
                    assert(is_touching(g, a, b, c));
                    assert(cands@.contains((a as isize, b as isize, c as isize)));
                    let k = choose|k: int|
                        0 <= k < cands.len() && cands@[k] == (a as isize, b as isize, c as isize);
                    lemma_touching_bounds(g, a, b, c);
                    assert(triple(cands@[k]) == (a, b, c));
                }
            }
            assert(added(g, cands@, cands.len() as int) =~= children(g));
        }
    }
}

/// The canonical forms of the grids that adding the first `n` listed cells,
/// one at a time, to `g` gives.
pub open spec fn added(g: Grid, cands: Seq<(isize, isize, isize)>, n: int) -> Set<Grid> {
    Set::new(
        |t: Grid|
            exists|k: int|
                0 <= k < n && t == canonical(
                    child(g, triple(cands[k]).0, triple(cands[k]).1, triple(cands[k]).2),
                ),
    )
}

} // verus!
