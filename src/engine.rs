//! The generation engine: from the polycubes of one size to those of the next.

use crate::canonical::{
    canonical, lemma_canonical_idempotent, lemma_canonical_is, lemma_canonical_least,
    lemma_turn_facts, turn, turned, turns,
};
use crate::cells::{
    cells_of, face_connected, is_walk, lemma_canonical_cells, lemma_child_connected,
    lemma_child_popcount, popcount,
};
use crate::extend::{child, children, growable, is_touching, lemma_child_wf, with_cell};
use crate::grid::{empty_grid, lemma_grid_ext, Grid};
use crate::order::grid_le;
use crate::rotation::{lemma_apply_at, lemma_apply_wf};
use crate::shape::Bitfield3D;
use crate::store::ShapeSet;
use vstd::prelude::*;

verus! {

/// The largest polycube size that the engine enumerates; it keeps every
/// extent, and so every cell count, far inside the machine's limits.
pub const MAX_SIZE: usize = 1000;

/// The single unit cube.
pub open spec fn unit_cube() -> Grid {
    with_cell(empty_grid(1, 1, 1), 0, 0, 0)
}

/// The canonical forms of all grids that adding one touching cell to a member
/// of `s` gives.
pub open spec fn next_gen(s: Set<Grid>) -> Set<Grid> {
    Set::new(|t: Grid| exists|g: Grid| #[trigger] s.contains(g) && children(g).contains(t))
}

/// The polycubes of `n` cells in canonical form, as the engine builds them.
pub open spec fn generation(n: nat) -> Set<Grid>
    decreases n,
{
    if n <= 1 {
        set![unit_cube()]
    } else {
        next_gen(generation((n - 1) as nat))
    }
}

/// Every member of `s` is well formed with extents summing to at most `n + 2`.
pub open spec fn bounded_by(s: Set<Grid>, n: int) -> bool {
    forall|g: Grid| #[trigger] s.contains(g) ==> g.wf() && g.w + g.h + g.d <= n + 2
}

/// A grid whose extents sum to little can grow along any axis.
proof fn lemma_small_growable(g: Grid)
    requires
        g.wf(),
        g.w + g.h + g.d <= MAX_SIZE + 2,
    ensures
        growable(g),
{
    let (w, h, d) = (g.w, g.h, g.d);
    let b: int = MAX_SIZE + 3;
    assert(b == 1003);
    assert(1003int * 1003int * 1003int <= 0x7fff_ffff);
    assert((w + 1) * h * d <= b * b * b && w * (h + 1) * d <= b * b * b && w * h * (d + 1) <= b * b * b)
        by (nonlinear_arith)
        requires
            1 <= w,
            1 <= h,
            1 <= d,
            w + 1 <= b,
            h + 1 <= b,
            d + 1 <= b,
    ;
}

/// The canonical form of a grid is well formed and has the same extents, in
/// some order.
proof fn lemma_canonical_extents(x: Grid)
    requires
        x.wf(),
    ensures
        canonical(x).wf(),
        canonical(x).w + canonical(x).h + canonical(x).d == x.w + x.h + x.d,
{
    lemma_canonical_least(x);
    let i = choose|i: int| 0 <= i < 24 && canonical(x) == turned(x, i);
    lemma_turn_facts(i);
    lemma_apply_wf(turn(i), x);
}

/// Each child of a grid is well formed, with extents summing to at most one more.
proof fn lemma_children_bounded(g: Grid)
    requires
        g.wf(),
        growable(g),
    ensures
        bounded_by(children(g), g.w + g.h + g.d - 1),
{
    assert forall|t: Grid| #[trigger] children(g).contains(t) implies t.wf() && t.w + t.h + t.d
        <= g.w + g.h + g.d + 1 by {
        let (a, b, c) = choose|a: int, b: int, c: int|
            #[trigger] is_touching(g, a, b, c) && t == canonical(child(g, a, b, c));
        lemma_child_wf(g, a, b, c);
        lemma_canonical_extents(child(g, a, b, c));
    }
}

/// Each generation is made of well-formed grids whose extents sum to at most
/// two more than their size.
pub proof fn lemma_generation_bounded(n: nat)
    requires
        1 <= n <= MAX_SIZE + 1,
    ensures
        bounded_by(generation(n), n as int),
    decreases n,
{
    if n == 1 {
        assert(unit_cube().cells =~= seq![true]);
    } else {
        lemma_generation_bounded((n - 1) as nat);
        let prev = generation((n - 1) as nat);
        assert forall|t: Grid| #[trigger] generation(n).contains(t) implies t.wf() && t.w + t.h + t.d
            <= n + 2 by {
            let g = choose|g: Grid| #[trigger] prev.contains(g) && children(g).contains(t);
            lemma_generation_growable_member(prev, (n - 1) as nat, g);
            lemma_children_bounded(g);
        }
    }
}

/// A member of a bounded set of a size the engine reaches can grow.
proof fn lemma_generation_growable_member(s: Set<Grid>, n: nat, g: Grid)
    requires
        bounded_by(s, n as int),
        n <= MAX_SIZE,
        s.contains(g),
    ensures
        g.wf(),
        growable(g),
        g.w + g.h + g.d <= n + 2,
{
    lemma_small_growable(g);
}

/// Every member of generation `n` is a polycube of `n` cells: it has `n` set
/// cells, and they are face-connected.
pub proof fn lemma_generation_polycubes(n: nat)
    requires
        1 <= n <= MAX_SIZE + 1,
    ensures
        forall|g: Grid| #[trigger]
            generation(n).contains(g) ==> popcount(g) == n && face_connected(cells_of(g)),
    decreases n,
{
    if n == 1 {
        let u = unit_cube();
        let o = (0int, 0int, 0int);
        assert(u.cells =~= seq![true]);
        assert(cells_of(u) =~= set![o]);
        assert(set![o].len() == 1);
        assert forall|p: (int, int, int), q: (int, int, int)|
            cells_of(u).contains(p) && cells_of(u).contains(q) implies exists|
            path: Seq<(int, int, int)>,
        | #[trigger] is_walk(cells_of(u), path) && path[0] == p && path.last() == q by {
            assert(is_walk(cells_of(u), seq![o]));
        }
    } else {
        let m = (n - 1) as nat;
        lemma_generation_polycubes(m);
        lemma_generation_bounded(m);
        let prev = generation(m);
        assert forall|t: Grid| #[trigger] generation(n).contains(t) implies popcount(t) == n
            && face_connected(cells_of(t)) by {
            let g = choose|g: Grid| #[trigger] prev.contains(g) && children(g).contains(t);
            lemma_generation_growable_member(prev, m, g);
            let (a, b, c) = choose|a: int, b: int, c: int|
                #[trigger] is_touching(g, a, b, c) && t == canonical(child(g, a, b, c));
            lemma_child_wf(g, a, b, c);
            lemma_child_popcount(g, a, b, c);
            lemma_child_connected(g, a, b, c);
            lemma_canonical_cells(child(g, a, b, c));
        }
    }
}

/// Every member of every generation is in canonical form.
pub proof fn lemma_generation_canonical(n: nat)
    requires
        1 <= n <= MAX_SIZE + 1,
    ensures
        forall|g: Grid| #[trigger] generation(n).contains(g) ==> canonical(g) == g,
{
    if n == 1 {
        let u = unit_cube();
        assert(u.cells =~= seq![true]);
        assert forall|i: int| 0 <= i < 24 implies turned(u, i) == u by {
            lemma_turn_facts(i);
            let t = turned(u, i);
            lemma_apply_wf(turn(i), u);
            assert forall|x: int, y: int, z: int| t.inside(x, y, z) implies #[trigger] t.at(x, y, z)
                == u.at(x, y, z) by {
                lemma_apply_at(turn(i), u, x, y, z);
            }
            lemma_grid_ext(t, u);
        }
        assert forall|t: Grid| turns(u).contains(t) implies grid_le(u, t) by {
            let i = choose|i: int| 0 <= i < 24 && t == turned(u, i);
        }
        assert(turns(u).contains(turned(u, 0)));
        lemma_canonical_is(u, u);
    } else {
        let m = (n - 1) as nat;
        lemma_generation_bounded(m);
        let prev = generation(m);
        assert forall|t: Grid| #[trigger] generation(n).contains(t) implies canonical(t) == t by {
            let g = choose|g: Grid| #[trigger] prev.contains(g) && children(g).contains(t);
            lemma_generation_growable_member(prev, m, g);
            let (a, b, c) = choose|a: int, b: int, c: int|
                #[trigger] is_touching(g, a, b, c) && t == canonical(child(g, a, b, c));
            lemma_child_wf(g, a, b, c);
            lemma_canonical_idempotent(child(g, a, b, c));
        }
    }
}

/// The polycubes of the next size: the canonical forms of every grid that
/// adding one touching cell to a member of `current` gives.
pub fn next_generation(current: &ShapeSet) -> (r: ShapeSet)
    requires
        current.wf(),
        forall|g: Grid| #[trigger] current@.contains(g) ==> growable(g),
    ensures
        r.wf(),
        r@ == next_gen(current@),
{
    proof {
        current.lemma_wf();
    }
    let ghost e = current.elems();
    let mut next = ShapeSet::new();
    let n = current.len();
    let mut i: usize = 0;
    while i < n
        invariant
            current.wf(),
            e == current.elems(),
            n == e.len(),
            forall|g: Grid| #[trigger] current@.contains(g) ==> growable(g),
            i <= n,
            next.wf(),
            next@ == Set::new(
                |t: Grid| exists|k: int| 0 <= k < i && #[trigger] children(e[k]).contains(t),
            ),
        decreases n - i,
    {
        let s = current.get(i);
        proof {
            assert(current@.contains(e[i as int]));
        }
        s.generate(&mut next);
        proof {
            let lhs = Set::new(
                |t: Grid| exists|k: int| 0 <= k < i + 1 && #[trigger] children(e[k]).contains(t),
            );
            assert forall|t: Grid| next@.contains(t) <==> lhs.contains(t) by {
                if children(e[i as int]).contains(t) {
                    assert(0 <= i < i + 1 && children(e[i as int]).contains(t));
                }
                if lhs.contains(t) {
                    let k = choose|k: int| 0 <= k < i + 1 && #[trigger] children(e[k]).contains(t);
                    if k < i {
                        assert(0 <= k < i && children(e[k]).contains(t));
                    }
                }
            }
            assert(next@ =~= lhs);
        }
        i = i + 1;
    }
    proof {
        assert forall|t: Grid| next@.contains(t) <==> next_gen(current@).contains(t) by {
            if next@.contains(t) {
                let k = choose|k: int| 0 <= k < n && #[trigger] children(e[k]).contains(t);
                assert(current@.contains(e[k]));
            }
            if next_gen(current@).contains(t) {
                let g = choose|g: Grid| #[trigger] current@.contains(g) && children(g).contains(t);
                let k = choose|k: int| 0 <= k < e.len() && e[k] == g;
                assert(0 <= k < n && children(e[k]).contains(t));
            }
        }
        assert(next@ =~= next_gen(current@));
    }
    next
}

/// Walks the generations one size at a time, holding the current one.
pub struct Enumerator {
    current: ShapeSet,
    size: usize,
}

impl View for Enumerator {
    type V = nat;

    /// The size of the polycubes held.
    closed spec fn view(&self) -> nat {
        self.size as nat
    }
}

impl Enumerator {
    pub closed spec fn wf(&self) -> bool {
        &&& self.current.wf()
        &&& 1 <= self.size <= MAX_SIZE
        &&& self.current@ == generation(self.size as nat)
    }

    /// Starts at the single unit cube.
    pub fn new() -> (r: Enumerator)
        ensures
            r.wf(),
            r@ == 1,
    {
        let mut first = Bitfield3D::new(1, 1, 1);
        first.set_unchecked(0, 0, 0, true);
        let mut current = ShapeSet::new();
        current.insert(first);
        proof {
            assert(first@.cells =~= unit_cube().cells);
            assert(current@ =~= generation(1));
        }
        Enumerator { current, size: 1 }
    }

    /// The size of the polycubes held.
    pub fn size(&self) -> (r: usize)
        requires
            self.wf(),
        ensures
            r == self@,
    {
        self.size
    }

    /// The canonical polycubes of the current size.
    pub fn current(&self) -> (r: &ShapeSet)
        requires
            self.wf(),
        ensures
            r.wf(),
            r@ == generation(self@),
    {
        &self.current
    }

    /// How many polycubes of the current size there are.
    pub fn count(&self) -> (r: usize)
        requires
            self.wf(),
        ensures
            r == generation(self@).len(),
    {
        self.current.len()
    }

    /// Moves on to the next size.
    pub fn step(&mut self)
        requires
            old(self).wf(),
            old(self)@ < MAX_SIZE,
        ensures
            final(self).wf(),
            final(self)@ == old(self)@ + 1,
    {
        proof {
            lemma_generation_bounded(self.size as nat);
            assert forall|g: Grid| #[trigger] self.current@.contains(g) implies growable(g) by {
                lemma_generation_growable_member(self.current@, self.size as nat, g);
            }
        }
        let next = next_generation(&self.current);
        self.current = next;
        self.size = self.size + 1;
    }
}

/// The number of polycubes of each size from 1 to `n`.
pub fn count_polycubes(n: usize) -> (r: Vec<usize>)
    requires
        n <= MAX_SIZE,
    ensures
        r.len() == n,
        forall|k: int| 0 <= k < n ==> #[trigger] r@[k] == generation((k + 1) as nat).len(),
{
    let mut r: Vec<usize> = Vec::new();
    if n == 0 {
        return r;
    }
    let mut e = Enumerator::new();
    r.push(e.count());
    while r.len() < n
        invariant
            e.wf(),
            1 <= r.len() <= n,
            n <= MAX_SIZE,
            e@ == r.len(),
            forall|k: int| 0 <= k < r.len() ==> #[trigger] r@[k] == generation((k + 1) as nat).len(),
        decreases n - r.len(),
    {
        e.step();
        r.push(e.count());
    }
    r
}

} // verus!
