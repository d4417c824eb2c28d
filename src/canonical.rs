//! Canonical forms: the least of the rotations of a grid.

use crate::grid::Grid;
use crate::order::{
    grid_le, grid_lt, lemma_le_antisymmetric, lemma_lt_total, lemma_lt_transitive,
};
use crate::rotation::{
    lemma_apply_after, lemma_apply_id, lemma_apply_wf, rot_id, rot_x, rot_y, rot_z, Rot,
};
use crate::shape::Bitfield3D;
use core::cmp::Ordering;
use vstd::prelude::*;

verus! {

/// The rotations tried when a grid is brought to its canonical form: six
/// orientations, each followed by the four quarter turns about z. Turn
/// `4 * o + k` is orientation `o` followed by `k` quarter turns about z; the
/// orientations are reached by none to three quarter turns about y, then one
/// quarter turn about x after the third, then two more about x.
#[verifier::opaque]
pub open spec fn turn(i: int) -> Rot {
    if i == 0 {
        Rot { t0: 0, t1: 1, t2: 2, s0: false, s1: false, s2: false }
    } else if i == 1 {
        Rot { t0: 1, t1: 0, t2: 2, s0: false, s1: true, s2: false }
    } else if i == 2 {
        Rot { t0: 0, t1: 1, t2: 2, s0: true, s1: true, s2: false }
    } else if i == 3 {
        Rot { t0: 1, t1: 0, t2: 2, s0: true, s1: false, s2: false }
    } else if i == 4 {
        Rot { t0: 2, t1: 1, t2: 0, s0: true, s1: false, s2: false }
    } else if i == 5 {
        Rot { t0: 2, t1: 0, t2: 1, s0: true, s1: true, s2: false }
    } else if i == 6 {
        Rot { t0: 2, t1: 1, t2: 0, s0: true, s1: true, s2: true }
    } else if i == 7 {
        Rot { t0: 2, t1: 0, t2: 1, s0: true, s1: false, s2: true }
    } else if i == 8 {
        Rot { t0: 0, t1: 1, t2: 2, s0: true, s1: false, s2: true }
    } else if i == 9 {
        Rot { t0: 1, t1: 0, t2: 2, s0: true, s1: true, s2: true }
    } else if i == 10 {
        Rot { t0: 0, t1: 1, t2: 2, s0: false, s1: true, s2: true }
    } else if i == 11 {
        Rot { t0: 1, t1: 0, t2: 2, s0: false, s1: false, s2: true }
    } else if i == 12 {
        Rot { t0: 2, t1: 1, t2: 0, s0: false, s1: false, s2: true }
    } else if i == 13 {
        Rot { t0: 2, t1: 0, t2: 1, s0: false, s1: true, s2: true }
    } else if i == 14 {
        Rot { t0: 2, t1: 1, t2: 0, s0: false, s1: true, s2: false }
    } else if i == 15 {
        Rot { t0: 2, t1: 0, t2: 1, s0: false, s1: false, s2: false }
    } else if i == 16 {
        Rot { t0: 1, t1: 2, t2: 0, s0: true, s1: false, s2: true }
    } else if i == 17 {
        Rot { t0: 0, t1: 2, t2: 1, s0: false, s1: false, s2: true }
    } else if i == 18 {
        Rot { t0: 1, t1: 2, t2: 0, s0: false, s1: false, s2: false }
    } else if i == 19 {
        Rot { t0: 0, t1: 2, t2: 1, s0: true, s1: false, s2: false }
    } else if i == 20 {
        Rot { t0: 1, t1: 2, t2: 0, s0: false, s1: true, s2: true }
    } else if i == 21 {
        Rot { t0: 0, t1: 2, t2: 1, s0: true, s1: true, s2: true }
    } else if i == 22 {
        Rot { t0: 1, t1: 2, t2: 0, s0: true, s1: true, s2: false }
    } else {
        Rot { t0: 0, t1: 2, t2: 1, s0: false, s1: true, s2: false }
    }
}

/// The index of turn `i` preceded by a quarter turn about x.
pub open spec fn turn_then_x(i: int) -> int {
    seq![17, 18, 19, 16, 7, 4, 5, 6, 21, 22, 23, 20, 13, 14, 15, 12, 9, 10, 11, 8, 1, 2, 3, 0][i]
}

/// The index of turn `i` preceded by a quarter turn about y.
pub open spec fn turn_then_y(i: int) -> int {
    seq![4, 5, 6, 7, 8, 9, 10, 11, 12, 13, 14, 15, 0, 1, 2, 3, 17, 18, 19, 16, 23, 20, 21, 22][i]
}

/// The index of turn `i` preceded by a quarter turn about z.
pub open spec fn turn_then_z(i: int) -> int {
    seq![1, 2, 3, 0, 18, 19, 16, 17, 11, 8, 9, 10, 20, 21, 22, 23, 12, 13, 14, 15, 6, 7, 4, 5][i]
}

/// The facts about one turn that the proofs below use: it is a rotation, and
/// the tried turns are closed under a preceding quarter turn about any axis.
pub open spec fn turn_facts(i: int) -> bool {
    &&& turn(i).valid()
    &&& 0 <= turn_then_x(i) < 24
    &&& 0 <= turn_then_y(i) < 24
    &&& 0 <= turn_then_z(i) < 24
    &&& turn(i).after(rot_x()) == turn(turn_then_x(i))
    &&& turn(i).after(rot_y()) == turn(turn_then_y(i))
    &&& turn(i).after(rot_z()) == turn(turn_then_z(i))
    &&& i % 4 < 3 ==> rot_z().after(turn(i)) == turn(i + 1)
    &&& i % 4 == 3 ==> rot_z().after(turn(i)) == turn(i - 3)
    &&& i == 0 ==> turn(i) == rot_id()
    &&& (i == 0 || i == 4 || i == 8) ==> rot_y().after(turn(i)) == turn(i + 4)
    &&& i == 12 ==> rot_x().after(turn(i)) == turn(16)
    &&& i == 16 ==> rot_x().after(rot_x().after(turn(i))) == turn(20)
}

/// The facts hold of each of the 24 turns, taken one at a time.
pub proof fn lemma_turn_facts(i: int)
    requires
        0 <= i < 24,
    ensures
        turn_facts(i),
{
    reveal(turn);
    if i == 0 {
        assert(turn_facts(0));
    } else if i == 1 {
        assert(turn_facts(1));
    } else if i == 2 {
        assert(turn_facts(2));
    } else if i == 3 {
        assert(turn_facts(3));
    } else if i == 4 {
        assert(turn_facts(4));
    } else if i == 5 {
        assert(turn_facts(5));
    } else if i == 6 {
        assert(turn_facts(6));
    } else if i == 7 {
        assert(turn_facts(7));
    } else if i == 8 {
        assert(turn_facts(8));
    } else if i == 9 {
        assert(turn_facts(9));
    } else if i == 10 {
        assert(turn_facts(10));
    } else if i == 11 {
        assert(turn_facts(11));
    } else if i == 12 {
        assert(turn_facts(12));
    } else if i == 13 {
        assert(turn_facts(13));
    } else if i == 14 {
        assert(turn_facts(14));
    } else if i == 15 {
        assert(turn_facts(15));
    } else if i == 16 {
        assert(turn_facts(16));
    } else if i == 17 {
        assert(turn_facts(17));
    } else if i == 18 {
        assert(turn_facts(18));
    } else if i == 19 {
        assert(turn_facts(19));
    } else if i == 20 {
        assert(turn_facts(20));
    } else if i == 21 {
        assert(turn_facts(21));
    } else if i == 22 {
        assert(turn_facts(22));
    } else if i == 23 {
        assert(turn_facts(23));
    }
}

/// The 24 turns are distinct.
pub proof fn lemma_turns_distinct(i: int, j: int)
    requires
        0 <= i < j < 24,
    ensures
        turn(i) != turn(j),
{
    reveal(turn);
}

/// Grid `g` moved by turn `i`.
pub open spec fn turned(g: Grid, i: int) -> Grid {
    turn(i).apply(g)
}

/// The grids that `g` becomes under the 24 turns.
pub open spec fn turns(g: Grid) -> Set<Grid> {
    Set::new(|t: Grid| exists|i: int| 0 <= i < 24 && t == turned(g, i))
}

/// `c` belongs to `s` and comes no later than any member of `s`.
pub open spec fn is_least(c: Grid, s: Set<Grid>) -> bool {
    &&& s.contains(c)
    &&& forall|t: Grid| s.contains(t) ==> grid_le(c, t)
}

/// The canonical form of `g`: the least of its rotations.
pub open spec fn canonical(g: Grid) -> Grid {
    choose|c: Grid| is_least(c, turns(g))
}

/// One of the three quarter turns about an axis.
pub open spec fn is_quarter_turn(q: Rot) -> bool {
    q == rot_x() || q == rot_y() || q == rot_z()
}

/// The index of turn `i` preceded by the quarter turn `q`.
pub open spec fn turn_then(q: Rot, i: int) -> int {
    if q == rot_x() {
        turn_then_x(i)
    } else if q == rot_y() {
        turn_then_y(i)
    } else {
        turn_then_z(i)
    }
}

/// A set has at most one least member.
pub proof fn lemma_least_unique(a: Grid, b: Grid, s: Set<Grid>)
    requires
        is_least(a, s),
        is_least(b, s),
    ensures
        a == b,
{
    lemma_le_antisymmetric(a, b);
}

/// Every turn of a well-formed grid is well formed.
pub proof fn lemma_turned_wf(g: Grid, i: int)
    requires
        g.wf(),
        0 <= i < 24,
    ensures
        turned(g, i).wf(),
        turns(g).contains(turned(g, i)),
{
    lemma_turn_facts(i);
    lemma_apply_wf(turn(i), g);
}

/// Among the first `n` turns of `g` one comes no later than the others.
proof fn lemma_least_prefix(g: Grid, n: int) -> (j: int)
    requires
        g.wf(),
        1 <= n <= 24,
    ensures
        0 <= j < n,
        forall|i: int| 0 <= i < n ==> grid_le(turned(g, j), #[trigger] turned(g, i)),
    decreases n,
{
    if n == 1 {
        0
    } else {
        let j = lemma_least_prefix(g, n - 1);
        lemma_turned_wf(g, j);
        lemma_turned_wf(g, n - 1);
        if turned(g, j) == turned(g, n - 1) {
            j
        } else {
            lemma_lt_total(turned(g, j), turned(g, n - 1));
            if grid_lt(turned(g, j), turned(g, n - 1)) {
                j
            } else {
                assert forall|i: int| 0 <= i < n implies grid_le(
                    turned(g, n - 1),
                    #[trigger] turned(g, i),
                ) by {
                    if i < n - 1 && turned(g, j) != turned(g, i) {
                        lemma_lt_transitive(turned(g, n - 1), turned(g, j), turned(g, i));
                    }
                }
                n - 1
            }
        }
    }
}

/// A well-formed grid has a canonical form, which is one of its turns and
/// comes no later than any of them.
pub proof fn lemma_canonical_least(g: Grid)
    requires
        g.wf(),
    ensures
        is_least(canonical(g), turns(g)),
{
    let j = lemma_least_prefix(g, 24);
    let c = turned(g, j);
    lemma_turned_wf(g, j);
    assert forall|t: Grid| turns(g).contains(t) implies grid_le(c, t) by {
        let i = choose|i: int| 0 <= i < 24 && t == turned(g, i);
        assert(grid_le(c, turned(g, i)));
    }
    assert(is_least(c, turns(g)));
}

/// Any least turn of a well-formed grid is its canonical form.
pub proof fn lemma_canonical_is(g: Grid, c: Grid)
    requires
        g.wf(),
        is_least(c, turns(g)),
    ensures
        canonical(g) == c,
{
    lemma_canonical_least(g);
    lemma_least_unique(canonical(g), c, turns(g));
}

/// Turning by `i` after a quarter turn is one of the tried turns.
pub proof fn lemma_turned_after_quarter(q: Rot, h: Grid, i: int)
    requires
        is_quarter_turn(q),
        h.wf(),
        0 <= i < 24,
    ensures
        0 <= turn_then(q, i) < 24,
        turned(q.apply(h), i) == turned(h, turn_then(q, i)),
{
    lemma_turn_facts(i);
    lemma_apply_after(turn(i), q, h);
}

/// Four quarter turns about one axis bring a grid back to itself.
pub proof fn lemma_four_quarter_turns(q: Rot, g: Grid)
    requires
        is_quarter_turn(q),
        g.wf(),
    ensures
        q.apply(q.apply(q.apply(q.apply(g)))) == g,
{
    lemma_apply_wf(q, g);
    lemma_apply_wf(q, q.apply(g));
    lemma_apply_after(q, q, g);
    lemma_apply_after(q, q.after(q), g);
    lemma_apply_after(q, q.after(q).after(q), g);
    assert(q.after(q.after(q).after(q)) == rot_id());
    lemma_apply_id(g);
    lemma_apply_after(q, q, q.apply(g));
    lemma_apply_after(q, q.after(q), q.apply(g));
}

/// A quarter turn does not change the set of turns.
pub proof fn lemma_turns_quarter(q: Rot, h: Grid)
    requires
        is_quarter_turn(q),
        h.wf(),
    ensures
        turns(q.apply(h)) == turns(h),
{
    let h1 = q.apply(h);
    lemma_apply_wf(q, h);
    let h2 = q.apply(h1);
    lemma_apply_wf(q, h1);
    let h3 = q.apply(h2);
    lemma_apply_wf(q, h2);
    lemma_four_quarter_turns(q, h);
    lemma_turns_quarter_sub(q, h);
    lemma_turns_quarter_sub(q, h1);
    lemma_turns_quarter_sub(q, h2);
    lemma_turns_quarter_sub(q, h3);
    assert(turns(h1) =~= turns(h));
}

/// The turns of a grid after a quarter turn are turns of the grid.
proof fn lemma_turns_quarter_sub(q: Rot, h: Grid)
    requires
        is_quarter_turn(q),
        h.wf(),
    ensures
        turns(q.apply(h)).subset_of(turns(h)),
{
    assert forall|t: Grid| turns(q.apply(h)).contains(t) implies turns(h).contains(t) by {
        let i = choose|i: int| 0 <= i < 24 && t == turned(q.apply(h), i);
        lemma_turned_after_quarter(q, h, i);
    }
}

/// A turned grid has the same set of turns as the grid.
pub proof fn lemma_turns_turned(g: Grid, i: int)
    requires
        g.wf(),
        0 <= i < 24,
    ensures
        turns(turned(g, i)) == turns(g),
    decreases i,
{
    lemma_turned_wf(g, i);
    if i == 0 {
        lemma_turn_facts(0);
        lemma_apply_id(g);
    } else if i % 4 != 0 {
        lemma_turns_turned(g, i - 1);
        lemma_turn_facts(i - 1);
        lemma_turned_wf(g, i - 1);
        lemma_apply_after(rot_z(), turn(i - 1), g);
        lemma_turns_quarter(rot_z(), turned(g, i - 1));
    } else if i <= 12 {
        lemma_turns_turned(g, i - 4);
        lemma_turned_wf(g, i - 4);
        lemma_turn_facts(i - 4);
        lemma_apply_after(rot_y(), turn(i - 4), g);
        lemma_turns_quarter(rot_y(), turned(g, i - 4));
    } else if i == 16 {
        lemma_turns_turned(g, 12);
        lemma_turned_wf(g, 12);
        lemma_turn_facts(12);
        lemma_apply_after(rot_x(), turn(12), g);
        lemma_turns_quarter(rot_x(), turned(g, 12));
    } else {
        lemma_turns_turned(g, 16);
        lemma_turned_wf(g, 16);
        let m = rot_x().apply(turned(g, 16));
        lemma_apply_wf(rot_x(), turned(g, 16));
        lemma_turn_facts(16);
        lemma_apply_after(rot_x(), turn(16), g);
        lemma_apply_after(rot_x(), rot_x().after(turn(16)), g);
        lemma_turns_quarter(rot_x(), turned(g, 16));
        lemma_turns_quarter(rot_x(), m);
    }
}

/// Bringing a grid to canonical form twice gives what bringing it once gives.
pub proof fn lemma_canonical_idempotent(g: Grid)
    requires
        g.wf(),
    ensures
        canonical(canonical(g)) == canonical(g),
{
    lemma_canonical_least(g);
    let i = choose|i: int| 0 <= i < 24 && canonical(g) == turned(g, i);
    lemma_turns_turned(g, i);
}

/// Every one of the 24 turns of a grid has the grid's canonical form.
pub proof fn lemma_canonical_turn_invariant(g: Grid, i: int)
    requires
        g.wf(),
        0 <= i < 24,
    ensures
        canonical(turned(g, i)) == canonical(g),
{
    lemma_turns_turned(g, i);
}

/// A quarter turn about any axis keeps the canonical form.
pub proof fn lemma_canonical_quarter_invariant(q: Rot, g: Grid)
    requires
        is_quarter_turn(q),
        g.wf(),
    ensures
        canonical(q.apply(g)) == canonical(g),
{
    lemma_turns_quarter(q, g);
}

/// The map that applies `qs[0]` first, then `qs[1]`, and so on.
pub open spec fn composite(qs: Seq<Rot>) -> Rot
    decreases qs.len(),
{
    if qs.len() == 0 {
        rot_id()
    } else {
        composite(qs.drop_first()).after(qs[0])
    }
}

/// Any sequence of quarter turns about the axes amounts to one of the 24
/// tried turns.
pub proof fn lemma_composite_is_turn(qs: Seq<Rot>) -> (i: int)
    requires
        forall|k: int| 0 <= k < qs.len() ==> is_quarter_turn(#[trigger] qs[k]),
    ensures
        0 <= i < 24,
        composite(qs) == turn(i),
    decreases qs.len(),
{
    if qs.len() == 0 {
        lemma_turn_facts(0);
        0
    } else {
        let rest = qs.drop_first();
        assert forall|k: int| 0 <= k < rest.len() implies is_quarter_turn(#[trigger] rest[k]) by {
            assert(rest[k] == qs[k + 1]);
        }
        let j = lemma_composite_is_turn(rest);
        lemma_turn_facts(j);
        assert(is_quarter_turn(qs[0]));
        turn_then(qs[0], j)
    }
}

/// Turning a grid by any sequence of quarter turns keeps its canonical form.
pub proof fn lemma_canonical_rotation_invariant(qs: Seq<Rot>, g: Grid)
    requires
        forall|k: int| 0 <= k < qs.len() ==> is_quarter_turn(#[trigger] qs[k]),
        g.wf(),
    ensures
        canonical(composite(qs).apply(g)) == canonical(g),
{
    let i = lemma_composite_is_turn(qs);
    lemma_turns_turned(g, i);
}

impl Bitfield3D {
    /// The canonical form of this grid: the least, by `compare`, of its 24
    /// rotations. Two scratch grids take the rotations in turn.
    pub fn create_canonical(&self) -> (r: Bitfield3D)
        requires
            self.wf(),
        ensures
            r.wf(),
            r@ == canonical(self@),
    {
        let ghost g = self@;
        let n = self.data.len();
        let mut best = self.duplicate();
        let mut rot = self.duplicate();
        let mut buf = self.duplicate();
        proof {
            lemma_turn_facts(0);
            lemma_apply_id(g);
            lemma_turned_wf(g, 0);
        }
        let mut o: usize = 0;
        while o < 6
            invariant
                self.wf(),
                g == self@,
                n == self.data.len(),
                o <= 6,
                o < 6 ==> rot@ == turned(g, 4 * o),
                rot.wf(),
                rot.data.len() == n,
                buf.data.len() == n,
                best.wf(),
                turns(g).contains(best@),
                forall|i: int| 0 <= i < 4 * o ==> grid_le(best@, #[trigger] turned(g, i)),
            decreases 6 - o,
        {
            let mut k: usize = 0;
            while k < 4
                invariant
                    self.wf(),
                    g == self@,
                    n == self.data.len(),
                    o < 6,
                    k <= 4,
                    rot@ == turned(g, 4 * o + (if k < 4 { k as int } else { 0 })),
                    rot.wf(),
                    rot.data.len() == n,
                    buf.data.len() == n,
                    best.wf(),
                    turns(g).contains(best@),
                    forall|i: int| 0 <= i < 4 * o + k ==> grid_le(best@, #[trigger] turned(g, i)),
                decreases 4 - k,
            {
                let ghost i = 4 * o + k;
                proof {
                    lemma_turned_wf(g, i);
                    lemma_turn_facts(i);
                }
                match rot.compare(&best) {
                    Ordering::Less => {
                        proof {
                            assert forall|j: int| 0 <= j < i implies grid_le(
                                rot@,
                                #[trigger] turned(g, j),
                            ) by {
                                if best@ != turned(g, j) {
                                    lemma_lt_transitive(rot@, best@, turned(g, j));
                                }
                            }
                        }
                        best = rot.duplicate();
                    },
                    _ => {},
                }
                rot.rotate_z(&mut buf);
                std::mem::swap(&mut rot, &mut buf);
                proof {
                    lemma_apply_after(rot_z(), turn(i), g);
                }
                k = k + 1;
            }
            let ghost i = 4 * o;
            proof {
                lemma_turned_wf(g, i);
            }
            if o < 3 {
                rot.rotate_y(&mut buf);
                std::mem::swap(&mut rot, &mut buf);
                proof {
                    lemma_turn_facts(i);
                    lemma_apply_after(rot_y(), turn(i), g);
                }
            } else if o == 3 {
                rot.rotate_x(&mut buf);
                std::mem::swap(&mut rot, &mut buf);
                proof {
                    lemma_turn_facts(12);
                    lemma_apply_after(rot_x(), turn(12), g);
                }
            } else if o == 4 {
                rot.rotate_x(&mut buf);
                std::mem::swap(&mut rot, &mut buf);
                rot.rotate_x(&mut buf);
                std::mem::swap(&mut rot, &mut buf);
                proof {
                    lemma_turn_facts(16);
                    lemma_apply_after(rot_x(), turn(16), g);
                    lemma_apply_after(rot_x(), rot_x().after(turn(16)), g);
                }
            }
            o = o + 1;
        }
        proof {
            assert forall|t: Grid| turns(g).contains(t) implies grid_le(best@, t) by {
                let i = choose|i: int| 0 <= i < 24 && t == turned(g, i);
                assert(grid_le(best@, turned(g, i)));
            }
            lemma_canonical_is(g, best@);
        }
        best
    }
}

} // verus!
