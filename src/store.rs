//! A deduplicating set of grids, kept sorted by `compare` so that lookups
//! take logarithmic time.

use crate::grid::Grid;
use crate::order::{grid_lt, lemma_lt_asymmetric, lemma_lt_transitive};
use crate::shape::Bitfield3D;
use core::cmp::Ordering;
use vstd::prelude::*;

verus! {

/// A set of well-formed grids; equal grids are held once.
pub struct ShapeSet {
    items: Vec<Bitfield3D>,
}

impl View for ShapeSet {
    type V = Set<Grid>;

    open spec fn view(&self) -> Set<Grid> {
        self.elems().to_set()
    }
}

impl ShapeSet {
    /// The grids held, in increasing order.
    pub closed spec fn elems(&self) -> Seq<Grid> {
        self.items@.map_values(|s: Bitfield3D| s@)
    }

    pub closed spec fn wf(&self) -> bool {
        &&& forall|i: int| 0 <= i < self.items.len() ==> (#[trigger] self.items@[i]).wf()
        &&& forall|i: int, j: int|
            0 <= i < j < self.items.len() ==> grid_lt(
                #[trigger] self.elems()[i],
                #[trigger] self.elems()[j],
            )
    }

    /// The facts that users of the set rely on: its members are well formed,
    /// held once each, and as many as `elems` has.
    pub proof fn lemma_wf(&self)
        requires
            self.wf(),
        ensures
            forall|i: int| 0 <= i < self.elems().len() ==> (#[trigger] self.elems()[i]).wf(),
            self.elems().no_duplicates(),
            self@.len() == self.elems().len(),
            self@.finite(),
    {
        let e = self.elems();
        assert forall|i: int, j: int| 0 <= i < e.len() && 0 <= j < e.len() && i != j implies e[i]
            != e[j] by {
            if i < j {
                lemma_lt_asymmetric(e[i], e[j]);
            } else {
                lemma_lt_asymmetric(e[j], e[i]);
            }
        }
        e.unique_seq_to_set();
    }

    /// The empty set.
    pub fn new() -> (r: ShapeSet)
        ensures
            r.wf(),
            r@ == Set::<Grid>::empty(),
            r.elems().len() == 0,
    {
        let r = ShapeSet { items: Vec::new() };
        assert(r@ =~= Set::<Grid>::empty());
        r
    }

    /// The number of grids held.
    pub fn len(&self) -> (r: usize)
        requires
            self.wf(),
        ensures
            r == self@.len(),
            r == self.elems().len(),
    {
        proof {
            self.lemma_wf();
        }
        self.items.len()
    }

    /// The `i`-th grid in increasing order.
    pub fn get(&self, i: usize) -> (r: &Bitfield3D)
        requires
            self.wf(),
            i < self.elems().len(),
        ensures
            r.wf(),
            r@ == self.elems()[i as int],
    {
        &self.items[i]
    }

    /// Where `s` stands or would stand among the grids held.
    fn search(&self, s: &Bitfield3D) -> (r: (bool, usize))
        requires
            self.wf(),
            s.wf(),
        ensures
            r.1 <= self.elems().len(),
            r.0 ==> r.1 < self.elems().len() && self.elems()[r.1 as int] == s@,
            !r.0 ==> forall|j: int| 0 <= j < r.1 ==> grid_lt(#[trigger] self.elems()[j], s@),
            !r.0 ==> forall|j: int|
                r.1 <= j < self.elems().len() ==> grid_lt(s@, #[trigger] self.elems()[j]),
    {
        let mut lo: usize = 0;
        let mut hi: usize = self.items.len();
        while lo < hi
            invariant
                self.wf(),
                s.wf(),
                lo <= hi <= self.items.len(),
                forall|j: int| 0 <= j < lo ==> grid_lt(#[trigger] self.elems()[j], s@),
                forall|j: int| hi <= j < self.items.len() ==> grid_lt(s@, #[trigger] self.elems()[j]),
            decreases hi - lo,
        {
            let mid = lo + (hi - lo) / 2;
            let ghost e = self.elems();
            match self.items[mid].compare(s) {
                Ordering::Less => {
                    assert forall|j: int| 0 <= j < mid + 1 implies grid_lt(#[trigger] e[j], s@) by {
                        if j < mid {
                            lemma_lt_transitive(e[j], e[mid as int], s@);
                        }
                    }
                    lo = mid + 1;
                },
                Ordering::Greater => {
                    assert forall|j: int| mid <= j < self.items.len() implies grid_lt(
                        s@,
                        #[trigger] e[j],
                    ) by {
                        if j > mid {
                            lemma_lt_transitive(s@, e[mid as int], e[j]);
                        }
                    }
                    hi = mid;
                },
                Ordering::Equal => {
                    return (true, mid);
                },
            }
        }
        (false, lo)
    }

    /// Whether `s` is held.
    pub fn contains(&self, s: &Bitfield3D) -> (r: bool)
        requires
            self.wf(),
            s.wf(),
        ensures
            r == self@.contains(s@),
    {
        let (found, at) = self.search(s);
        proof {
            if !found && self@.contains(s@) {
                let j = choose|j: int| 0 <= j < self.elems().len() && self.elems()[j] == s@;
                if j < at {
                    lemma_lt_asymmetric(self.elems()[j], s@);
                } else {
                    lemma_lt_asymmetric(s@, self.elems()[j]);
                }
            }
        }
        found
    }

    /// Adds `s`; returns whether it was not held before.
    pub fn insert(&mut self, s: Bitfield3D) -> (r: bool)
        requires
            old(self).wf(),
            s.wf(),
        ensures
            final(self).wf(),
            final(self)@ == old(self)@.insert(s@),
            r == !old(self)@.contains(s@),
    {
        let (found, at) = self.search(&s);
        if found {
            proof {
                assert(self@.contains(s@));
                assert(self@.insert(s@) =~= self@);
            }
            return false;
        }
        let ghost old_e = self.elems();
        let ghost sv = s@;
        proof {
            if self@.contains(s@) {
                let j = choose|j: int| 0 <= j < old_e.len() && old_e[j] == s@;
                if j < at {
                    lemma_lt_asymmetric(old_e[j], s@);
                } else {
                    lemma_lt_asymmetric(s@, old_e[j]);
                }
            }
        }
        self.items.insert(at, s);
        proof {
            let e = self.elems();
            assert(e =~= old_e.insert(at as int, sv));
            old_e.insert_ensures(at as int, sv);
            assert forall|i: int, j: int| 0 <= i < j < self.items.len() implies grid_lt(
                #[trigger] self.elems()[i],
                #[trigger] self.elems()[j],
            ) by {
                if j < at {
                } else if j == at {
                } else if i < at {
                    assert(e[j] == old_e[j - 1]);
                } else if i == at {
                    assert(e[j] == old_e[j - 1]);
                } else {
                    assert(e[j] == old_e[j - 1]);
                    assert(e[i] == old_e[i - 1]);
                }
            }
            assert forall|i: int| 0 <= i < self.items.len() implies (#[trigger] self.items@[i]).wf() by {
                if i > at {
                    assert(self.items@[i] == old(self).items@[i - 1]);
                } else if i < at {
                    assert(self.items@[i] == old(self).items@[i]);
                }
            }
            assert forall|t: Grid| self@.contains(t) <==> old(self)@.insert(sv).contains(t) by {
                if self@.contains(t) {
                    let k = choose|k: int| 0 <= k < e.len() && e[k] == t;
                    if k < at {
                        assert(old_e[k] == t);
                    } else if k > at {
                        assert(old_e[k - 1] == t);
                    }
                }
                if old(self)@.contains(t) {
                    let k = choose|k: int| 0 <= k < old_e.len() && old_e[k] == t;
                    if k < at {
                        assert(e[k] == t);
                    } else {
                        assert(e[k + 1] == t);
                    }
                }
                if t == sv {
                    assert(e[at as int] == t);
                }
            }
            assert(self@ =~= old(self)@.insert(sv));
        }
        true
    }
}

} // verus!
