//! The order in which grids are compared: extents first, then cells.

use crate::grid::Grid;
use vstd::prelude::*;

verus! {

/// `a` comes before `b` in lexicographic order, where both have the same length
/// and the first cell in which they differ is clear in `a` and set in `b`.
pub open spec fn cells_lt(a: Seq<bool>, b: Seq<bool>) -> bool {
    &&& a.len() == b.len()
    &&& exists|i: int| #[trigger] differs_first_at(a, b, i)
}

/// Cell `i` is the first in which `a` and `b` differ, and it is clear in `a`.
pub open spec fn differs_first_at(a: Seq<bool>, b: Seq<bool>, i: int) -> bool {
    &&& 0 <= i < a.len()
    &&& i < b.len()
    &&& !a[i]
    &&& b[i]
    &&& forall|j: int| 0 <= j < i ==> a[j] == b[j]
}

/// Strict order on grids: by width, then height, then depth, then cells.
pub open spec fn grid_lt(a: Grid, b: Grid) -> bool {
    ||| a.w < b.w
    ||| (a.w == b.w && a.h < b.h)
    ||| (a.w == b.w && a.h == b.h && a.d < b.d)
    ||| (a.w == b.w && a.h == b.h && a.d == b.d && cells_lt(a.cells, b.cells))
}

pub open spec fn grid_le(a: Grid, b: Grid) -> bool {
    a == b || grid_lt(a, b)
}

/// No grid comes before itself, and no two grids each come before the other.
pub proof fn lemma_lt_asymmetric(a: Grid, b: Grid)
    ensures
        !(grid_lt(a, b) && grid_lt(b, a)),
        !grid_lt(a, a),
{
    if grid_lt(a, b) && grid_lt(b, a) {
        let i = choose|i: int| differs_first_at(a.cells, b.cells, i);
        let j = choose|j: int| differs_first_at(b.cells, a.cells, j);
        if i < j {
            assert(b.cells[i] == a.cells[i]);
        } else if j < i {
            assert(a.cells[j] == b.cells[j]);
        }
    }
    if grid_lt(a, a) {
        let i = choose|i: int| differs_first_at(a.cells, a.cells, i);
    }
}

/// The order is transitive.
pub proof fn lemma_lt_transitive(a: Grid, b: Grid, c: Grid)
    requires
        grid_lt(a, b),
        grid_lt(b, c),
    ensures
        grid_lt(a, c),
{
    if a.w == b.w && a.h == b.h && a.d == b.d && b.w == c.w && b.h == c.h && b.d == c.d {
        let i = choose|i: int| differs_first_at(a.cells, b.cells, i);
        let j = choose|j: int| differs_first_at(b.cells, c.cells, j);
        if i < j {
            assert(differs_first_at(a.cells, c.cells, i));
        } else if j < i {
            assert(differs_first_at(a.cells, c.cells, j));
        }
    }
}

/// At most one grid of a family comes no later than every member of it.
pub proof fn lemma_le_antisymmetric(a: Grid, b: Grid)
    requires
        grid_le(a, b),
        grid_le(b, a),
    ensures
        a == b,
{
    lemma_lt_asymmetric(a, b);
}

/// Two sequences of one length that agree below `i` and differ somewhere are
/// ordered one way or the other.
proof fn lemma_cells_total_from(a: Seq<bool>, b: Seq<bool>, i: int)
    requires
        a.len() == b.len(),
        0 <= i <= a.len(),
        forall|j: int| 0 <= j < i ==> a[j] == b[j],
        a != b,
    ensures
        cells_lt(a, b) || cells_lt(b, a),
    decreases a.len() - i,
{
    if i == a.len() {
        assert(a =~= b);
    } else if a[i] != b[i] {
        if b[i] {
            assert(differs_first_at(a, b, i));
        } else {
            assert(differs_first_at(b, a, i));
        }
    } else {
        lemma_cells_total_from(a, b, i + 1);
    }
}

/// Two distinct well-formed grids are ordered one way or the other.
pub proof fn lemma_lt_total(a: Grid, b: Grid)
    requires
        a.wf(),
        b.wf(),
        a != b,
    ensures
        grid_lt(a, b) || grid_lt(b, a),
{
    if a.w == b.w && a.h == b.h && a.d == b.d {
        lemma_cells_total_from(a.cells, b.cells, 0);
    }
}

} // verus!
