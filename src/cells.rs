//! Grids as sets of cells: how many cells are set, and whether they are
//! face-connected, and how adding a touching cell changes both.

use crate::canonical::canonical;
use crate::extend::{
    child, grow_extent, grow_offset, growable, grown, is_touching, lemma_grown_at,
    lemma_touching_bounds,
};
use crate::grid::{
    extents_ok, flat_index, lemma_grid_ext, lemma_index_bounds, lemma_index_coords,
    lemma_tabulate_at, tabulate, Grid,
};
use crate::rotation::{flip_coord, lemma_apply_at, lemma_apply_wf, Rot};
use vstd::prelude::*;
use vstd::set_lib::{lemma_int_range, lemma_map_size, lemma_set_subset_finite, set_int_range};

verus! {

/// The set cells of `g`.
pub open spec fn cells_of(g: Grid) -> Set<(int, int, int)> {
    Set::new(|p: (int, int, int)| g.filled(p.0, p.1, p.2))
}

/// The number of set cells of `g`.
pub open spec fn popcount(g: Grid) -> nat {
    cells_of(g).len()
}

/// `p` and `q` share a face: they differ by one in exactly one coordinate.
pub open spec fn adjacent(p: (int, int, int), q: (int, int, int)) -> bool {
    ||| (p.1 == q.1 && p.2 == q.2 && (p.0 == q.0 + 1 || p.0 + 1 == q.0))
    ||| (p.0 == q.0 && p.2 == q.2 && (p.1 == q.1 + 1 || p.1 + 1 == q.1))
    ||| (p.0 == q.0 && p.1 == q.1 && (p.2 == q.2 + 1 || p.2 + 1 == q.2))
}

/// `path` is a walk through cells of `s`, each step across a face.
pub open spec fn is_walk(s: Set<(int, int, int)>, path: Seq<(int, int, int)>) -> bool {
    &&& path.len() >= 1
    &&& forall|i: int| 0 <= i < path.len() ==> s.contains(#[trigger] path[i])
    &&& forall|i: int| 0 <= i < path.len() - 1 ==> adjacent(#[trigger] path[i], path[i + 1])
}

/// Any two cells of `s` are joined by a walk through `s`.
pub open spec fn face_connected(s: Set<(int, int, int)>) -> bool {
    forall|p: (int, int, int), q: (int, int, int)|
        s.contains(p) && s.contains(q) ==> exists|path: Seq<(int, int, int)>|
            #[trigger] is_walk(s, path) && path[0] == p && path.last() == q
}

/// Moving a cell by `(a, b, c)`.
pub open spec fn shift(p: (int, int, int), a: int, b: int, c: int) -> (int, int, int) {
    (p.0 + a, p.1 + b, p.2 + c)
}

/// The cells of `s`, each moved by `(a, b, c)`.
pub open spec fn shifted(s: Set<(int, int, int)>, a: int, b: int, c: int) -> Set<(int, int, int)> {
    s.map(|p: (int, int, int)| shift(p, a, b, c))
}

/// A well-formed grid has finitely many set cells.
pub proof fn lemma_cells_finite(g: Grid)
    requires
        g.wf(),
    ensures
        cells_of(g).finite(),
{
    let decode = |i: int| (i / (g.h * g.d), (i / g.d) % g.h, i % g.d);
    let range = set_int_range(0, g.size());
    lemma_int_range(0, g.size());
    range.lemma_map_finite(decode);
    assert forall|p: (int, int, int)| cells_of(g).contains(p) implies range.map(decode).contains(p) by {
        lemma_index_bounds(g.w, g.h, g.d, p.0, p.1, p.2);
        lemma_index_coords(g.h, g.d, p.0, p.1, p.2);
        let i = flat_index(g.h, g.d, p.0, p.1, p.2);
        assert(range.contains(i));
        assert(decode(i) == p);
    }
    lemma_set_subset_finite(range.map(decode), cells_of(g));
}

/// The cells of the grid that adding touching cell `(x, y, z)` to `g` gives:
/// the cells of `g` moved by the growth, and the added cell, which was not
/// among them and shares a face with one of them.
pub proof fn lemma_child_cells(g: Grid, x: int, y: int, z: int)
    requires
        g.wf(),
        growable(g),
        is_touching(g, x, y, z),
    ensures
        ({
            let (a, b, c) = (grow_offset(x), grow_offset(y), grow_offset(z));
            let old_cells = shifted(cells_of(g), a, b, c);
            let added = (x + a, y + b, z + c);
            &&& cells_of(child(g, x, y, z)) == old_cells.insert(added)
            &&& !old_cells.contains(added)
            &&& exists|m: (int, int, int)| #[trigger] old_cells.contains(m) && adjacent(added, m)
        }),
{
    let (a, b, c) = (grow_offset(x), grow_offset(y), grow_offset(z));
    let old_cells = shifted(cells_of(g), a, b, c);
    let added = (x + a, y + b, z + c);
    let gr = grown(g, x, y, z);
    let ch = child(g, x, y, z);
    lemma_touching_bounds(g, x, y, z);
    lemma_grown_at(g, x, y, z, added.0, added.1, added.2);
    lemma_index_bounds(gr.w, gr.h, gr.d, added.0, added.1, added.2);
    let fa = flat_index(gr.h, gr.d, added.0, added.1, added.2);
    assert forall|p: (int, int, int)| cells_of(ch).contains(p) <==> old_cells.insert(added).contains(p) by {
        let q = (p.0 - a, p.1 - b, p.2 - c);
        assert(shift(q, a, b, c) == p);
        if gr.inside(p.0, p.1, p.2) {
            lemma_grown_at(g, x, y, z, p.0, p.1, p.2);
            lemma_index_bounds(gr.w, gr.h, gr.d, p.0, p.1, p.2);
            if p != added {
                lemma_index_coords(gr.h, gr.d, p.0, p.1, p.2);
                lemma_index_coords(gr.h, gr.d, added.0, added.1, added.2);
                assert(flat_index(gr.h, gr.d, p.0, p.1, p.2) != fa);
            }
        }
        if old_cells.contains(p) {
            let r = choose|r: (int, int, int)| cells_of(g).contains(r) && shift(r, a, b, c) == p;
            assert(r == q);
            lemma_grown_at(g, x, y, z, p.0, p.1, p.2);
        }
        if cells_of(ch).contains(p) && p != added {
            assert(cells_of(g).contains(q));
        }
    }
    assert(cells_of(ch) =~= old_cells.insert(added));
    if old_cells.contains(added) {
        let r = choose|r: (int, int, int)| cells_of(g).contains(r) && shift(r, a, b, c) == added;
        assert(r == (x, y, z));
    }
    let n = if g.filled(x - 1, y, z) {
        (x - 1, y, z)
    } else if g.filled(x + 1, y, z) {
        (x + 1, y, z)
    } else if g.filled(x, y - 1, z) {
        (x, y - 1, z)
    } else if g.filled(x, y + 1, z) {
        (x, y + 1, z)
    } else if g.filled(x, y, z - 1) {
        (x, y, z - 1)
    } else {
        (x, y, z + 1)
    };
    assert(cells_of(g).contains(n));
    assert(old_cells.contains(shift(n, a, b, c)));
    assert(adjacent(added, shift(n, a, b, c)));
}

/// Adding a touching cell adds exactly one set cell.
pub proof fn lemma_child_popcount(g: Grid, x: int, y: int, z: int)
    requires
        g.wf(),
        growable(g),
        is_touching(g, x, y, z),
    ensures
        popcount(child(g, x, y, z)) == popcount(g) + 1,
{
    let (a, b, c) = (grow_offset(x), grow_offset(y), grow_offset(z));
    lemma_child_cells(g, x, y, z);
    lemma_cells_finite(g);
    let f = |p: (int, int, int)| shift(p, a, b, c);
    assert(vstd::relations::injective_on(f, cells_of(g))) by {
        assert forall|p: (int, int, int), q: (int, int, int)|
            cells_of(g).contains(p) && cells_of(g).contains(q) && #[trigger] f(p) == #[trigger] f(q)
            implies p == q by {}
    }
    lemma_map_size(cells_of(g), shifted(cells_of(g), a, b, c), f);
}

/// Adding a touching cell to a face-connected grid keeps it face-connected.
pub proof fn lemma_child_connected(g: Grid, x: int, y: int, z: int)
    requires
        g.wf(),
        growable(g),
        is_touching(g, x, y, z),
        face_connected(cells_of(g)),
    ensures
        face_connected(cells_of(child(g, x, y, z))),
{
    let (a, b, c) = (grow_offset(x), grow_offset(y), grow_offset(z));
    let s = cells_of(g);
    let old_cells = shifted(s, a, b, c);
    let added = (x + a, y + b, z + c);
    let t = old_cells.insert(added);
    lemma_child_cells(g, x, y, z);
    lemma_mapped_connected(s, |p: (int, int, int)| shift(p, a, b, c));
    let m = choose|m: (int, int, int)| #[trigger] old_cells.contains(m) && adjacent(added, m);
    assert forall|p: (int, int, int), q: (int, int, int)| t.contains(p) && t.contains(q) implies exists|
        path: Seq<(int, int, int)>,
    | #[trigger] is_walk(t, path) && path[0] == p && path.last() == q by {
        if p == added && q == added {
            let w = seq![added];
            assert(is_walk(t, w));
        } else if p == added {
            let w = choose|w: Seq<(int, int, int)>| #[trigger] is_walk(old_cells, w) && w[0] == m && w.last() == q;
            let w2 = seq![added] + w;
            assert forall|i: int| 0 <= i < w2.len() - 1 implies adjacent(#[trigger] w2[i], w2[i + 1]) by {
                if i > 0 {
                    assert(w2[i] == w[i - 1]);
                    assert(w2[i + 1] == w[i]);
                }
            }
            assert(is_walk(t, w2));
        } else if q == added {
            let w = choose|w: Seq<(int, int, int)>| #[trigger] is_walk(old_cells, w) && w[0] == p && w.last() == m;
            let w2 = w.push(added);
            assert forall|i: int| 0 <= i < w2.len() - 1 implies adjacent(#[trigger] w2[i], w2[i + 1]) by {
                if i < w.len() - 1 {
                    assert(w2[i] == w[i]);
                    assert(w2[i + 1] == w[i + 1]);
                } else {
                    assert(w2[i] == m);
                }
            }
            assert(is_walk(t, w2));
        } else {
            let w = choose|w: Seq<(int, int, int)>| #[trigger] is_walk(old_cells, w) && w[0] == p && w.last() == q;
            assert(is_walk(t, w));
        }
    }
}

/// The image of a face-connected set under a map that keeps faces shared is
/// face-connected.
pub proof fn lemma_mapped_connected(s: Set<(int, int, int)>, f: spec_fn((int, int, int)) -> (int, int, int))
    requires
        face_connected(s),
        forall|p: (int, int, int), q: (int, int, int)| adjacent(p, q) ==> #[trigger] adjacent(f(p), f(q)),
    ensures
        face_connected(s.map(f)),
{
    let t = s.map(f);
    assert forall|p: (int, int, int), q: (int, int, int)| t.contains(p) && t.contains(q) implies exists|
        path: Seq<(int, int, int)>,
    | #[trigger] is_walk(t, path) && path[0] == p && path.last() == q by {
        let p0 = choose|r: (int, int, int)| s.contains(r) && f(r) == p;
        let q0 = choose|r: (int, int, int)| s.contains(r) && f(r) == q;
        let path = choose|path: Seq<(int, int, int)>| #[trigger]
            is_walk(s, path) && path[0] == p0 && path.last() == q0;
        let w = path.map_values(f);
        assert forall|i: int| 0 <= i < w.len() implies t.contains(#[trigger] w[i]) by {
            assert(s.contains(path[i]));
        }
        assert forall|i: int| 0 <= i < w.len() - 1 implies adjacent(#[trigger] w[i], w[i + 1]) by {
            assert(adjacent(path[i], path[i + 1]));
        }
        assert(is_walk(t, w));
    }
}

/// Growing a grid moves each set cell by the offsets of the growth, and sets
/// no other cell.
pub proof fn lemma_grown_cells(g: Grid, x: int, y: int, z: int)
    requires
        g.wf(),
        extents_ok(grow_extent(g.w, x), grow_extent(g.h, y), grow_extent(g.d, z)),
    ensures
        cells_of(grown(g, x, y, z)) == shifted(cells_of(g), grow_offset(x), grow_offset(y), grow_offset(z)),
        forall|a: int, b: int, c: int|
            g.inside(a, b, c) ==> grown(g, x, y, z).inside(
                a + grow_offset(x),
                b + grow_offset(y),
                c + grow_offset(z),
            ) && grown(g, x, y, z).at(a + grow_offset(x), b + grow_offset(y), c + grow_offset(z))
                == #[trigger] g.at(a, b, c),
{
    let (a, b, c) = (grow_offset(x), grow_offset(y), grow_offset(z));
    let gr = grown(g, x, y, z);
    let sh = shifted(cells_of(g), a, b, c);
    assert forall|p: (int, int, int)| cells_of(gr).contains(p) <==> sh.contains(p) by {
        let q = (p.0 - a, p.1 - b, p.2 - c);
        assert(shift(q, a, b, c) == p);
        if gr.inside(p.0, p.1, p.2) {
            lemma_grown_at(g, x, y, z, p.0, p.1, p.2);
        }
        if sh.contains(p) {
            let r = choose|r: (int, int, int)| cells_of(g).contains(r) && shift(r, a, b, c) == p;
            assert(r == q);
            lemma_grown_at(g, x, y, z, p.0, p.1, p.2);
        }
        if cells_of(gr).contains(p) {
            assert(cells_of(g).contains(q));
        }
    }
    assert(cells_of(gr) =~= sh);
    assert forall|i: int, j: int, k: int| g.inside(i, j, k) implies gr.inside(i + a, j + b, k + c)
        && gr.at(i + a, j + b, k + c) == #[trigger] g.at(i, j, k) by {
        lemma_grown_at(g, x, y, z, i + a, j + b, k + c);
    }
}

/// `g` with cell `(x, y, z)` cleared.
pub open spec fn without_cell(g: Grid, x: int, y: int, z: int) -> Grid {
    Grid { cells: g.cells.update(flat_index(g.h, g.d, x, y, z), false), ..g }
}

/// The `w` by `h` by `d` part of `g` whose corner is at `(x0, y0, z0)`.
pub open spec fn crop(g: Grid, x0: int, y0: int, z0: int, w: int, h: int, d: int) -> Grid {
    tabulate(w, h, d, |a: int, b: int, c: int| g.at(a + x0, b + y0, c + z0))
}

/// Adding a touching cell and then taking it away again leaves the cells of
/// the grid, moved by the growth, and nothing else; cropping back to where
/// the grid sits gives the grid itself, so the canonical form is the grid's.
pub proof fn lemma_add_then_remove(g: Grid, x: int, y: int, z: int)
    requires
        g.wf(),
        growable(g),
        is_touching(g, x, y, z),
    ensures
        ({
            let (a, b, c) = (grow_offset(x), grow_offset(y), grow_offset(z));
            let back = without_cell(child(g, x, y, z), x + a, y + b, z + c);
            &&& cells_of(back) == shifted(cells_of(g), a, b, c)
            &&& crop(back, a, b, c, g.w, g.h, g.d) == g
            &&& canonical(crop(back, a, b, c, g.w, g.h, g.d)) == canonical(g)
        }),
{
    let (a, b, c) = (grow_offset(x), grow_offset(y), grow_offset(z));
    let added = (x + a, y + b, z + c);
    let gr = grown(g, x, y, z);
    let ch = child(g, x, y, z);
    let back = without_cell(ch, added.0, added.1, added.2);
    lemma_child_cells(g, x, y, z);
    lemma_touching_bounds(g, x, y, z);
    lemma_grown_cells(g, x, y, z);
    lemma_grown_at(g, x, y, z, added.0, added.1, added.2);
    lemma_index_bounds(gr.w, gr.h, gr.d, added.0, added.1, added.2);
    lemma_index_coords(gr.h, gr.d, added.0, added.1, added.2);
    let fa = flat_index(gr.h, gr.d, added.0, added.1, added.2);
    let sh = shifted(cells_of(g), a, b, c);
    assert forall|p: (int, int, int)| cells_of(back).contains(p) <==> sh.contains(p) by {
        if gr.inside(p.0, p.1, p.2) {
            lemma_index_bounds(gr.w, gr.h, gr.d, p.0, p.1, p.2);
            if p != added {
                lemma_index_coords(gr.h, gr.d, p.0, p.1, p.2);
                assert(flat_index(gr.h, gr.d, p.0, p.1, p.2) != fa);
                assert(cells_of(ch).contains(p) == cells_of(back).contains(p));
            }
        }
        if sh.contains(p) {
            assert(p != added);
            assert(ch.inside(p.0, p.1, p.2));
        }
    }
    assert(cells_of(back) =~= sh);
    let cr = crop(back, a, b, c, g.w, g.h, g.d);
    assert forall|i: int, j: int, k: int| cr.inside(i, j, k) implies #[trigger] cr.at(i, j, k) == g.at(
        i,
        j,
        k,
    ) by {
        lemma_tabulate_at(g.w, g.h, g.d, |i: int, j: int, k: int| back.at(i + a, j + b, k + c), i, j, k);
        assert(g.inside(i, j, k));
        let p = (i + a, j + b, k + c);
        assert(gr.inside(p.0, p.1, p.2));
        assert(g.at(i, j, k) == gr.at(p.0, p.1, p.2));
        if p == added {
            assert((i, j, k) == (x, y, z));
        } else {
            lemma_index_bounds(gr.w, gr.h, gr.d, p.0, p.1, p.2);
            lemma_index_coords(gr.h, gr.d, p.0, p.1, p.2);
            assert(flat_index(gr.h, gr.d, p.0, p.1, p.2) != fa);
        }
    }
    lemma_tabulate_at(g.w, g.h, g.d, |i: int, j: int, k: int| back.at(i + a, j + b, k + c), 0, 0, 0);
    lemma_grid_ext(cr, g);
}

/// Where the map `r` sends cell `p` of a grid of extents `w`, `h`, `d`.
pub open spec fn moved_cell(r: Rot, w: int, h: int, d: int, p: (int, int, int)) -> (int, int, int) {
    let c0 = flip_coord(r.s0, w, p.0);
    let c1 = flip_coord(r.s1, h, p.1);
    let c2 = flip_coord(r.s2, d, p.2);
    (
        if r.t0 == 0 { c0 } else if r.t1 == 0 { c1 } else { c2 },
        if r.t0 == 1 { c0 } else if r.t1 == 1 { c1 } else { c2 },
        if r.t0 == 2 { c0 } else if r.t1 == 2 { c1 } else { c2 },
    )
}

/// A moved grid's set cells are the grid's set cells, each moved; moving
/// keeps shared faces and never sends two cells to one.
pub proof fn lemma_apply_cells(r: Rot, g: Grid)
    requires
        r.valid(),
        g.wf(),
    ensures
        cells_of(r.apply(g)) == cells_of(g).map(|p: (int, int, int)| moved_cell(r, g.w, g.h, g.d, p)),
        forall|p: (int, int, int), q: (int, int, int)|
            adjacent(p, q) ==> #[trigger] adjacent(
                moved_cell(r, g.w, g.h, g.d, p),
                moved_cell(r, g.w, g.h, g.d, q),
            ),
        forall|p: (int, int, int), q: (int, int, int)|
            #[trigger] moved_cell(r, g.w, g.h, g.d, p) == #[trigger] moved_cell(r, g.w, g.h, g.d, q)
                ==> p == q,
{
    let a = r.apply(g);
    let f = |p: (int, int, int)| moved_cell(r, g.w, g.h, g.d, p);
    lemma_apply_wf(r, g);
    assert forall|c: (int, int, int)| cells_of(a).contains(c) <==> cells_of(g).map(f).contains(c) by {
        if cells_of(a).contains(c) {
            lemma_apply_at(r, g, c.0, c.1, c.2);
            let p = (r.src_x(g.w, c.0, c.1, c.2), r.src_y(g.h, c.0, c.1, c.2), r.src_z(g.d, c.0, c.1, c.2));
            assert(f(p) == c);
            assert(cells_of(g).contains(p));
        }
        if cells_of(g).map(f).contains(c) {
            let p = choose|p: (int, int, int)| cells_of(g).contains(p) && f(p) == c;
            assert(a.inside(c.0, c.1, c.2));
            lemma_apply_at(r, g, c.0, c.1, c.2);
            assert(r.src_x(g.w, c.0, c.1, c.2) == p.0);
            assert(r.src_y(g.h, c.0, c.1, c.2) == p.1);
            assert(r.src_z(g.d, c.0, c.1, c.2) == p.2);
        }
    }
    assert(cells_of(a) =~= cells_of(g).map(f));
}

/// A canonical form has as many set cells as the grid, and is face-connected
/// when the grid is.
pub proof fn lemma_canonical_cells(x: Grid)
    requires
        x.wf(),
    ensures
        popcount(canonical(x)) == popcount(x),
        face_connected(cells_of(x)) ==> face_connected(cells_of(canonical(x))),
{
    crate::canonical::lemma_canonical_least(x);
    let i = choose|i: int| 0 <= i < 24 && canonical(x) == crate::canonical::turned(x, i);
    crate::canonical::lemma_turn_facts(i);
    let r = crate::canonical::turn(i);
    let f = |p: (int, int, int)| moved_cell(r, x.w, x.h, x.d, p);
    lemma_apply_cells(r, x);
    lemma_cells_finite(x);
    assert(vstd::relations::injective_on(f, cells_of(x)));
    lemma_map_size(cells_of(x), cells_of(canonical(x)), f);
    if face_connected(cells_of(x)) {
        lemma_mapped_connected(cells_of(x), f);
    }
}

} // verus!
