use polycubes::engine::{count_polycubes, next_generation, Enumerator};
use polycubes::shape::Bitfield3D;
use polycubes::store::ShapeSet;
use std::cmp::Ordering;
use std::collections::hash_map::DefaultHasher;
use std::hash::{Hash, Hasher};

fn unit() -> Bitfield3D {
    let mut s = Bitfield3D::new(1, 1, 1);
    s.set_unchecked(0, 0, 0, true);
    s
}

fn from_cells(w: isize, h: isize, d: isize, cells: &[(isize, isize, isize)]) -> Bitfield3D {
    let mut s = Bitfield3D::new(w, h, d);
    for &(x, y, z) in cells {
        s.set_unchecked(x, y, z, true);
    }
    s
}

fn popcount(s: &Bitfield3D) -> usize {
    s.data.iter().filter(|b| **b).count()
}

fn hash_of(s: &Bitfield3D) -> u64 {
    let mut h = DefaultHasher::new();
    s.hash(&mut h);
    h.finish()
}

fn rotate_x(s: &Bitfield3D) -> Bitfield3D {
    let mut b = s.duplicate();
    s.rotate_x(&mut b);
    b
}

fn rotate_y(s: &Bitfield3D) -> Bitfield3D {
    let mut b = s.duplicate();
    s.rotate_y(&mut b);
    b
}

fn rotate_z(s: &Bitfield3D) -> Bitfield3D {
    let mut b = s.duplicate();
    s.rotate_z(&mut b);
    b
}

fn same(a: &Bitfield3D, b: &Bitfield3D) -> bool {
    a.compare(b) == Ordering::Equal
}

#[test]
fn one_step_from_the_seed_gives_the_domino() {
    let e = Enumerator::new();
    assert_eq!(e.count(), 1);
    let next = next_generation(e.current());
    assert_eq!(next.len(), 1);
    let domino = next.get(0);
    assert_eq!(popcount(domino), 2);
    let mut dims = vec![domino.width, domino.height, domino.depth];
    dims.sort();
    assert_eq!(dims, vec![1, 1, 2]);
}

#[test]
fn two_steps_give_two_trominoes() {
    let mut e = Enumerator::new();
    e.step();
    e.step();
    assert_eq!(e.size(), 3);
    assert_eq!(e.count(), 2);
    let set = e.current();
    let mut boxes: Vec<Vec<isize>> = (0..set.len())
        .map(|i| {
            let s = set.get(i);
            assert_eq!(popcount(s), 3);
            let mut d = vec![s.width, s.height, s.depth];
            d.sort();
            d
        })
        .collect();
    boxes.sort();
    assert_eq!(boxes, vec![vec![1, 1, 3], vec![1, 2, 2]]);
}

#[test]
fn three_steps_give_eight_tetracubes() {
    let mut e = Enumerator::new();
    for _ in 0..3 {
        e.step();
    }
    assert_eq!(e.size(), 4);
    assert_eq!(e.count(), 8);
}

#[test]
fn counts_through_eight() {
    assert_eq!(count_polycubes(8), vec![1, 1, 2, 8, 29, 166, 1023, 6922]);
}

#[test]
fn counts_of_nothing_and_one() {
    assert_eq!(count_polycubes(0), Vec::<usize>::new());
    assert_eq!(count_polycubes(1), vec![1]);
}

#[test]
fn straight_tromino_has_one_canonical_form() {
    let along_x = from_cells(3, 1, 1, &[(0, 0, 0), (1, 0, 0), (2, 0, 0)]);
    let along_y = from_cells(1, 3, 1, &[(0, 0, 0), (0, 1, 0), (0, 2, 0)]);
    let along_z = from_cells(1, 1, 3, &[(0, 0, 0), (0, 0, 1), (0, 0, 2)]);
    let cx = along_x.create_canonical();
    let cy = along_y.create_canonical();
    let cz = along_z.create_canonical();
    assert_eq!(cx.data, cy.data);
    assert_eq!(cy.data, cz.data);
    assert_eq!((cx.width, cx.height, cx.depth), (cy.width, cy.height, cy.depth));
    assert_eq!((cy.width, cy.height, cy.depth), (cz.width, cz.height, cz.depth));
    assert_eq!((cx.width, cx.height, cx.depth), (1, 1, 3));
    assert_eq!(cx.data, vec![true, true, true]);
}

#[test]
fn seed_has_six_touching_cells_that_collapse_to_one() {
    let seed = unit();
    let cells = seed.touching_unset_bits();
    assert_eq!(
        cells,
        vec![(-1, 0, 0), (0, -1, 0), (0, 0, -1), (0, 0, 1), (0, 1, 0), (1, 0, 0)]
    );
    let mut set = ShapeSet::new();
    seed.generate(&mut set);
    assert_eq!(set.len(), 1);
}

#[test]
fn canonical_form_is_idempotent() {
    let l = from_cells(2, 2, 1, &[(0, 0, 0), (1, 0, 0), (1, 1, 0)]);
    let c = l.create_canonical();
    let cc = c.create_canonical();
    assert!(same(&c, &cc));
    assert_eq!(popcount(&c), 3);
}

#[test]
fn canonical_form_ignores_rotation() {
    let s = from_cells(3, 2, 2, &[(0, 0, 0), (1, 0, 0), (2, 0, 0), (2, 1, 0), (2, 1, 1)]);
    let c = s.create_canonical();
    let mut r = s.duplicate();
    for _ in 0..3 {
        r = rotate_x(&r);
        assert!(same(&r.create_canonical(), &c));
        r = rotate_y(&r);
        assert!(same(&r.create_canonical(), &c));
        r = rotate_z(&r);
        assert!(same(&r.create_canonical(), &c));
    }
}

#[test]
fn canonical_form_keeps_mirror_images_apart() {
    let a = from_cells(2, 2, 2, &[(0, 0, 0), (1, 0, 0), (1, 1, 0), (1, 1, 1)]);
    let b = from_cells(2, 2, 2, &[(1, 0, 0), (0, 0, 0), (0, 1, 0), (0, 1, 1)]);
    assert!(!same(&a.create_canonical(), &b.create_canonical()));
}

#[test]
fn four_quarter_turns_are_the_identity() {
    let s = from_cells(3, 2, 2, &[(0, 0, 0), (1, 0, 0), (2, 1, 1)]);
    let mut x = s.duplicate();
    let mut y = s.duplicate();
    let mut z = s.duplicate();
    for _ in 0..4 {
        x = rotate_x(&x);
        y = rotate_y(&y);
        z = rotate_z(&z);
    }
    assert!(same(&x, &s));
    assert!(same(&y, &s));
    assert!(same(&z, &s));
}

#[test]
fn rotations_move_cells_as_stated() {
    let s = from_cells(2, 3, 4, &[(1, 2, 3), (0, 1, 0)]);
    let rx = rotate_x(&s);
    assert_eq!((rx.width, rx.height, rx.depth), (2, 4, 3));
    assert!(rx.get_unchecked(1, 0, 2));
    assert!(rx.get_unchecked(0, 3, 1));
    assert_eq!(popcount(&rx), 2);
    let ry = rotate_y(&s);
    assert_eq!((ry.width, ry.height, ry.depth), (4, 3, 2));
    assert!(ry.get_unchecked(3, 2, 0));
    assert!(ry.get_unchecked(0, 1, 1));
    assert_eq!(popcount(&ry), 2);
    let rz = rotate_z(&s);
    assert_eq!((rz.width, rz.height, rz.depth), (3, 2, 4));
    assert!(rz.get_unchecked(0, 1, 3));
    assert!(rz.get_unchecked(1, 0, 0));
    assert_eq!(popcount(&rz), 2);
}

#[test]
fn grow_to_fit_shifts_on_negative_faces() {
    let s = from_cells(2, 1, 1, &[(0, 0, 0), (1, 0, 0)]);
    let g = s.grow_to_fit(-1, 0, 0);
    assert_eq!((g.width, g.height, g.depth), (3, 1, 1));
    assert_eq!(g.data, vec![false, true, true]);
    let g = s.grow_to_fit(0, 0, 1);
    assert_eq!((g.width, g.height, g.depth), (2, 1, 2));
    assert_eq!(g.data, vec![true, false, true, false]);
    let g = s.grow_to_fit(0, -2, 0);
    assert_eq!((g.width, g.height, g.depth), (2, 3, 1));
    assert!(g.get_unchecked(0, 2, 0));
    assert!(g.get_unchecked(1, 2, 0));
    assert_eq!(popcount(&g), 2);
}

#[test]
fn grow_to_fit_inside_changes_nothing() {
    let s = from_cells(2, 2, 1, &[(0, 1, 0)]);
    let g = s.grow_to_fit(1, 1, 0);
    assert!(same(&g, &s));
}

#[test]
fn children_have_one_more_cell() {
    let l = from_cells(2, 2, 1, &[(0, 0, 0), (1, 0, 0), (1, 1, 0)]);
    let mut set = ShapeSet::new();
    l.generate(&mut set);
    // every tetracube but the straight one contains an L-tromino
    assert_eq!(set.len(), 7);
    for i in 0..set.len() {
        assert_eq!(popcount(set.get(i)), 4);
    }
}

#[test]
fn equal_shapes_hash_equally() {
    let a = from_cells(1, 2, 1, &[(0, 1, 0)]);
    let b = from_cells(1, 2, 1, &[(0, 1, 0)]);
    assert!(same(&a, &b));
    assert_eq!(hash_of(&a), hash_of(&b));
    let c = from_cells(2, 1, 1, &[(1, 0, 0)]);
    assert_eq!(a.data, c.data);
    assert!(!same(&a, &c));
}

#[test]
fn compare_orders_by_extents_then_cells() {
    let a = from_cells(1, 2, 1, &[(0, 1, 0)]);
    let b = from_cells(2, 1, 1, &[(0, 0, 0)]);
    assert_eq!(a.compare(&b), Ordering::Less);
    assert_eq!(b.compare(&a), Ordering::Greater);
    let c = from_cells(1, 2, 1, &[(0, 0, 0)]);
    assert_eq!(a.compare(&c), Ordering::Less);
    assert_eq!(a.compare(&a.duplicate()), Ordering::Equal);
}

#[test]
fn shape_set_holds_each_shape_once() {
    let mut set = ShapeSet::new();
    let a = from_cells(1, 2, 1, &[(0, 1, 0)]);
    let b = from_cells(2, 1, 1, &[(0, 0, 0)]);
    assert!(set.insert(b.duplicate()));
    assert!(set.insert(a.duplicate()));
    assert!(!set.insert(a.duplicate()));
    assert_eq!(set.len(), 2);
    assert!(set.contains(&a));
    assert!(set.contains(&b));
    assert!(!set.contains(&unit()));
    assert!(same(set.get(0), &a));
    assert!(same(set.get(1), &b));
}

#[test]
fn new_shape_is_clear() {
    let s = Bitfield3D::new(2, 3, 4);
    assert_eq!(s.data.len(), 24);
    assert_eq!(popcount(&s), 0);
    assert!(s.is_inside(1, 2, 3));
    assert!(!s.is_inside(2, 0, 0));
    assert!(!s.is_inside(0, -1, 0));
    assert_eq!(s.index_unchecked(1, 2, 3), 23);
    assert_eq!(s.index_unchecked(0, 1, 2), 6);
}

#[test]
fn set_and_get_one_cell() {
    let mut s = Bitfield3D::new(2, 2, 2);
    s.set_unchecked(1, 0, 1, true);
    assert!(s.get_unchecked(1, 0, 1));
    assert!(!s.get_unchecked(0, 0, 1));
    assert_eq!(s.data[5], true);
    s.set_unchecked(1, 0, 1, false);
    assert_eq!(popcount(&s), 0);
}

#[test]
fn neighbour_test_sees_faces_only() {
    let s = unit();
    assert!(s.has_set_neighbor(1, 0, 0));
    assert!(s.has_set_neighbor(0, 0, -1));
    assert!(!s.has_set_neighbor(1, 1, 0));
    assert!(!s.has_set_neighbor(-1, -1, -1));
}

#[test]
fn render_draws_slices_between_marks() {
    let l = from_cells(2, 2, 1, &[(0, 0, 0), (1, 0, 0), (1, 1, 0)]);
    assert_eq!(l.render(), "\u{2c7}\u{2c7}\n11\n01\n^^\n");
    let column = from_cells(1, 1, 2, &[(0, 0, 1)]);
    assert_eq!(column.render(), "\u{2c7}\n0\n-\n1\n^\n");
}

#[test]
fn adding_then_removing_a_cell_gives_back_the_shape() {
    let l = from_cells(2, 2, 1, &[(0, 0, 0), (1, 0, 0), (1, 1, 0)]);
    // add the cell just below the box along z, then take it away again
    let mut grown = l.grow_to_fit(0, 0, -1);
    grown.set_unchecked(0, 0, 0, true);
    assert_eq!(popcount(&grown), 4);
    grown.set_unchecked(0, 0, 0, false);
    let mut back = Bitfield3D::new(2, 2, 1);
    for x in 0..2 {
        for y in 0..2 {
            back.set_unchecked(x, y, 0, grown.get_unchecked(x, y, 1));
        }
    }
    assert!(same(&back, &l));
    assert!(same(&back.create_canonical(), &l.create_canonical()));
}

#[test]
fn is_filled_is_false_outside_the_box() {
    let s = from_cells(2, 1, 1, &[(1, 0, 0)]);
    assert!(s.is_filled(1, 0, 0));
    assert!(!s.is_filled(0, 0, 0));
    assert!(!s.is_filled(2, 0, 0));
    assert!(!s.is_filled(-1, 0, 0));
    assert!(!s.has_set_neighbor(isize::MAX, 0, 0));
    assert!(!s.has_set_neighbor(isize::MIN, 0, 0));
    assert!(s.has_set_neighbor(2, 0, 0));
}
