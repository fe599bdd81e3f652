use room_search::coord::Coord;
use room_search::coord_set::{CoordSet, CELL_COUNT, WORD_BITS};

fn every_cell() -> Vec<Coord> {
    let mut cells = Vec::new();
    for y in 0..8u8 {
        for x in 0..16u8 {
            cells.push(Coord::new(x, y).unwrap());
        }
    }
    cells
}

#[test]
fn set_has_a_bit_for_every_cell() {
    assert_eq!(CELL_COUNT, 128);
    assert_eq!(WORD_BITS, 64);
    assert_eq!(every_cell().len(), CELL_COUNT);
}

#[test]
fn empty_set_contains_nothing() {
    let s = CoordSet::empty();
    assert_eq!(s.words, [0, 0]);
    for c in every_cell() {
        assert!(!s.contains(c));
    }
    assert_eq!(CoordSet::default(), s);
}

#[test]
fn insert_then_contains_and_remove_then_not() {
    for c in every_cell() {
        let mut s = CoordSet::empty();
        s.insert(c);
        assert!(s.contains(c));
        s.remove(c);
        assert!(!s.contains(c));
        assert_eq!(s, CoordSet::empty());
    }
}

#[test]
fn operations_on_other_cells_do_not_interact() {
    let a = Coord::new(3, 2).unwrap();
    let mut s = CoordSet::empty();
    s.insert(a);
    for c in every_cell() {
        if c != a {
            let mut t = s;
            t.insert(c);
            assert!(t.contains(a));
            t.remove(c);
            assert!(t.contains(a));
            assert!(!t.contains(c));
            assert_eq!(t, s);
        }
    }
}

#[test]
fn insert_and_remove_are_idempotent() {
    let a = Coord::new(9, 5).unwrap();
    let mut s = CoordSet::empty();
    s.remove(a);
    assert_eq!(s, CoordSet::empty());
    s.insert(a);
    let once = s;
    s.insert(a);
    assert_eq!(s, once);
}

#[test]
fn bit_index_counts_row_by_row() {
    assert_eq!(CoordSet::bit_index_of(Coord::new(0, 0).unwrap()), 0);
    assert_eq!(CoordSet::bit_index_of(Coord::new(3, 2).unwrap()), 35);
    assert_eq!(CoordSet::bit_index_of(Coord::new(15, 3).unwrap()), 63);
    assert_eq!(CoordSet::bit_index_of(Coord::new(0, 4).unwrap()), 64);
    assert_eq!(CoordSet::bit_index_of(Coord::new(15, 7).unwrap()), 127);
}

#[test]
fn major_minor_split_the_bit_index() {
    assert_eq!(CoordSet::major_minor_of(Coord::new(0, 0).unwrap()), [0, 0]);
    assert_eq!(CoordSet::major_minor_of(Coord::new(3, 2).unwrap()), [0, 35]);
    assert_eq!(CoordSet::major_minor_of(Coord::new(15, 3).unwrap()), [0, 63]);
    assert_eq!(CoordSet::major_minor_of(Coord::new(0, 4).unwrap()), [1, 0]);
    assert_eq!(CoordSet::major_minor_of(Coord::new(15, 7).unwrap()), [1, 63]);
}

#[test]
fn insert_sets_the_bit_of_the_cell() {
    let mut s = CoordSet::empty();
    s.insert(Coord::new(0, 0).unwrap());
    assert_eq!(s.words, [1, 0]);
    s.insert(Coord::new(15, 7).unwrap());
    assert_eq!(s.words, [1, 1 << 63]);
    s.insert(Coord::new(3, 2).unwrap());
    assert_eq!(s.words, [1 | (1 << 35), 1 << 63]);
    s.remove(Coord::new(0, 0).unwrap());
    assert_eq!(s.words, [1 << 35, 1 << 63]);
}

#[test]
fn sets_are_equal_when_their_bits_are() {
    let a = Coord::new(1, 1).unwrap();
    let b = Coord::new(2, 6).unwrap();
    let mut s = CoordSet::empty();
    s.insert(a);
    s.insert(b);
    let mut t = CoordSet::empty();
    t.insert(b);
    t.insert(a);
    assert_eq!(s, t);
    t.remove(a);
    assert_ne!(s, t);
}

#[test]
fn from_coords_collects_the_listed_cells() {
    let listed = [
        Coord::new(1, 1).unwrap(),
        Coord::new(15, 7).unwrap(),
        Coord::new(1, 1).unwrap(),
        Coord::new(0, 4).unwrap(),
    ];
    let s = CoordSet::from_coords(&listed);
    for c in every_cell() {
        assert_eq!(s.contains(c), listed.contains(&c));
    }
    assert_eq!(CoordSet::from_coords(&[]), CoordSet::empty());
}
