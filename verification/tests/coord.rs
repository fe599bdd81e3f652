use room_search::coord::{Coord, Direction, ROOM_HEIGHT, ROOM_WIDTH};

#[test]
fn room_is_sixteen_by_eight() {
    assert_eq!(ROOM_WIDTH, 16);
    assert_eq!(ROOM_HEIGHT, 8);
}

#[test]
fn new_accepts_every_cell_of_the_grid() {
    for y in 0..8u8 {
        for x in 0..16u8 {
            assert_eq!(Coord::new(x, y), Some(Coord { x, y }));
        }
    }
}

#[test]
fn new_rejects_positions_off_the_grid() {
    assert_eq!(Coord::new(16, 0), None);
    assert_eq!(Coord::new(0, 8), None);
    assert_eq!(Coord::new(16, 8), None);
    assert_eq!(Coord::new(255, 255), None);
    assert_eq!(Coord::new(15, 7), Some(Coord { x: 15, y: 7 }));
}

#[test]
fn is_within_bounds_tells_grid_cells_apart() {
    assert!(Coord { x: 0, y: 0 }.is_within_bounds());
    assert!(Coord { x: 15, y: 7 }.is_within_bounds());
    assert!(!Coord { x: 16, y: 7 }.is_within_bounds());
    assert!(!Coord { x: 15, y: 8 }.is_within_bounds());
}

#[test]
fn take_step_moves_one_cell() {
    let c = Coord::new(5, 3).unwrap();
    assert_eq!(c.take_step(Direction::Left), Coord::new(4, 3));
    assert_eq!(c.take_step(Direction::Right), Coord::new(6, 3));
    assert_eq!(c.take_step(Direction::Up), Coord::new(5, 2));
    assert_eq!(c.take_step(Direction::Down), Coord::new(5, 4));
}

#[test]
fn take_step_stops_at_the_edges() {
    let top_left = Coord::new(0, 0).unwrap();
    assert_eq!(top_left.take_step(Direction::Left), None);
    assert_eq!(top_left.take_step(Direction::Up), None);
    assert_eq!(top_left.take_step(Direction::Right), Coord::new(1, 0));
    assert_eq!(top_left.take_step(Direction::Down), Coord::new(0, 1));
    let bottom_right = Coord::new(15, 7).unwrap();
    assert_eq!(bottom_right.take_step(Direction::Right), None);
    assert_eq!(bottom_right.take_step(Direction::Down), None);
    assert_eq!(bottom_right.take_step(Direction::Left), Coord::new(14, 7));
    assert_eq!(bottom_right.take_step(Direction::Up), Coord::new(15, 6));
}

#[test]
fn take_step_there_and_back() {
    for y in 0..8u8 {
        for x in 0..16u8 {
            let c = Coord::new(x, y).unwrap();
            if let Some(r) = c.take_step(Direction::Right) {
                assert_eq!(r.take_step(Direction::Left), Some(c));
            }
            if let Some(d) = c.take_step(Direction::Down) {
                assert_eq!(d.take_step(Direction::Up), Some(c));
            }
        }
    }
}

#[test]
fn all_directions_in_search_order() {
    assert_eq!(
        Direction::all_directions(),
        [Direction::Up, Direction::Down, Direction::Left, Direction::Right]
    );
}
