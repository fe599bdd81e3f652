use room_search::coord::{Coord, Direction};
use room_search::parse::parse_init;
use room_search::room::{RoomImmut, RoomMut};
use room_search::rules::{coord_obstructed, resulting_room_mut};

fn room_of(map: &str) -> (RoomImmut, RoomMut) {
    parse_init(map.as_bytes()).unwrap()
}

fn at(x: u8, y: u8) -> Coord {
    Coord::new(x, y).unwrap()
}

#[test]
fn walking_moves_the_player_and_flips_the_parity() {
    let (i, m) = room_of("@ G");
    let n = resulting_room_mut(&i, &m, Direction::Right).unwrap();
    assert_eq!(n.player_at, at(1, 0));
    assert!(n.odd_moves_made);
    assert!(!n.got_key);
    assert_eq!(n.rocks_at, m.rocks_at);
    assert_eq!(n.skelly_at, m.skelly_at);
    let back = resulting_room_mut(&i, &n, Direction::Left).unwrap();
    assert_eq!(back, m);
}

#[test]
fn walking_in_each_direction() {
    let (i, m) = room_of("   |  @|  G");
    assert_eq!(resulting_room_mut(&i, &m, Direction::Up).unwrap().player_at, at(2, 0));
    assert_eq!(resulting_room_mut(&i, &m, Direction::Down).unwrap().player_at, at(2, 2));
    assert_eq!(resulting_room_mut(&i, &m, Direction::Left).unwrap().player_at, at(1, 1));
    assert_eq!(resulting_room_mut(&i, &m, Direction::Right).unwrap().player_at, at(3, 1));
}

#[test]
fn leaving_the_grid_is_illegal() {
    let (i, m) = room_of("@G");
    assert_eq!(resulting_room_mut(&i, &m, Direction::Left), None);
    assert_eq!(resulting_room_mut(&i, &m, Direction::Up), None);
}

#[test]
fn walls_stop_the_player() {
    let (i, m) = room_of("@#G");
    assert!(coord_obstructed(&i, &m, at(1, 0)));
    assert!(!coord_obstructed(&i, &m, at(2, 0)));
    assert_eq!(resulting_room_mut(&i, &m, Direction::Right), None);
}

#[test]
fn stepping_on_the_key_picks_it_up_for_good() {
    let (i, m) = room_of("@K G");
    let with_key = resulting_room_mut(&i, &m, Direction::Right).unwrap();
    assert!(with_key.got_key);
    let back = resulting_room_mut(&i, &with_key, Direction::Left).unwrap();
    assert!(back.got_key);
    let again = resulting_room_mut(&i, &back, Direction::Right).unwrap();
    assert!(again.got_key);
    let below = resulting_room_mut(&i, &again, Direction::Down).unwrap();
    assert!(below.got_key);
}

#[test]
fn kicked_rock_moves_and_player_stays() {
    let (i, m) = room_of("@O G");
    let n = resulting_room_mut(&i, &m, Direction::Right).unwrap();
    assert_eq!(n.player_at, m.player_at);
    assert!(n.odd_moves_made);
    assert!(!n.rocks_at.contains(at(1, 0)));
    assert!(n.rocks_at.contains(at(2, 0)));
    assert_eq!(n.skelly_at, m.skelly_at);
    assert_eq!(n.got_key, m.got_key);
}

#[test]
fn rock_against_a_wall_cannot_be_kicked() {
    let (i, m) = room_of("@O#G");
    assert_eq!(resulting_room_mut(&i, &m, Direction::Right), None);
}

#[test]
fn rock_against_a_rock_or_a_skeleton_cannot_be_kicked() {
    let (i, m) = room_of("@OOG");
    assert_eq!(resulting_room_mut(&i, &m, Direction::Right), None);
    let (i, m) = room_of("@O$G");
    assert_eq!(resulting_room_mut(&i, &m, Direction::Right), None);
}

#[test]
fn rock_against_the_shut_lock_cannot_be_kicked() {
    let (i, m) = room_of("@OLG|K");
    assert_eq!(resulting_room_mut(&i, &m, Direction::Right), None);
    let mut with_key = m;
    with_key.got_key = true;
    let n = resulting_room_mut(&i, &with_key, Direction::Right).unwrap();
    assert!(n.rocks_at.contains(at(2, 0)));
    assert_eq!(n.player_at, m.player_at);
}

#[test]
fn rock_at_the_edge_cannot_be_kicked_off_the_grid() {
    let (i, m) = room_of("O|@|G");
    assert_eq!(resulting_room_mut(&i, &m, Direction::Up), None);
}

#[test]
fn kicked_skeleton_moves_when_it_can() {
    let (i, m) = room_of("@$ G");
    let n = resulting_room_mut(&i, &m, Direction::Right).unwrap();
    assert_eq!(n.player_at, m.player_at);
    assert!(n.odd_moves_made);
    assert!(!n.skelly_at.contains(at(1, 0)));
    assert!(n.skelly_at.contains(at(2, 0)));
    assert_eq!(n.rocks_at, m.rocks_at);
}

#[test]
fn kicked_skeleton_is_destroyed_when_it_cannot_move() {
    for map in ["@$#G", "@$OG", "@$$G", "@$LG|K"] {
        let (i, m) = room_of(map);
        let n = resulting_room_mut(&i, &m, Direction::Right).unwrap();
        assert_eq!(n.player_at, m.player_at);
        assert!(n.odd_moves_made);
        assert!(!n.skelly_at.contains(at(1, 0)));
        assert_eq!(n.skelly_at.contains(at(2, 0)), m.skelly_at.contains(at(2, 0)));
        assert_eq!(n.rocks_at, m.rocks_at);
    }
}

#[test]
fn skeleton_kicked_towards_the_edge_is_destroyed() {
    let (i, m) = room_of("$|@|G");
    let n = resulting_room_mut(&i, &m, Direction::Up).unwrap();
    assert_eq!(n.player_at, m.player_at);
    assert!(!n.skelly_at.contains(at(0, 0)));
    assert_eq!(n.skelly_at, room_search::coord_set::CoordSet::empty());
}

#[test]
fn shut_lock_stops_the_player_until_the_key_is_held() {
    let (i, m) = room_of("@LG|K");
    assert!(coord_obstructed(&i, &m, at(1, 0)));
    assert_eq!(resulting_room_mut(&i, &m, Direction::Right), None);
    let with_key = resulting_room_mut(&i, &m, Direction::Down).unwrap();
    assert!(with_key.got_key);
    let back = resulting_room_mut(&i, &with_key, Direction::Up).unwrap();
    assert!(!coord_obstructed(&i, &back, at(1, 0)));
    let through = resulting_room_mut(&i, &back, Direction::Right).unwrap();
    assert_eq!(through.player_at, at(1, 0));
}

#[test]
fn lock_without_any_key_is_open_floor() {
    let (i, m) = room_of("@LG");
    assert_eq!(i.key_at, None);
    assert!(!coord_obstructed(&i, &m, at(1, 0)));
    let on_lock = resulting_room_mut(&i, &m, Direction::Right).unwrap();
    assert_eq!(on_lock.player_at, at(1, 0));
    let across = resulting_room_mut(&i, &on_lock, Direction::Right).unwrap();
    assert_eq!(across.player_at, at(2, 0));
}

#[test]
fn spikes_do_not_stop_the_player() {
    let (i, m) = room_of("@,.G");
    let n = resulting_room_mut(&i, &m, Direction::Right).unwrap();
    assert_eq!(n.player_at, at(1, 0));
    let n = resulting_room_mut(&i, &n, Direction::Right).unwrap();
    assert_eq!(n.player_at, at(2, 0));
}
