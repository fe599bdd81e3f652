use room_search::coord::Direction;
use room_search::parse::parse_init;
use room_search::phased::{explore_phased, phased_path};
use room_search::room::{RoomImmut, RoomMut};
use room_search::rules::resulting_room_mut;
use room_search::search::shortest_path;

fn spiked_level(map: &str) -> (RoomImmut, RoomMut) {
    parse_init(map.as_bytes()).unwrap()
}

fn directions_of(path: &room_search::path::SolutionPath) -> Vec<Direction> {
    path.steps.iter().map(|s| s.direction).collect()
}

/// The rounds a path takes before its last move: one for each move, and one
/// more for each move that ends on spikes that are up.
fn rounds_before_last(i: &RoomImmut, path: &room_search::path::SolutionPath) -> usize {
    let mut rounds = 0;
    for step in &path.steps[..path.steps.len() - 1] {
        let spikes = if step.room.odd_moves_made { &i.odd_spikes_at } else { &i.even_spikes_at };
        rounds += if spikes.contains(step.room.player_at) { 2 } else { 1 };
    }
    rounds
}

#[test]
fn without_spikes_the_path_is_a_shortest_one() {
    let maps = [
        "@G",
        "@ O G",
        "################|#@ O   #|# O#O  #|#  O  G#|########",
        "################|#@$O   #|# O#$  #|#K O L G|########",
        "#######|#K  O #|# #O# #|#@O L G|#######",
        "###|#G#|###|@",
    ];
    for map in maps {
        let (i, m) = spiked_level(map);
        let phased = phased_path(&i, &m);
        let shortest = shortest_path(&i, &m);
        assert_eq!(phased.map(|p| p.steps.len()), shortest.map(|p| p.steps.len()), "map {map}");
    }
}

#[test]
fn spikes_that_are_up_are_walked_around() {
    // the first step of the straight way ends on spikes that are up after an
    // odd number of moves; the way through the row below takes the same
    // rounds before the last move, and the straight way is found first
    let (i, m) = spiked_level("################|#@,  G      #|#           #|################");
    let path = phased_path(&i, &m).unwrap();
    assert_eq!(path.steps.len(), 4);
    assert_eq!(rounds_before_last(&i, &path), 4);
    // three such spikes on the straight way make it slower than the way
    // around, which has two moves more
    let (i, m) = spiked_level("################|#@, , ,G    #|#           #|################");
    let path = phased_path(&i, &m).unwrap();
    assert_eq!(path.steps.len(), 8);
    assert_eq!(rounds_before_last(&i, &path), 7);
    assert_eq!(
        directions_of(&path),
        vec![
            Direction::Down,
            Direction::Right,
            Direction::Right,
            Direction::Right,
            Direction::Right,
            Direction::Right,
            Direction::Right,
            Direction::Up
        ]
    );
    assert_eq!(shortest_path(&i, &m).unwrap().steps.len(), 6);
}

#[test]
fn spikes_that_are_down_cost_nothing() {
    let (i, m) = spiked_level("################|#@. .G      #|#           #|################");
    let path = phased_path(&i, &m).unwrap();
    assert_eq!(directions_of(&path), vec![Direction::Right; 4]);
    assert_eq!(rounds_before_last(&i, &path), 3);
}

#[test]
fn rooms_put_off_by_spikes_are_still_expanded() {
    // every way out of the start leads over spikes that are up
    let (i, m) = spiked_level("################|#@,G|################");
    let path = phased_path(&i, &m).unwrap();
    assert_eq!(directions_of(&path), vec![Direction::Right, Direction::Right]);
    let (i, m) = spiked_level("################|#@, G|################");
    let path = phased_path(&i, &m).unwrap();
    assert_eq!(directions_of(&path), vec![Direction::Right; 3]);
}

#[test]
fn phased_search_finds_no_way_to_a_walled_off_goal() {
    let (i, m) = spiked_level("###|#G#|###|@,.,");
    assert_eq!(phased_path(&i, &m), None);
    let search = explore_phased(&i, &m);
    assert_eq!(search.goal, None);
    assert_eq!(search.graph.table.len(), 128 - 9);
}

#[test]
fn phased_path_is_a_legal_walk() {
    let (i, m) = spiked_level("################|#@$O ,.#|# O#$., #|#K O L G|########");
    let path = phased_path(&i, &m).unwrap();
    let mut room = path.start;
    assert_eq!(room, m);
    for step in &path.steps {
        room = resulting_room_mut(&i, &room, step.direction).unwrap();
        assert_eq!(room, step.room);
    }
    assert_eq!(room.player_at, i.goal_at);
}
