use room_search::coord::{Coord, Direction};
use room_search::parse::parse_init;
use room_search::path::SolutionPath;
use room_search::room::{RoomImmut, RoomMut};
use room_search::rules::resulting_room_mut;
use room_search::search::{explore_shortest, shortest_path, solution_path};
use std::collections::HashSet;

fn level(map: &str) -> (RoomImmut, RoomMut) {
    parse_init(map.as_bytes()).unwrap()
}

fn moves_of(path: &SolutionPath) -> Vec<Direction> {
    path.steps.iter().map(|s| s.direction).collect()
}

/// Replays a path move by move and checks each recorded room.
fn replay(i: &RoomImmut, path: &SolutionPath) -> RoomMut {
    let mut room = path.start;
    for step in &path.steps {
        room = resulting_room_mut(i, &room, step.direction).unwrap();
        assert_eq!(room, step.room);
    }
    room
}

/// The least number of moves after which some room other than the start has
/// the player on the goal, found by trying every room level by level.
fn least_moves(i: &RoomImmut, init: &RoomMut) -> Option<usize> {
    let mut seen = HashSet::new();
    seen.insert(*init);
    let mut level = vec![*init];
    let mut moves = 0;
    while !level.is_empty() {
        moves += 1;
        let mut next = Vec::new();
        for room in &level {
            for d in Direction::all_directions() {
                if let Some(n) = resulting_room_mut(i, room, d) {
                    if seen.insert(n) {
                        next.push(n);
                    }
                }
            }
        }
        if next.iter().any(|n| n.player_at == i.goal_at) {
            return Some(moves);
        }
        level = next;
    }
    None
}

#[test]
fn player_next_to_the_goal_needs_one_move() {
    let (i, m) = level("@G");
    let path = shortest_path(&i, &m).unwrap();
    assert_eq!(path.start, m);
    assert_eq!(moves_of(&path), vec![Direction::Right]);
    assert_eq!(path.steps[0].room.player_at, Coord::new(1, 0).unwrap());
    assert_eq!(replay(&i, &path).player_at, i.goal_at);
}

#[test]
fn straight_corridor_is_walked_straight() {
    let (i, m) = level("################|@    G|################");
    let path = shortest_path(&i, &m).unwrap();
    assert_eq!(moves_of(&path), vec![Direction::Right; 5]);
    assert_eq!(replay(&i, &path).player_at, i.goal_at);
}

#[test]
fn enclosed_player_has_no_solution() {
    let (i, m) = level("@#  G|##");
    assert_eq!(shortest_path(&i, &m), None);
    let search = explore_shortest(&i, &m);
    assert_eq!(search.goal, None);
    assert_eq!(search.graph.table.len(), 1);
}

#[test]
fn walled_off_goal_has_no_solution() {
    let (i, m) = level("###|#G#|###|@");
    assert_eq!(shortest_path(&i, &m), None);
    let search = explore_shortest(&i, &m);
    assert_eq!(search.goal, None);
    // the player can stand on every cell but the nine of the walled block;
    // whether the number of moves is odd follows from the cell
    assert_eq!(search.graph.table.len(), 128 - 9);
}

#[test]
fn rock_in_the_corridor_is_kicked_ahead() {
    let (i, m) = level("################|@O  G|################");
    let path = shortest_path(&i, &m).unwrap();
    assert_eq!(replay(&i, &path).player_at, i.goal_at);
    assert_eq!(Some(path.steps.len()), least_moves(&i, &m));
    // the rock has to end beyond the goal: four kicks, each from the cell
    // next to the rock, and the four steps of the way
    assert_eq!(
        moves_of(&path),
        vec![Direction::Right; 8]
    );
    let end = replay(&i, &path);
    assert!(end.rocks_at.contains(Coord::new(5, 1).unwrap()));
}

#[test]
fn rock_that_cannot_move_blocks_the_corridor() {
    let (i, m) = level("################|@O#G|################");
    assert_eq!(shortest_path(&i, &m), None);
}

#[test]
fn key_is_fetched_before_the_lock() {
    let (i, m) = level("################|K@LG|################");
    let path = shortest_path(&i, &m).unwrap();
    assert_eq!(
        moves_of(&path),
        vec![Direction::Left, Direction::Right, Direction::Right, Direction::Right]
    );
    assert!(replay(&i, &path).got_key);
}

#[test]
fn lock_without_key_is_walked_across() {
    let (i, m) = level("################|@LG|################");
    let path = shortest_path(&i, &m).unwrap();
    assert_eq!(moves_of(&path), vec![Direction::Right, Direction::Right]);
}

#[test]
fn start_on_the_goal_is_not_a_solution_by_itself() {
    // the player starts on the goal (the later glyph wins the cell) and
    // cannot move: nothing new is ever seen
    let (i, m) = level("###|#@#|###|G");
    let mut i = i;
    i.goal_at = m.player_at;
    assert_eq!(shortest_path(&i, &m), None);
    // with a rock to kick, the kick leads to a new room with the player
    // still on the goal
    let (i, m) = level("####|#@O |####|G");
    let mut i = i;
    i.goal_at = m.player_at;
    let path = shortest_path(&i, &m).unwrap();
    assert_eq!(moves_of(&path), vec![Direction::Right]);
    assert_eq!(path.steps[0].room.player_at, m.player_at);
}

#[test]
fn shortest_path_matches_exhaustive_search() {
    let maps = [
        "@G",
        "@ O G",
        "@O O G|  O",
        "################|#@ O   #|# O#O  #|#  O  G#|########",
        "################|#@$O   #|# O#$  #|#K O L G|########",
        "####|#@ #|#O #|# G#|####",
        "########|#@ O  G|# O #|########",
        "######|#@O G#|#O$$##|# $  #|######",
        "#######|#K  O #|# #O# #|#@O L G|#######",
    ];
    for map in maps {
        let (i, m) = level(map);
        let expected = least_moves(&i, &m);
        let found = shortest_path(&i, &m);
        assert_eq!(found.as_ref().map(|p| p.steps.len()), expected, "map {map}");
        if let Some(path) = found {
            assert_eq!(path.start, m);
            let end = replay(&i, &path);
            assert_eq!(end.player_at, i.goal_at);
            assert_ne!(end, m);
        }
    }
}

#[test]
fn search_records_nothing_deeper_than_the_goal() {
    let (i, m) = level("################|#@ O   #|# O#O  #|#  O  G#|########");
    let search = explore_shortest(&i, &m);
    let goal = search.goal.unwrap();
    let depth = solution_path(&i, &goal, &search.graph).steps.len();
    assert_eq!(Some(depth), least_moves(&i, &m));
    for room in search.graph.table.keys() {
        let path = solution_path(&i, room, &search.graph);
        assert!(path.steps.len() <= depth);
        assert_eq!(path.start, m);
        assert_eq!(replay(&i, &path), *room);
    }
}

#[test]
fn graph_records_the_root_without_an_edge() {
    let (i, m) = level("@  G");
    let search = explore_shortest(&i, &m);
    assert_eq!(search.graph.root, m);
    assert_eq!(search.graph.table.get(&m), Some(&None));
    let goal = search.goal.unwrap();
    let edge = search.graph.table.get(&goal).unwrap().unwrap();
    assert_eq!(resulting_room_mut(&i, &edge.predecessor, edge.step_direction), Some(goal));
    let to_root = solution_path(&i, &m, &search.graph);
    assert_eq!(to_root.start, m);
    assert!(to_root.steps.is_empty());
}

/// Every sequence of `len` moves, in dictionary order.
fn sequences(len: usize) -> Vec<Vec<Direction>> {
    let mut all = vec![Vec::new()];
    for _ in 0..len {
        let mut longer = Vec::new();
        for shorter in &all {
            for d in Direction::all_directions() {
                let mut moves = shorter.clone();
                moves.push(d);
                longer.push(moves);
            }
        }
        all = longer;
    }
    all
}

fn run_moves(i: &RoomImmut, init: &RoomMut, moves: &[Direction]) -> Option<RoomMut> {
    let mut room = *init;
    for d in moves {
        room = resulting_room_mut(i, &room, *d)?;
    }
    Some(room)
}

#[test]
fn shortest_path_is_the_first_in_dictionary_order() {
    let maps = [
        "@G",
        "   | @ |   |G",
        "@  |   |  G",
        "  G|   |@",
        "@ O G",
        "####|#@ #|#O #|# G#|####",
        "@O|OG",
        "#####| @ |# # |# G",
    ];
    for map in maps {
        let (i, m) = level(map);
        let found = moves_of(&shortest_path(&i, &m).unwrap());
        assert!(found.len() <= 6);
        let first = sequences(found.len())
            .into_iter()
            .find(|moves| match run_moves(&i, &m, moves) {
                Some(end) => end.player_at == i.goal_at && end != m,
                None => false,
            })
            .unwrap();
        assert_eq!(found, first, "map {map}");
        for shorter in 0..found.len() {
            for moves in sequences(shorter) {
                if let Some(end) = run_moves(&i, &m, &moves) {
                    assert!(end.player_at != i.goal_at || end == m);
                }
            }
        }
    }
}
