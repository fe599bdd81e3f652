use room_search::budget::{budgeted_path, budgeted_solution_path, explore_budgeted};
use room_search::coord::Direction;
use room_search::parse::parse_init;
use room_search::room::{RoomImmut, RoomMut};
use room_search::rules::resulting_room_mut;
use room_search::search::shortest_path;

fn budget_level(map: &str) -> (RoomImmut, RoomMut) {
    parse_init(map.as_bytes()).unwrap()
}

#[test]
fn budget_of_one_reaches_the_next_cell() {
    let (i, m) = budget_level("@G");
    let s = budgeted_path(&i, &m, 1).unwrap();
    assert_eq!(s.steps_left, 0);
    assert_eq!(s.path.start, m);
    assert_eq!(s.path.steps.len(), 1);
    assert_eq!(s.path.steps[0].direction, Direction::Right);
}

#[test]
fn budget_of_nothing_allows_no_move() {
    let (i, m) = budget_level("@G");
    assert_eq!(budgeted_path(&i, &m, 0), None);
    let search = explore_budgeted(&i, &m, 0);
    assert_eq!(search.best, None);
    assert_eq!(search.graph.table.len(), 1);
    assert_eq!(search.graph.table.get(&m).unwrap().steps_left, 0);
}

#[test]
fn leftover_is_the_budget_less_the_moves() {
    let (i, m) = budget_level("################|@    G|################");
    for budget in 5..12 {
        let s = budgeted_path(&i, &m, budget).unwrap();
        assert_eq!(s.path.steps.len(), 5);
        assert_eq!(s.steps_left, budget - 5);
        let directions: Vec<Direction> = s.path.steps.iter().map(|p| p.direction).collect();
        assert_eq!(directions, vec![Direction::Right; 5]);
    }
}

#[test]
fn too_small_a_budget_finds_nothing() {
    let (i, m) = budget_level("################|@    G|################");
    for budget in 0..5 {
        assert_eq!(budgeted_path(&i, &m, budget), None);
    }
}

#[test]
fn budgeted_search_agrees_with_the_shortest_path() {
    let maps = [
        "@ O G",
        "@O O G|  O",
        "################|#@ O   #|# O#O  #|#  O  G#|########",
        "################|#@$O   #|# O#$  #|#K O L G|########",
        "####|#@ #|#O #|# G#|####",
        "######|#@O G#|#O$$##|# $  #|######",
        "#######|#K  O #|# #O# #|#@O L G|#######",
    ];
    for map in maps {
        let (i, m) = budget_level(map);
        let shortest = shortest_path(&i, &m).map(|p| p.steps.len());
        for budget in 0..14u32 {
            let found = budgeted_path(&i, &m, budget);
            match shortest {
                Some(n) if n <= budget as usize => {
                    let s = found.unwrap();
                    assert_eq!(s.path.steps.len(), n, "map {map} budget {budget}");
                    assert_eq!(s.steps_left as usize, budget as usize - n);
                    let mut room = s.path.start;
                    assert_eq!(room, m);
                    for step in &s.path.steps {
                        room = resulting_room_mut(&i, &room, step.direction).unwrap();
                        assert_eq!(room, step.room);
                    }
                    assert_eq!(room.player_at, i.goal_at);
                },
                _ => assert_eq!(found, None, "map {map} budget {budget}"),
            }
        }
    }
}

#[test]
fn every_record_is_one_move_from_its_predecessor() {
    let (i, m) = budget_level("################|#@$O   #|# O#$  #|#K O L G|########");
    let search = explore_budgeted(&i, &m, 9);
    assert_eq!(search.graph.root, m);
    assert_eq!(search.graph.budget, 9);
    let root = search.graph.table.get(&m).unwrap();
    assert_eq!(root.edge, None);
    assert_eq!(root.steps_left, 9);
    for (room, visit) in search.graph.table.iter() {
        if *room == m {
            continue;
        }
        let edge = visit.edge.unwrap();
        assert_eq!(resulting_room_mut(&i, &edge.predecessor, edge.step_direction), Some(*room));
        let before = search.graph.table.get(&edge.predecessor).unwrap();
        assert_eq!(before.steps_left, visit.steps_left + 1);
        let path = budgeted_solution_path(&i, room, &search.graph);
        assert_eq!(path.steps.len() as u32 + visit.steps_left, 9);
    }
}

#[test]
fn best_room_leaves_the_most_moves() {
    let (i, m) = budget_level("################|#@ O   #|# O#O  #|#  O  G#|########");
    let search = explore_budgeted(&i, &m, 12);
    let best = search.best.unwrap();
    assert_eq!(best.player_at, i.goal_at);
    let most = search.graph.table.get(&best).unwrap().steps_left;
    for (room, visit) in search.graph.table.iter() {
        if room.player_at == i.goal_at && *room != m {
            assert!(visit.steps_left <= most);
        }
    }
}
