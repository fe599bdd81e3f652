use room_search::budget::budgeted_path;
use room_search::coord::Direction;
use room_search::parse::parse_init;
use room_search::phased::phased_path;
use room_search::room::{RoomImmut, RoomMut};
use room_search::rules::resulting_room_mut;
use room_search::search::shortest_path;
use std::collections::{HashMap, HashSet};

/// A small generator of repeatable pseudo-random numbers.
struct Dice(u64);

impl Dice {
    fn roll(&mut self, sides: u64) -> u64 {
        self.0 ^= self.0 << 13;
        self.0 ^= self.0 >> 7;
        self.0 ^= self.0 << 17;
        self.0 % sides
    }
}

/// A walled box of `width` by `height` cells with pieces thrown in.
fn random_map(dice: &mut Dice, width: usize, height: usize, spikes: bool) -> Vec<u8> {
    let mut cells = vec![vec![b' '; width]; height];
    for row in cells.iter_mut() {
        for cell in row.iter_mut() {
            *cell = match dice.roll(12) {
                0 | 1 => b'#',
                2 | 3 => b'O',
                4 => b'$',
                5 if spikes => b',',
                6 if spikes => b'.',
                _ => b' ',
            };
        }
    }
    for glyph in [b'K', b'L', b'G', b'@'] {
        if glyph == b'K' && dice.roll(3) == 0 {
            continue;
        }
        let x = dice.roll(width as u64) as usize;
        let y = dice.roll(height as u64) as usize;
        cells[y][x] = glyph;
    }
    if !cells.iter().flatten().any(|c| *c == b'G') {
        cells[0][0] = b'G';
    }
    if !cells.iter().flatten().any(|c| *c == b'@') {
        cells[height - 1][width - 1] = b'@';
    }
    let mut map = Vec::new();
    map.extend(std::iter::repeat(b'#').take(width + 2));
    map.push(b'|');
    for row in &cells {
        map.push(b'#');
        map.extend(row);
        map.push(b'#');
        map.push(b'|');
    }
    map.extend(std::iter::repeat(b'#').take(width + 2));
    map
}

fn is_goal(i: &RoomImmut, init: &RoomMut, m: &RoomMut) -> bool {
    m.player_at == i.goal_at && m != init
}

/// The least number of moves to a solved room, by plain exhaustive search.
fn fewest_moves(i: &RoomImmut, init: &RoomMut) -> Option<usize> {
    let mut seen = HashSet::new();
    seen.insert(*init);
    let mut level = vec![*init];
    let mut moves = 0;
    while !level.is_empty() {
        moves += 1;
        let mut next = Vec::new();
        for room in &level {
            for d in Direction::all_directions() {
                if let Some(n) = resulting_room_mut(i, room, d) {
                    if seen.insert(n) {
                        next.push(n);
                    }
                }
            }
        }
        if next.iter().any(|n| is_goal(i, init, n)) {
            return Some(moves);
        }
        level = next;
    }
    None
}

/// The fewest rounds that any solution spends before its last move, where a
/// move that ends on spikes that are up takes two rounds.
fn fewest_rounds_before_last(i: &RoomImmut, init: &RoomMut) -> Option<usize> {
    let mut due: HashMap<RoomMut, usize> = HashMap::new();
    due.insert(*init, 0);
    let mut settled: HashSet<RoomMut> = HashSet::new();
    loop {
        let next = due
            .iter()
            .filter(|(room, _)| !settled.contains(*room))
            .min_by_key(|(_, round)| **round)
            .map(|(room, round)| (*room, *round));
        let (room, round) = next?;
        settled.insert(room);
        for d in Direction::all_directions() {
            if let Some(n) = resulting_room_mut(i, &room, d) {
                if is_goal(i, init, &n) {
                    return Some(round);
                }
                let spikes = if n.odd_moves_made { &i.odd_spikes_at } else { &i.even_spikes_at };
                let toll = if spikes.contains(n.player_at) { 2 } else { 1 };
                let entry = due.entry(n).or_insert(round + toll);
                if *entry > round + toll {
                    *entry = round + toll;
                }
            }
        }
    }
}

fn check_walk(i: &RoomImmut, init: &RoomMut, path: &room_search::path::SolutionPath) {
    let mut room = path.start;
    assert_eq!(room, *init);
    for step in &path.steps {
        room = resulting_room_mut(i, &room, step.direction).unwrap();
        assert_eq!(room, step.room);
    }
    assert!(is_goal(i, init, &room));
}

#[test]
fn random_levels_agree_with_exhaustive_search() {
    let mut dice = Dice(0x9e37_79b9_7f4a_7c15);
    let mut solved = 0;
    for round in 0..150 {
        let width = 3 + dice.roll(3) as usize;
        let height = 2 + dice.roll(2) as usize;
        let map = random_map(&mut dice, width, height, false);
        let (i, m) = parse_init(&map).unwrap();
        let expected = fewest_moves(&i, &m);
        let found = shortest_path(&i, &m);
        assert_eq!(found.as_ref().map(|p| p.steps.len()), expected, "level {round}");
        if let Some(path) = &found {
            solved += 1;
            check_walk(&i, &m, path);
        }
        let phased = phased_path(&i, &m);
        assert_eq!(phased.map(|p| p.steps), found.map(|p| p.steps), "level {round}");
    }
    assert!(solved > 20);
}

#[test]
fn random_levels_within_budget() {
    let mut dice = Dice(0x2545_f491_4f6c_dd1d);
    for round in 0..60 {
        let width = 3 + dice.roll(2) as usize;
        let height = 2 + dice.roll(2) as usize;
        let map = random_map(&mut dice, width, height, false);
        let (i, m) = parse_init(&map).unwrap();
        let expected = fewest_moves(&i, &m);
        for budget in [0u32, 1, 2, 3, 5, 8, 12] {
            let found = budgeted_path(&i, &m, budget);
            match expected {
                Some(n) if n <= budget as usize => {
                    let s = found.unwrap();
                    assert_eq!(s.path.steps.len(), n, "level {round} budget {budget}");
                    assert_eq!(s.steps_left as usize + n, budget as usize);
                    check_walk(&i, &m, &s.path);
                },
                _ => assert_eq!(found, None, "level {round} budget {budget}"),
            }
        }
    }
}

#[test]
fn random_levels_with_spikes() {
    let mut dice = Dice(0x1234_5678_9abc_def1);
    let mut solved = 0;
    for round in 0..150 {
        let width = 3 + dice.roll(3) as usize;
        let height = 2 + dice.roll(2) as usize;
        let map = random_map(&mut dice, width, height, true);
        let (i, m) = parse_init(&map).unwrap();
        let expected = fewest_rounds_before_last(&i, &m);
        let found = phased_path(&i, &m);
        assert_eq!(found.is_some(), expected.is_some(), "level {round}");
        if let Some(path) = found {
            solved += 1;
            check_walk(&i, &m, &path);
            let mut rounds = 0;
            for step in &path.steps[..path.steps.len() - 1] {
                let spikes =
                    if step.room.odd_moves_made { &i.odd_spikes_at } else { &i.even_spikes_at };
                rounds += if spikes.contains(step.room.player_at) { 2 } else { 1 };
            }
            assert_eq!(Some(rounds), expected, "level {round}");
        }
    }
    assert!(solved > 20);
}
