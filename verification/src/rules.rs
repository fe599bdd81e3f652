//! The move rules: which moves are legal in a room, and what room results.
//!
//! A move in some direction is a step onto the neighbouring cell when that
//! cell is free. When a rock or a skeleton stands there, the move is a kick:
//! the player stays where they are and the kicked piece is pushed one cell
//! further. A rock that cannot be pushed stays, and the move is illegal; a
//! skeleton that cannot be pushed is destroyed.

use crate::coord::{Coord, Direction};
use crate::room::{RoomImmut, RoomMut};
use vstd::prelude::*;

verus! {

/// Whether the lock is shut: the level has a key, and the player has not
/// picked it up. In a level without a key the lock is open floor.
pub open spec fn locked(i: RoomImmut, m: RoomMut) -> bool {
    !m.got_key && i.key_at is Some
}

/// Whether something in cell `c` stops the player and kicked pieces: a wall,
/// a rock, a skeleton, or the lock while it is shut.
pub open spec fn obstructed(i: RoomImmut, m: RoomMut, c: Coord) -> bool {
    ||| i.walls_at@.contains(c)
    ||| m.rocks_at@.contains(c)
    ||| m.skelly_at@.contains(c)
    ||| (locked(i, m) && i.lock_at == Some(c))
}

/// The room after the player walks onto the free cell `to`.
pub open spec fn after_walk(i: RoomImmut, m: RoomMut, to: Coord) -> RoomMut {
    RoomMut {
        player_at: to,
        got_key: m.got_key || i.key_at == Some(to),
        odd_moves_made: !m.odd_moves_made,
        ..m
    }
}

/// The room after the rock at `from` is kicked to the free cell `to`.
pub open spec fn after_rock_kick(m: RoomMut, from: Coord, to: Coord) -> RoomMut {
    RoomMut {
        rocks_at: m.rocks_at.without(from).with(to),
        odd_moves_made: !m.odd_moves_made,
        ..m
    }
}

/// The room after the skeleton at `from` is kicked: it lands on `to` when
/// there is such a free cell, and is destroyed otherwise.
pub open spec fn after_skelly_kick(m: RoomMut, from: Coord, to: Option<Coord>) -> RoomMut {
    RoomMut {
        skelly_at: match to {
            Some(t) => m.skelly_at.without(from).with(t),
            None => m.skelly_at.without(from),
        },
        odd_moves_made: !m.odd_moves_made,
        ..m
    }
}

/// The cell a piece kicked from `from` in direction `d` lands on: the next
/// cell, if it is on the grid and nothing obstructs it.
pub open spec fn landing(i: RoomImmut, m: RoomMut, from: Coord, d: Direction) -> Option<Coord> {
    match from.stepped(d) {
        Some(to) => if obstructed(i, m, to) {
            None
        } else {
            Some(to)
        },
        None => None,
    }
}

/// The room that results from the move `d` in room `m`, or `None` when the
/// move is illegal.
#[verifier::opaque]
pub open spec fn room_after(i: RoomImmut, m: RoomMut, d: Direction) -> Option<RoomMut> {
    match m.player_at.stepped(d) {
        None => None,
        Some(step1) => if !obstructed(i, m, step1) {
            Some(after_walk(i, m, step1))
        } else if m.rocks_at@.contains(step1) {
            match landing(i, m, step1, d) {
                Some(step2) => Some(after_rock_kick(m, step1, step2)),
                None => None,
            }
        } else if m.skelly_at@.contains(step1) {
            Some(after_skelly_kick(m, step1, landing(i, m, step1, d)))
        } else {
            None
        },
    }
}

/// Every legal move leaves the player on the grid.
pub proof fn lemma_room_after_wf(i: RoomImmut, m: RoomMut, d: Direction)
    requires
        m.wf(),
    ensures
        room_after(i, m, d) matches Some(n) ==> n.wf(),
{
    reveal(room_after);
}

/// Every legal move flips the parity of the number of moves made.
pub proof fn law_move_flips_parity(i: RoomImmut, m: RoomMut, d: Direction)
    ensures
        room_after(i, m, d) matches Some(n) ==> n.odd_moves_made == !m.odd_moves_made,
{
    reveal(room_after);
}

/// In a level without a key the lock stops nothing: only walls, rocks and
/// skeletons obstruct a cell.
pub proof fn law_lock_without_key_is_floor(i: RoomImmut, m: RoomMut, c: Coord)
    requires
        i.key_at is None,
    ensures
        obstructed(i, m, c) == (i.walls_at@.contains(c) || m.rocks_at@.contains(c)
            || m.skelly_at@.contains(c)),
{
}

/// A move onto a free cell takes the player there, picks up the key if it
/// lies there, and leaves every rock and skeleton where it was.
pub proof fn law_walk_moves_player(i: RoomImmut, m: RoomMut, d: Direction)
    requires
        m.player_at.stepped(d) matches Some(step1) && !obstructed(i, m, step1),
    ensures
        room_after(i, m, d) matches Some(n) && {
            &&& Some(n.player_at) == m.player_at.stepped(d)
            &&& n.got_key == (m.got_key || i.key_at == Some(n.player_at))
            &&& n.rocks_at == m.rocks_at
            &&& n.skelly_at == m.skelly_at
        },
{
    reveal(room_after);
}

/// A key once picked up is kept by every move.
pub proof fn law_key_is_kept(i: RoomImmut, m: RoomMut, d: Direction)
    requires
        m.got_key,
    ensures
        room_after(i, m, d) matches Some(n) ==> n.got_key,
{
    reveal(room_after);
}

/// A kick leaves the player in place and the key flag as it was, and moves
/// nothing but the kicked piece: a rock goes from the cell in front of the
/// player to the cell behind it; a skeleton does the same, or disappears
/// when it has nowhere to go.
pub proof fn law_kick_keeps_player(i: RoomImmut, m: RoomMut, d: Direction)
    requires
        m.wf(),
        m.player_at.stepped(d) matches Some(step1) && obstructed(i, m, step1),
        room_after(i, m, d) is Some,
    ensures
        ({
            let n = room_after(i, m, d)->Some_0;
            let step1 = m.player_at.stepped(d)->Some_0;
            &&& n.player_at == m.player_at
            &&& n.got_key == m.got_key
            &&& n.odd_moves_made == !m.odd_moves_made
            &&& if m.rocks_at@.contains(step1) {
                &&& step1.stepped(d) matches Some(step2)
                &&& !obstructed(i, m, step2)
                &&& n.rocks_at@ == m.rocks_at@.remove(step1).insert(step2)
                &&& n.skelly_at == m.skelly_at
            } else {
                &&& m.skelly_at@.contains(step1)
                &&& n.rocks_at == m.rocks_at
                &&& n.skelly_at@ == match step1.stepped(d) {
                    Some(step2) => if obstructed(i, m, step2) {
                        m.skelly_at@.remove(step1)
                    } else {
                        m.skelly_at@.remove(step1).insert(step2)
                    },
                    None => m.skelly_at@.remove(step1),
                }
            }
        }),
{
    reveal(room_after);
    let step1 = m.player_at.stepped(d)->Some_0;
    assert(step1.in_bounds());
    m.rocks_at.lemma_without(step1);
    m.skelly_at.lemma_without(step1);
    match step1.stepped(d) {
        Some(step2) => {
            assert(step2.in_bounds());
            m.rocks_at.without(step1).lemma_with(step2);
            m.skelly_at.without(step1).lemma_with(step2);
        },
        None => {},
    }
}

/// A rock cannot be kicked off the grid, into a wall, into another rock or
/// a skeleton, or into the lock while it is shut: such a move is illegal.
pub proof fn law_blocked_rock_stays(i: RoomImmut, m: RoomMut, d: Direction)
    requires
        m.player_at.stepped(d) matches Some(step1) && m.rocks_at@.contains(step1) && (
        step1.stepped(d) matches Some(step2) ==> obstructed(i, m, step2)),
    ensures
        room_after(i, m, d) is None,
{
    reveal(room_after);
}

pub fn coord_obstructed(i: &RoomImmut, m: &RoomMut, c: Coord) -> (b: bool)
    requires
        c.in_bounds(),
    ensures
        b == obstructed(*i, *m, c),
{
    i.walls_at.contains(c) || m.rocks_at.contains(c) || m.skelly_at.contains(c) || (!m.got_key
        && i.key_at.is_some() && Some(c) == i.lock_at)
}

/// Applies the move `direction` to room `m`.
pub fn resulting_room_mut(i: &RoomImmut, m: &RoomMut, direction: Direction) -> (r: Option<RoomMut>)
    requires
        m.wf(),
    ensures
        r == room_after(*i, *m, direction),
        r matches Some(n) ==> n.wf(),
{
    proof {
        reveal(room_after);
    }
    let step1 = match m.player_at.take_step(direction) {
        Some(c) => c,
        None => {
            return None;
        },
    };
    if !coord_obstructed(i, m, step1) {
        let mut new = *m;
        new.odd_moves_made = !new.odd_moves_made;
        new.player_at = step1;
        if Some(new.player_at) == i.key_at {
            new.got_key = true;
        }
        return Some(new);
    }
    let step2 = match step1.take_step(direction) {
        Some(c) => if coord_obstructed(i, m, c) {
            None
        } else {
            Some(c)
        },
        None => None,
    };
    if m.rocks_at.contains(step1) {
        match step2 {
            Some(to) => {
                let mut new = *m;
                new.odd_moves_made = !new.odd_moves_made;
                new.rocks_at.remove(step1);
                new.rocks_at.insert(to);
                Some(new)
            },
            None => None,
        }
    } else if m.skelly_at.contains(step1) {
        let mut new = *m;
        new.odd_moves_made = !new.odd_moves_made;
        new.skelly_at.remove(step1);
        match step2 {
            Some(to) => {
                new.skelly_at.insert(to);
            },
            None => {},
        }
        Some(new)
    } else {
        None
    }
}

} // verus!
