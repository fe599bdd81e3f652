//! Reading a room from its textual map.
//!
//! A map is a sequence of bytes. A `|` ends a row. Each glyph below stands
//! for one cell and moves the cursor one column to the right. Any other
//! byte, a line break for instance, is skipped.

use crate::coord::{Coord, ROOM_HEIGHT, ROOM_WIDTH};
use crate::coord_set::CoordSet;
use crate::room::{RoomImmut, RoomMut};
use vstd::prelude::*;

verus! {

/// `|`, the end of a row.
pub const GLYPH_ROW_END: u8 = 0x7c;

/// `#`, a wall.
pub const GLYPH_WALL: u8 = 0x23;

/// `O`, a rock.
pub const GLYPH_ROCK: u8 = 0x4f;

/// `$`, a skeleton.
pub const GLYPH_SKELLY: u8 = 0x24;

/// `,`, spikes that are up after odd moves.
pub const GLYPH_ODD_SPIKES: u8 = 0x2c;

/// `.`, spikes that are up after even moves.
pub const GLYPH_EVEN_SPIKES: u8 = 0x2e;

/// `G`, the goal.
pub const GLYPH_GOAL: u8 = 0x47;

/// `@`, the player's start.
pub const GLYPH_PLAYER: u8 = 0x40;

/// `K`, the key.
pub const GLYPH_KEY: u8 = 0x4b;

/// `L`, the lock.
pub const GLYPH_LOCK: u8 = 0x4c;

/// A blank, free floor.
pub const GLYPH_FLOOR: u8 = 0x20;

/// Whether a byte stands for a cell of the room.
pub open spec fn is_cell_glyph(b: u8) -> bool {
    ||| b == GLYPH_WALL
    ||| b == GLYPH_ROCK
    ||| b == GLYPH_SKELLY
    ||| b == GLYPH_ODD_SPIKES
    ||| b == GLYPH_EVEN_SPIKES
    ||| b == GLYPH_GOAL
    ||| b == GLYPH_PLAYER
    ||| b == GLYPH_KEY
    ||| b == GLYPH_LOCK
    ||| b == GLYPH_FLOOR
}

/// The row the cursor is in before byte `n` is read: the number of row ends
/// among the first `n` bytes.
pub open spec fn row_before(s: Seq<u8>, n: int) -> int
    decreases n,
{
    if n <= 0 {
        0
    } else if s[n - 1] == GLYPH_ROW_END {
        row_before(s, n - 1) + 1
    } else {
        row_before(s, n - 1)
    }
}

/// The column the cursor is in before byte `n` is read: the number of cell
/// glyphs read since the last row end.
pub open spec fn col_before(s: Seq<u8>, n: int) -> int
    decreases n,
{
    if n <= 0 {
        0
    } else if s[n - 1] == GLYPH_ROW_END {
        0
    } else if is_cell_glyph(s[n - 1]) {
        col_before(s, n - 1) + 1
    } else {
        col_before(s, n - 1)
    }
}

/// Whether byte `n` is read while the cursor is on the grid.
pub open spec fn on_grid(s: Seq<u8>, n: int) -> bool {
    col_before(s, n) < ROOM_WIDTH && row_before(s, n) < ROOM_HEIGHT
}

/// The cell that byte `n` describes, given that the cursor is on the grid.
pub open spec fn cell_of(s: Seq<u8>, n: int) -> Coord {
    Coord { x: col_before(s, n) as u8, y: row_before(s, n) as u8 }
}

/// The cells marked with `glyph` among the first `n` bytes.
pub open spec fn marks_before(s: Seq<u8>, glyph: u8, n: int) -> Set<Coord> {
    Set::new(
        |c: Coord|
            exists|k: int| 0 <= k < n && s[k] == glyph && on_grid(s, k) && cell_of(s, k) == c,
    )
}

/// The cells marked with `glyph` anywhere in the map.
pub open spec fn marks(s: Seq<u8>, glyph: u8) -> Set<Coord> {
    marks_before(s, glyph, s.len() as int)
}

/// The cell of the last `glyph` among the first `n` bytes, if there is one.
pub open spec fn last_mark_before(s: Seq<u8>, glyph: u8, n: int) -> Option<Coord>
    decreases n,
{
    if n <= 0 {
        None
    } else if s[n - 1] == glyph {
        Some(cell_of(s, n - 1))
    } else {
        last_mark_before(s, glyph, n - 1)
    }
}

/// The cell of the last `glyph` of the map, if there is one.
pub open spec fn last_mark(s: Seq<u8>, glyph: u8) -> Option<Coord> {
    last_mark_before(s, glyph, s.len() as int)
}

/// A map describes a room when each of its cell glyphs lies on the grid and
/// it places both the player and the goal.
pub open spec fn describes_room(s: Seq<u8>) -> bool {
    &&& forall|k: int| 0 <= k < s.len() && is_cell_glyph(s[k]) ==> on_grid(s, k)
    &&& last_mark(s, GLYPH_PLAYER) is Some
    &&& last_mark(s, GLYPH_GOAL) is Some
}

proof fn lemma_row_bounded(s: Seq<u8>, n: int)
    requires
        0 <= n,
    ensures
        0 <= row_before(s, n) <= n,
        0 <= col_before(s, n) <= n,
    decreases n,
{
    if n > 0 {
        lemma_row_bounded(s, n - 1);
    }
}

proof fn lemma_marks_step(s: Seq<u8>, glyph: u8, n: int)
    requires
        0 <= n,
    ensures
        marks_before(s, glyph, n + 1) == (if s[n] == glyph && on_grid(s, n) {
            marks_before(s, glyph, n).insert(cell_of(s, n))
        } else {
            marks_before(s, glyph, n)
        }),
{
    let next = marks_before(s, glyph, n + 1);
    let prev = marks_before(s, glyph, n);
    let goal = if s[n] == glyph && on_grid(s, n) {
        prev.insert(cell_of(s, n))
    } else {
        prev
    };
    assert forall|c: Coord| next.contains(c) <==> goal.contains(c) by {
        if next.contains(c) {
            let k = choose|k: int|
                0 <= k < n + 1 && s[k] == glyph && on_grid(s, k) && cell_of(s, k) == c;
            if k < n {
                assert(0 <= k < n && s[k] == glyph && on_grid(s, k) && cell_of(s, k) == c);
            }
        }
        if prev.contains(c) {
            let k = choose|k: int|
                0 <= k < n && s[k] == glyph && on_grid(s, k) && cell_of(s, k) == c;
            assert(0 <= k < n + 1 && s[k] == glyph && on_grid(s, k) && cell_of(s, k) == c);
        }
        if s[n] == glyph && on_grid(s, n) && c == cell_of(s, n) {
            assert(0 <= n < n + 1 && s[n] == glyph && on_grid(s, n) && cell_of(s, n) == c);
        }
    }
    assert(next =~= goal);
}

proof fn lemma_marks_in_bounds(s: Seq<u8>, glyph: u8, n: int)
    requires
        0 <= n <= s.len(),
        is_cell_glyph(glyph),
        forall|k: int| 0 <= k < n && is_cell_glyph(s[k]) ==> on_grid(s, k),
    ensures
        last_mark_before(s, glyph, n) matches Some(c) ==> c.in_bounds(),
    decreases n,
{
    if n > 0 {
        lemma_row_bounded(s, n - 1);
        if s[n - 1] != glyph {
            lemma_marks_in_bounds(s, glyph, n - 1);
        } else {
            assert(is_cell_glyph(s[n - 1]) && on_grid(s, n - 1));
        }
    }
}

/// Reads a room from its map. Succeeds exactly on the maps that describe a
/// room; where a glyph that holds a single place occurs more than once, the
/// last occurrence counts.
pub fn parse_init(s: &[u8]) -> (r: Option<(RoomImmut, RoomMut)>)
    ensures
        r is Some <==> describes_room(s@),
        r matches Some((i, m)) ==> {
            &&& i.wf()
            &&& m.wf()
            &&& i.walls_at@ == marks(s@, GLYPH_WALL)
            &&& i.odd_spikes_at@ == marks(s@, GLYPH_ODD_SPIKES)
            &&& i.even_spikes_at@ == marks(s@, GLYPH_EVEN_SPIKES)
            &&& i.key_at == last_mark(s@, GLYPH_KEY)
            &&& i.lock_at == last_mark(s@, GLYPH_LOCK)
            &&& Some(i.goal_at) == last_mark(s@, GLYPH_GOAL)
            &&& m.rocks_at@ == marks(s@, GLYPH_ROCK)
            &&& m.skelly_at@ == marks(s@, GLYPH_SKELLY)
            &&& Some(m.player_at) == last_mark(s@, GLYPH_PLAYER)
            &&& !m.got_key
            &&& !m.odd_moves_made
        },
{
    let mut walls_at = CoordSet::empty();
    let mut rocks_at = CoordSet::empty();
    let mut odd_spikes_at = CoordSet::empty();
    let mut even_spikes_at = CoordSet::empty();
    let mut skelly_at = CoordSet::empty();
    let mut goal_at: Option<Coord> = None;
    let mut lock_at: Option<Coord> = None;
    let mut key_at: Option<Coord> = None;
    let mut player_at: Option<Coord> = None;

    let mut x: u8 = 0;
    let mut y: usize = 0;
    let mut n: usize = 0;
    proof {
        assert(marks_before(s@, GLYPH_WALL, 0) =~= Set::empty());
        assert(marks_before(s@, GLYPH_ROCK, 0) =~= Set::empty());
        assert(marks_before(s@, GLYPH_SKELLY, 0) =~= Set::empty());
        assert(marks_before(s@, GLYPH_ODD_SPIKES, 0) =~= Set::empty());
        assert(marks_before(s@, GLYPH_EVEN_SPIKES, 0) =~= Set::empty());
    }
    while n < s.len()
        invariant
            n <= s@.len(),
            x == col_before(s@, n as int),
            y == row_before(s@, n as int),
            x <= ROOM_WIDTH,
            forall|k: int| 0 <= k < n && is_cell_glyph(s@[k]) ==> on_grid(s@, k),
            walls_at@ == marks_before(s@, GLYPH_WALL, n as int),
            rocks_at@ == marks_before(s@, GLYPH_ROCK, n as int),
            skelly_at@ == marks_before(s@, GLYPH_SKELLY, n as int),
            odd_spikes_at@ == marks_before(s@, GLYPH_ODD_SPIKES, n as int),
            even_spikes_at@ == marks_before(s@, GLYPH_EVEN_SPIKES, n as int),
            goal_at == last_mark_before(s@, GLYPH_GOAL, n as int),
            lock_at == last_mark_before(s@, GLYPH_LOCK, n as int),
            key_at == last_mark_before(s@, GLYPH_KEY, n as int),
            player_at == last_mark_before(s@, GLYPH_PLAYER, n as int),
        decreases s@.len() - n,
    {
        let byte: u8 = s[n];
        proof {
            lemma_row_bounded(s@, n as int);
            lemma_marks_step(s@, GLYPH_WALL, n as int);
            lemma_marks_step(s@, GLYPH_ROCK, n as int);
            lemma_marks_step(s@, GLYPH_SKELLY, n as int);
            lemma_marks_step(s@, GLYPH_ODD_SPIKES, n as int);
            lemma_marks_step(s@, GLYPH_EVEN_SPIKES, n as int);
        }
        if byte == GLYPH_ROW_END {
            y += 1;
            x = 0;
        } else if byte == GLYPH_WALL || byte == GLYPH_ROCK || byte == GLYPH_SKELLY || byte
            == GLYPH_ODD_SPIKES || byte == GLYPH_EVEN_SPIKES || byte == GLYPH_GOAL || byte
            == GLYPH_PLAYER || byte == GLYPH_KEY || byte == GLYPH_LOCK || byte == GLYPH_FLOOR {
            if x >= ROOM_WIDTH || y >= ROOM_HEIGHT as usize {
                assert(!on_grid(s@, n as int));
                return None;
            }
            let c = Coord { x, y: y as u8 };
            assert(c == cell_of(s@, n as int));
            if byte == GLYPH_WALL {
                walls_at.insert(c);
            } else if byte == GLYPH_ROCK {
                rocks_at.insert(c);
            } else if byte == GLYPH_SKELLY {
                skelly_at.insert(c);
            } else if byte == GLYPH_ODD_SPIKES {
                odd_spikes_at.insert(c);
            } else if byte == GLYPH_EVEN_SPIKES {
                even_spikes_at.insert(c);
            } else if byte == GLYPH_GOAL {
                goal_at = Some(c);
            } else if byte == GLYPH_PLAYER {
                player_at = Some(c);
            } else if byte == GLYPH_KEY {
                key_at = Some(c);
            } else if byte == GLYPH_LOCK {
                lock_at = Some(c);
            }
            x += 1;
        }
        n += 1;
    }
    proof {
        assert(n == s@.len());
        lemma_marks_in_bounds(s@, GLYPH_GOAL, n as int);
        lemma_marks_in_bounds(s@, GLYPH_PLAYER, n as int);
        lemma_marks_in_bounds(s@, GLYPH_KEY, n as int);
        lemma_marks_in_bounds(s@, GLYPH_LOCK, n as int);
    }
    let goal_at = match goal_at {
        Some(c) => c,
        None => {
            return None;
        },
    };
    let player_at = match player_at {
        Some(c) => c,
        None => {
            return None;
        },
    };
    Some(
        (
            RoomImmut { walls_at, goal_at, key_at, lock_at, odd_spikes_at, even_spikes_at },
            RoomMut { rocks_at, got_key: false, player_at, odd_moves_made: false, skelly_at },
        ),
    )
}

} // verus!
