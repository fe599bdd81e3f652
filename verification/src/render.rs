//! Drawing a room as text, with the glyphs of the textual map.

use crate::coord::{Coord, ROOM_HEIGHT, ROOM_WIDTH};
use crate::parse::{
    GLYPH_EVEN_SPIKES, GLYPH_FLOOR, GLYPH_GOAL, GLYPH_KEY, GLYPH_LOCK, GLYPH_ODD_SPIKES,
    GLYPH_PLAYER, GLYPH_ROCK, GLYPH_SKELLY, GLYPH_WALL,
};
use crate::room::{RoomImmut, RoomMut};
use vstd::prelude::*;

verus! {

/// The line feed that ends each row of a drawing.
pub const LINE_FEED: u8 = 0x0a;

/// Bytes of one row of a drawing: a glyph for each column, and a line feed.
pub const ROW_BYTES: usize = 17;

/// The glyph that shows cell `c`. Where several things share a cell, the
/// first of these is shown: the player, a wall, a rock, a skeleton, the
/// lock, the key while it lies there, the goal, spikes.
pub open spec fn glyph_at(i: RoomImmut, m: RoomMut, c: Coord) -> u8 {
    if m.player_at == c {
        GLYPH_PLAYER
    } else if i.walls_at@.contains(c) {
        GLYPH_WALL
    } else if m.rocks_at@.contains(c) {
        GLYPH_ROCK
    } else if m.skelly_at@.contains(c) {
        GLYPH_SKELLY
    } else if i.lock_at == Some(c) {
        GLYPH_LOCK
    } else if !m.got_key && i.key_at == Some(c) {
        GLYPH_KEY
    } else if i.goal_at == c {
        GLYPH_GOAL
    } else if i.odd_spikes_at@.contains(c) {
        GLYPH_ODD_SPIKES
    } else if i.even_spikes_at@.contains(c) {
        GLYPH_EVEN_SPIKES
    } else {
        GLYPH_FLOOR
    }
}

/// The glyph that shows cell `c` of the room.
pub fn cell_glyph(i: &RoomImmut, m: &RoomMut, c: Coord) -> (glyph: u8)
    requires
        c.in_bounds(),
    ensures
        glyph == glyph_at(*i, *m, c),
{
    if m.player_at == c {
        GLYPH_PLAYER
    } else if i.walls_at.contains(c) {
        GLYPH_WALL
    } else if m.rocks_at.contains(c) {
        GLYPH_ROCK
    } else if m.skelly_at.contains(c) {
        GLYPH_SKELLY
    } else if i.lock_at == Some(c) {
        GLYPH_LOCK
    } else if !m.got_key && i.key_at == Some(c) {
        GLYPH_KEY
    } else if i.goal_at == c {
        GLYPH_GOAL
    } else if i.odd_spikes_at.contains(c) {
        GLYPH_ODD_SPIKES
    } else if i.even_spikes_at.contains(c) {
        GLYPH_EVEN_SPIKES
    } else {
        GLYPH_FLOOR
    }
}

/// Draws the room: one row of glyphs after another, from the top, each
/// followed by a line feed.
pub fn render_room(i: &RoomImmut, m: &RoomMut) -> (text: Vec<u8>)
    ensures
        text@.len() == ROOM_HEIGHT * ROW_BYTES,
        forall|x: u8, y: u8|
            x < ROOM_WIDTH && y < ROOM_HEIGHT ==> #[trigger] text@[y * ROW_BYTES + x] == glyph_at(
                *i,
                *m,
                Coord { x, y },
            ),
        forall|y: u8| y < ROOM_HEIGHT ==> #[trigger] text@[y * ROW_BYTES + ROOM_WIDTH] == LINE_FEED,
{
    let mut text: Vec<u8> = Vec::new();
    let mut y: u8 = 0;
    while y < ROOM_HEIGHT
        invariant
            y <= ROOM_HEIGHT,
            text@.len() == y * ROW_BYTES,
            forall|a: u8, b: u8|
                a < ROOM_WIDTH && b < y ==> #[trigger] text@[b * ROW_BYTES + a] == glyph_at(
                    *i,
                    *m,
                    Coord { x: a, y: b },
                ),
            forall|b: u8| b < y ==> #[trigger] text@[b * ROW_BYTES + ROOM_WIDTH] == LINE_FEED,
        decreases ROOM_HEIGHT - y,
    {
        let mut x: u8 = 0;
        while x < ROOM_WIDTH
            invariant
                y < ROOM_HEIGHT,
                x <= ROOM_WIDTH,
                text@.len() == y * ROW_BYTES + x,
                forall|a: u8, b: u8|
                    a < ROOM_WIDTH && b < y ==> #[trigger] text@[b * ROW_BYTES + a] == glyph_at(
                        *i,
                        *m,
                        Coord { x: a, y: b },
                    ),
                forall|b: u8| b < y ==> #[trigger] text@[b * ROW_BYTES + ROOM_WIDTH] == LINE_FEED,
                forall|a: u8|
                    a < x ==> #[trigger] text@[y * ROW_BYTES + a] == glyph_at(
                        *i,
                        *m,
                        Coord { x: a, y },
                    ),
            decreases ROOM_WIDTH - x,
        {
            let glyph: u8 = cell_glyph(i, m, Coord { x, y });
            text.push(glyph);
            x += 1;
        }
        text.push(LINE_FEED);
        y += 1;
    }
    text
}

} // verus!
