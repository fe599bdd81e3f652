//! The two halves of a room: the geometry that never changes, and the parts
//! that moves rearrange.

use crate::coord::{Coord, Direction};
use crate::coord_set::CoordSet;
use vstd::prelude::*;

verus! {

/// The static geometry of a level. It is built once and only read afterwards.
#[derive(Debug, Clone, Copy, PartialEq, Eq)]
pub struct RoomImmut {
    pub walls_at: CoordSet,
    /// Spikes that are up after an odd number of moves.
    pub odd_spikes_at: CoordSet,
    /// Spikes that are up after an even number of moves.
    pub even_spikes_at: CoordSet,
    pub key_at: Option<Coord>,
    pub lock_at: Option<Coord>,
    pub goal_at: Coord,
}

/// The movable parts of a level. One value is one node of the search graph:
/// two values are the same node exactly when all their fields agree.
#[derive(Debug, Clone, Copy, PartialEq, Eq, Hash)]
pub struct RoomMut {
    /// Rocks: a kick pushes one a cell further, if that cell is free.
    pub rocks_at: CoordSet,
    /// Skeletons: a kick pushes one a cell further, or destroys it.
    pub skelly_at: CoordSet,
    pub player_at: Coord,
    pub got_key: bool,
    /// Whether an odd number of moves has been made so far.
    pub odd_moves_made: bool,
}

/// How a room was reached: the room before the move, and the move.
#[derive(Debug, Clone, Copy, PartialEq, Eq)]
pub struct RoomMutEdge {
    pub predecessor: RoomMut,
    pub step_direction: Direction,
}

impl RoomImmut {
    /// The goal and, where present, the key and the lock lie on the grid.
    pub open spec fn wf(self) -> bool {
        &&& self.goal_at.in_bounds()
        &&& self.key_at matches Some(k) ==> k.in_bounds()
        &&& self.lock_at matches Some(l) ==> l.in_bounds()
    }

    /// Whether no spike is placed anywhere.
    pub open spec fn spikeless(self) -> bool {
        self.odd_spikes_at@ == Set::<Coord>::empty() && self.even_spikes_at@ == Set::<
            Coord,
        >::empty()
    }
}

impl RoomMut {
    /// The player stands on the grid.
    pub open spec fn wf(self) -> bool {
        self.player_at.in_bounds()
    }
}

} // verus!
