//! Sequences of moves, and the rooms they lead through.

use crate::coord::Direction;
use crate::room::{RoomImmut, RoomMut};
use crate::rules::{law_key_is_kept, law_move_flips_parity, lemma_room_after_wf, room_after};
use vstd::prelude::*;

verus! {

/// One move of a path: the direction taken and the room that resulted.
#[derive(Debug, Clone, Copy, PartialEq, Eq)]
pub struct PathStep {
    pub direction: Direction,
    pub room: RoomMut,
}

/// A path in chronological order: the room it starts in and its moves.
#[derive(Debug, PartialEq, Eq)]
pub struct SolutionPath {
    pub start: RoomMut,
    pub steps: Vec<PathStep>,
}

/// The room reached from `start` by making `moves` one after another, or
/// `None` when one of them is illegal where it is made.
pub open spec fn run(i: RoomImmut, start: RoomMut, moves: Seq<Direction>) -> Option<RoomMut>
    decreases moves.len(),
{
    if moves.len() == 0 {
        Some(start)
    } else {
        match run(i, start, moves.drop_last()) {
            Some(m) => room_after(i, m, moves.last()),
            None => None,
        }
    }
}

/// Whether `m` counts as a solution of the search that starts in `start`:
/// the player stands on the goal, in a room other than the starting room.
pub open spec fn is_solved(i: RoomImmut, start: RoomMut, m: RoomMut) -> bool {
    m.player_at == i.goal_at && m != start
}

/// Whether `moves` lead from `start` to a solution.
pub open spec fn solves(i: RoomImmut, start: RoomMut, moves: Seq<Direction>) -> bool {
    run(i, start, moves) matches Some(m) && is_solved(i, start, m)
}

/// The directions of a sequence of steps.
pub open spec fn directions(steps: Seq<PathStep>) -> Seq<Direction> {
    steps.map_values(|s: PathStep| s.direction)
}

/// The room in which step `k` is made.
pub open spec fn room_before(start: RoomMut, steps: Seq<PathStep>, k: int) -> RoomMut {
    if k <= 0 {
        start
    } else {
        steps[k - 1].room
    }
}

/// Whether each step is a legal move in the room before it and records the
/// room that the move results in.
pub open spec fn is_walk(i: RoomImmut, start: RoomMut, steps: Seq<PathStep>) -> bool {
    forall|k: int|
        0 <= k < steps.len() ==> room_after(
            i,
            room_before(start, steps, k),
            #[trigger] steps[k].direction,
        ) == Some(steps[k].room)
}

impl SolutionPath {
    /// The moves of the path.
    pub open spec fn moves(self) -> Seq<Direction> {
        directions(self.steps@)
    }

    /// The room the path ends in.
    pub open spec fn end(self) -> RoomMut {
        room_before(self.start, self.steps@, self.steps@.len() as int)
    }

    /// Whether the path is a legal sequence of moves in the level `i`.
    pub open spec fn is_valid(self, i: RoomImmut) -> bool {
        is_walk(i, self.start, self.steps@)
    }
}

/// Making the moves of a walk leads to the room the walk ends in.
pub proof fn lemma_walk_runs(i: RoomImmut, start: RoomMut, steps: Seq<PathStep>)
    requires
        is_walk(i, start, steps),
    ensures
        run(i, start, directions(steps)) == Some(room_before(start, steps, steps.len() as int)),
    decreases steps.len(),
{
    if steps.len() > 0 {
        let shorter = steps.drop_last();
        assert forall|k: int| 0 <= k < shorter.len() implies room_after(
            i,
            room_before(start, shorter, k),
            #[trigger] shorter[k].direction,
        ) == Some(shorter[k].room) by {
            assert(steps[k].direction == shorter[k].direction);
        }
        lemma_walk_runs(i, start, shorter);
        assert(directions(steps).drop_last() =~= directions(shorter));
        let last = steps.len() - 1;
        assert(steps[last].direction == directions(steps).last());
        assert(room_before(start, steps, last) == room_before(
            start,
            shorter,
            shorter.len() as int,
        ));
    }
}

/// Legal moves from a room with the player on the grid lead to such a room.
pub proof fn law_run_stays_on_grid(i: RoomImmut, start: RoomMut, moves: Seq<Direction>)
    requires
        start.wf(),
    ensures
        run(i, start, moves) matches Some(m) ==> m.wf(),
    decreases moves.len(),
{
    if moves.len() > 0 {
        law_run_stays_on_grid(i, start, moves.drop_last());
        match run(i, start, moves.drop_last()) {
            Some(m) => lemma_room_after_wf(i, m, moves.last()),
            None => {},
        }
    }
}

/// No sequence of moves loses the key: a room that has it leads only to
/// rooms that have it.
pub proof fn law_key_never_lost(i: RoomImmut, start: RoomMut, moves: Seq<Direction>)
    requires
        start.got_key,
    ensures
        run(i, start, moves) matches Some(m) ==> m.got_key,
    decreases moves.len(),
{
    if moves.len() > 0 {
        law_key_never_lost(i, start, moves.drop_last());
        match run(i, start, moves.drop_last()) {
            Some(m) => law_key_is_kept(i, m, moves.last()),
            None => {},
        }
    }
}

/// The parity flag counts the moves: it differs from the flag of the
/// starting room exactly after an odd number of moves.
pub proof fn law_parity_counts_moves(i: RoomImmut, start: RoomMut, moves: Seq<Direction>)
    ensures
        run(i, start, moves) matches Some(m) ==> (m.odd_moves_made != start.odd_moves_made) == (
        moves.len() % 2 == 1),
    decreases moves.len(),
{
    if moves.len() > 0 {
        law_parity_counts_moves(i, start, moves.drop_last());
        match run(i, start, moves.drop_last()) {
            Some(m) => law_move_flips_parity(i, m, moves.last()),
            None => {},
        }
    }
}

/// Whether `a` comes before `b` in dictionary order, for sequences of the
/// same length: at the first place where they differ, `a` has the direction
/// of lower rank.
pub open spec fn precedes(a: Seq<Direction>, b: Seq<Direction>) -> bool
    decreases a.len(),
{
    if a.len() == 0 || a.len() != b.len() {
        false
    } else {
        precedes(a.drop_last(), b.drop_last()) || (a.drop_last() == b.drop_last()
            && a.last().rank() < b.last().rank())
    }
}

/// No sequence comes before itself.
pub proof fn law_precedes_irreflexive(a: Seq<Direction>)
    ensures
        !precedes(a, a),
    decreases a.len(),
{
    if a.len() > 0 {
        law_precedes_irreflexive(a.drop_last());
    }
}

/// Dictionary order is transitive.
pub proof fn law_precedes_transitive(a: Seq<Direction>, b: Seq<Direction>, c: Seq<Direction>)
    requires
        precedes(a, b),
        precedes(b, c),
    ensures
        precedes(a, c),
    decreases a.len(),
{
    if precedes(a.drop_last(), b.drop_last()) && precedes(b.drop_last(), c.drop_last()) {
        law_precedes_transitive(a.drop_last(), b.drop_last(), c.drop_last());
    }
}

/// Of two different sequences of the same length one comes before the other.
pub proof fn law_precedes_total(a: Seq<Direction>, b: Seq<Direction>)
    requires
        a.len() == b.len(),
        a != b,
    ensures
        precedes(a, b) || precedes(b, a),
    decreases a.len(),
{
    if a.len() == 0 {
        assert(a =~= b);
    } else if a.drop_last() == b.drop_last() {
        if a.last() == b.last() {
            assert(a =~= a.drop_last().push(a.last()));
            assert(b =~= b.drop_last().push(b.last()));
        }
    } else {
        law_precedes_total(a.drop_last(), b.drop_last());
    }
}

} // verus!
