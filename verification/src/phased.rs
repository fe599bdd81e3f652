//! Breadth-first search in a level with spikes.
//!
//! Spikes come up on alternate moves. A room in which the player has just
//! stepped onto spikes that are up is expanded one round later than it would
//! be otherwise: entering it takes two rounds instead of one. The search
//! keeps three buffers, for the rooms to expand in this round, in the next,
//! and in the one after, and rotates them from round to round.

use crate::coord::Direction;
use crate::finite::lemma_rooms_bound;
use crate::graph::{table_get, table_insert};
use crate::graph::{edges, trail};
use crate::path::{directions, is_solved, lemma_walk_runs, run, solves, PathStep, SolutionPath};
use crate::room::{RoomImmut, RoomMut, RoomMutEdge};
use crate::rules::{resulting_room_mut, room_after};
use crate::search::{is_layer, is_tree, lemma_tree_trail, solution_path, RoomGraph};
use fxhash::FxHashMap;
use vstd::prelude::*;

verus! {

/// Whether the player of room `m` stands on spikes that are up.
pub open spec fn spiked(i: RoomImmut, m: RoomMut) -> bool {
    if m.odd_moves_made {
        i.odd_spikes_at@.contains(m.player_at)
    } else {
        i.even_spikes_at@.contains(m.player_at)
    }
}

/// The rounds it takes to enter room `m`: two when the move ends on spikes
/// that are up, and one otherwise.
pub open spec fn toll_of(i: RoomImmut, m: RoomMut) -> nat {
    if spiked(i, m) {
        2
    } else {
        1
    }
}

/// The rounds it takes to make `moves` from `start`: the sum of the tolls of
/// the rooms entered.
pub open spec fn toll(i: RoomImmut, start: RoomMut, moves: Seq<Direction>) -> nat
    decreases moves.len(),
{
    if moves.len() == 0 {
        0
    } else {
        toll(i, start, moves.drop_last()) + match run(i, start, moves) {
            Some(m) => toll_of(i, m),
            None => 1,
        }
    }
}

/// Without spikes every move takes one round.
pub proof fn lemma_toll_without_spikes(i: RoomImmut, start: RoomMut, moves: Seq<Direction>)
    requires
        i.spikeless(),
    ensures
        toll(i, start, moves) == moves.len(),
    decreases moves.len(),
{
    if moves.len() > 0 {
        lemma_toll_without_spikes(i, start, moves.drop_last());
    }
}

/// Whether every legal move in `m` leads to a recorded room that is due no
/// later than its toll after `m`.
pub open spec fn spread(
    i: RoomImmut,
    g: Map<RoomMut, Option<RoomMutEdge>>,
    due: Map<RoomMut, nat>,
    m: RoomMut,
) -> bool {
    forall|d: Direction|
        (#[trigger] room_after(i, m, d)) matches Some(t) ==> g.contains_key(t) && due[t] <= due[m]
            + toll_of(i, t)
}

/// Whether `due` gives each recorded room the round that follows from its
/// edge: the round of the room before, and the toll of entering.
pub open spec fn is_schedule(
    i: RoomImmut,
    root: RoomMut,
    g: Map<RoomMut, Option<RoomMutEdge>>,
    due: Map<RoomMut, nat>,
) -> bool {
    &&& due[root] == 0
    &&& forall|m: RoomMut|
        #![trigger g[m]]
        g.contains_key(m) ==> (g[m] matches Some(e) ==> due[m] == due[e.predecessor] + toll_of(
            i,
            m,
        ))
}

/// What holds in the middle of round `round` of the search with spikes, when
/// the first `done` rooms that are due have been expanded.
#[verifier::opaque]
spec fn phased_state(
    i: RoomImmut,
    root: RoomMut,
    g: Map<RoomMut, Option<RoomMutEdge>>,
    depth: Map<RoomMut, nat>,
    due: Map<RoomMut, nat>,
    round: nat,
    visiting: Seq<RoomMut>,
    in_1: Seq<RoomMut>,
    in_2: Seq<RoomMut>,
    done: int,
) -> bool {
    &&& is_tree(i, root, g, depth)
    &&& is_schedule(i, root, g, due)
    &&& forall|m: RoomMut| #[trigger] g.contains_key(m) ==> due[m] <= round + toll_of(i, m)
    &&& forall|m: RoomMut|
        #![trigger g.contains_key(m)]
        g.contains_key(m) && due[m] < round ==> spread(i, g, due, m)
    &&& forall|m: RoomMut|
        #![trigger g.contains_key(m)]
        g.contains_key(m) && m != root ==> m.player_at != i.goal_at
    &&& is_layer(g, due, visiting, round)
    &&& is_layer(g, due, in_1, round + 1)
    &&& is_layer(g, due, in_2, round + 2)
    &&& forall|j: int| 0 <= j < done ==> spread(i, g, due, #[trigger] visiting[j])
}

/// Whether the first `k` of the directions `dirs` have been tried in `room`.
spec fn tried_phased(
    i: RoomImmut,
    g: Map<RoomMut, Option<RoomMutEdge>>,
    due: Map<RoomMut, nat>,
    room: RoomMut,
    dirs: Seq<Direction>,
    k: int,
) -> bool {
    forall|n: int|
        0 <= n < k ==> (room_after(i, room, #[trigger] dirs[n]) matches Some(t) ==> g.contains_key(
            t,
        ) && due[t] <= due[room] + toll_of(i, t))
}

/// While every room due before round `round` has spread, a sequence of
/// moves whose last move starts before that round leads to a recorded room,
/// due no later than the toll of the moves.
pub proof fn lemma_reached_is_due(
    i: RoomImmut,
    root: RoomMut,
    g: Map<RoomMut, Option<RoomMutEdge>>,
    due: Map<RoomMut, nat>,
    round: nat,
    moves: Seq<Direction>,
)
    requires
        g.contains_key(root),
        due[root] == 0,
        forall|m: RoomMut|
            #![trigger g.contains_key(m)]
            g.contains_key(m) && due[m] < round ==> spread(i, g, due, m),
        moves.len() > 0 ==> toll(i, root, moves.drop_last()) < round,
        run(i, root, moves) is Some,
    ensures
        g.contains_key(run(i, root, moves)->Some_0),
        due[run(i, root, moves)->Some_0] <= toll(i, root, moves),
    decreases moves.len(),
{
    if moves.len() > 0 {
        let shorter = moves.drop_last();
        lemma_reached_is_due(i, root, g, due, round, shorter);
        let m = run(i, root, shorter)->Some_0;
        assert(g.contains_key(m));
        assert(spread(i, g, due, m));
        assert(room_after(i, m, moves.last()) is Some);
    }
}

/// Before the first round only the starting room is recorded.
proof fn lemma_phased_start(i: RoomImmut, root: RoomMut)
    requires
        root.wf(),
    ensures
        phased_state(
            i,
            root,
            Map::<RoomMut, Option<RoomMutEdge>>::empty().insert(root, None),
            Map::<RoomMut, nat>::empty().insert(root, 0nat),
            Map::<RoomMut, nat>::empty().insert(root, 0nat),
            0,
            Seq::<RoomMut>::empty().push(root),
            Seq::<RoomMut>::empty(),
            Seq::<RoomMut>::empty(),
            0,
        ),
{
    reveal(phased_state);
    let g = Map::<RoomMut, Option<RoomMutEdge>>::empty().insert(root, None);
    let depth = Map::<RoomMut, nat>::empty().insert(root, 0nat);
    let visiting = Seq::<RoomMut>::empty().push(root);
    assert(g.dom() =~= Set::<RoomMut>::empty().insert(root));
    assert(depth.dom() =~= g.dom());
    assert(is_tree(i, root, g, depth));
    assert(visiting[0] == root);
    assert(is_layer(g, depth, visiting, 0));
}

/// What a round knows of the table and of the rooms that are due.
proof fn lemma_phased_facts(
    i: RoomImmut,
    root: RoomMut,
    g: Map<RoomMut, Option<RoomMutEdge>>,
    depth: Map<RoomMut, nat>,
    due: Map<RoomMut, nat>,
    round: nat,
    visiting: Seq<RoomMut>,
    in_1: Seq<RoomMut>,
    in_2: Seq<RoomMut>,
    done: int,
)
    requires
        phased_state(i, root, g, depth, due, round, visiting, in_1, in_2, done),
    ensures
        is_tree(i, root, g, depth),
        is_schedule(i, root, g, due),
        forall|j: int|
            0 <= j < visiting.len() ==> g.contains_key(#[trigger] visiting[j]) && due[visiting[j]]
                == round && visiting[j].wf(),
{
    reveal(phased_state);
    assert forall|j: int| 0 <= j < visiting.len() implies g.contains_key(#[trigger] visiting[j])
        && due[visiting[j]] == round && visiting[j].wf() by {
        assert(g.contains_key(visiting[j]));
        let _ = g[visiting[j]];
    }
}

/// Recording a room seen for the first time keeps the round in order: the
/// room is due in the next round, or in the one after when the player has
/// stepped onto spikes that are up.
proof fn lemma_phased_record(
    i: RoomImmut,
    root: RoomMut,
    g: Map<RoomMut, Option<RoomMutEdge>>,
    depth: Map<RoomMut, nat>,
    due: Map<RoomMut, nat>,
    round: nat,
    visiting: Seq<RoomMut>,
    in_1: Seq<RoomMut>,
    in_2: Seq<RoomMut>,
    done: int,
    dirs: Seq<Direction>,
    k: int,
    t: RoomMut,
)
    requires
        phased_state(i, root, g, depth, due, round, visiting, in_1, in_2, done),
        0 <= done < visiting.len(),
        0 <= k < dirs.len(),
        tried_phased(i, g, due, visiting[done], dirs, k),
        room_after(i, visiting[done], dirs[k]) == Some(t),
        !g.contains_key(t),
        t.wf(),
    ensures
        ({
            let room = visiting[done];
            let edge = RoomMutEdge { predecessor: room, step_direction: dirs[k] };
            let g2 = g.insert(t, Some(edge));
            let depth2 = depth.insert(t, depth[room] + 1);
            let due2 = due.insert(t, round + toll_of(i, t));
            &&& is_tree(i, root, g2, depth2)
            &&& is_schedule(i, root, g2, due2)
            &&& t != root
            &&& t != room
            &&& due[room] == round
            &&& tried_phased(i, g2, due2, room, dirs, k + 1)
            &&& g2.dom().len() == g.dom().len() + 1
            &&& t.player_at != i.goal_at ==> phased_state(
                i,
                root,
                g2,
                depth2,
                due2,
                round,
                visiting,
                if spiked(i, t) {
                    in_1
                } else {
                    in_1.push(t)
                },
                if spiked(i, t) {
                    in_2.push(t)
                } else {
                    in_2
                },
                done,
            )
        }),
{
    reveal(phased_state);
    let room = visiting[done];
    let edge = RoomMutEdge { predecessor: room, step_direction: dirs[k] };
    let g2 = g.insert(t, Some(edge));
    let depth2 = depth.insert(t, depth[room] + 1);
    let due2 = due.insert(t, round + toll_of(i, t));
    assert(g.contains_key(room) && due[room] == round);
    assert(depth2.dom() =~= g2.dom());
    assert forall|m: RoomMut| #![trigger g2[m]] g2.contains_key(m) implies m.wf() && match g2[m] {
        None => m == root,
        Some(e) => {
            &&& m != root
            &&& g2.contains_key(e.predecessor)
            &&& room_after(i, e.predecessor, e.step_direction) == Some(m)
            &&& depth2[m] == depth2[e.predecessor] + 1
        },
    } by {
        if m != t {
            assert(g2[m] == g[m]);
        }
    }
    assert(is_tree(i, root, g2, depth2));
    assert forall|m: RoomMut| #![trigger g2[m]] g2.contains_key(m) implies (g2[m] matches Some(e)
        ==> due2[m] == due2[e.predecessor] + toll_of(i, m)) by {
        if m != t {
            assert(g2[m] == g[m]);
            let _ = g[m];
        }
    }
    assert(is_schedule(i, root, g2, due2));
    assert forall|m: RoomMut| g.contains_key(m) && spread(i, g, due, m) implies spread(
        i,
        g2,
        due2,
        m,
    ) by {
        assert forall|d: Direction| (#[trigger] room_after(i, m, d)) is Some implies g2.contains_key(
            room_after(i, m, d)->Some_0,
        ) && due2[room_after(i, m, d)->Some_0] <= due2[m] + toll_of(
            i,
            room_after(i, m, d)->Some_0,
        ) by {
            let s = room_after(i, m, d)->Some_0;
            assert(g.contains_key(s));
        }
    }
    assert forall|n: int| 0 <= n < k + 1 implies (room_after(
        i,
        room,
        #[trigger] dirs[n],
    ) matches Some(s) ==> g2.contains_key(s) && due2[s] <= due2[room] + toll_of(i, s)) by {
        if n < k {
            if room_after(i, room, dirs[n]) is Some {
                let s = room_after(i, room, dirs[n])->Some_0;
                assert(g.contains_key(s));
            }
        }
    }
    if t.player_at != i.goal_at {
        let next_1 = if spiked(i, t) {
            in_1
        } else {
            in_1.push(t)
        };
        let next_2 = if spiked(i, t) {
            in_2.push(t)
        } else {
            in_2
        };
        assert forall|m: RoomMut| #[trigger] g2.contains_key(m) implies due2[m] <= round
            + toll_of(i, m) by {
            if m != t {
                assert(g.contains_key(m));
            }
        }
        assert forall|m: RoomMut|
            #![trigger g2.contains_key(m)]
            g2.contains_key(m) && due2[m] < round implies spread(i, g2, due2, m) by {
            assert(g.contains_key(m));
        }
        assert forall|m: RoomMut|
            #![trigger g2.contains_key(m)]
            g2.contains_key(m) && m != root implies m.player_at != i.goal_at by {
            if m != t {
                assert(g.contains_key(m));
            }
        }
        assert forall|m: RoomMut|
            #![trigger g2.contains_key(m)]
            g2.contains_key(m) && due2[m] == round implies visiting.contains(m) by {
            assert(g.contains_key(m));
        }
        assert(is_layer(g2, due2, visiting, round));
        assert forall|m: RoomMut|
            #![trigger g2.contains_key(m)]
            g2.contains_key(m) && due2[m] == round + 1 implies next_1.contains(m) by {
            if m == t {
                assert(next_1[in_1.len() as int] == t);
            } else {
                assert(g.contains_key(m));
                assert(in_1.contains(m));
                let j = choose|j: int| 0 <= j < in_1.len() && in_1[j] == m;
                assert(next_1[j] == m);
            }
        }
        assert forall|j: int| 0 <= j < next_1.len() implies g2.contains_key(#[trigger] next_1[j])
            && due2[next_1[j]] == round + 1 by {
            if j < in_1.len() {
                assert(next_1[j] == in_1[j]);
                assert(g.contains_key(in_1[j]));
            }
        }
        assert(is_layer(g2, due2, next_1, round + 1));
        assert forall|m: RoomMut|
            #![trigger g2.contains_key(m)]
            g2.contains_key(m) && due2[m] == round + 2 implies next_2.contains(m) by {
            if m == t {
                assert(next_2[in_2.len() as int] == t);
            } else {
                assert(g.contains_key(m));
                assert(in_2.contains(m));
                let j = choose|j: int| 0 <= j < in_2.len() && in_2[j] == m;
                assert(next_2[j] == m);
            }
        }
        assert forall|j: int| 0 <= j < next_2.len() implies g2.contains_key(#[trigger] next_2[j])
            && due2[next_2[j]] == round + 2 by {
            if j < in_2.len() {
                assert(next_2[j] == in_2[j]);
                assert(g.contains_key(in_2[j]));
            }
        }
        assert(is_layer(g2, due2, next_2, round + 2));
        assert forall|j: int| 0 <= j < done implies spread(i, g2, due2, #[trigger] visiting[j]) by {
            assert(g.contains_key(visiting[j]));
            assert(spread(i, g, due, visiting[j]));
        }
    }
}

/// A move that leads to a room recorded before, or to none, is tried
/// without anything to record.
proof fn lemma_phased_nothing_new(
    i: RoomImmut,
    root: RoomMut,
    g: Map<RoomMut, Option<RoomMutEdge>>,
    depth: Map<RoomMut, nat>,
    due: Map<RoomMut, nat>,
    round: nat,
    visiting: Seq<RoomMut>,
    in_1: Seq<RoomMut>,
    in_2: Seq<RoomMut>,
    done: int,
    dirs: Seq<Direction>,
    k: int,
)
    requires
        phased_state(i, root, g, depth, due, round, visiting, in_1, in_2, done),
        0 <= done < visiting.len(),
        0 <= k < dirs.len(),
        tried_phased(i, g, due, visiting[done], dirs, k),
        room_after(i, visiting[done], dirs[k]) matches Some(t) ==> g.contains_key(t),
    ensures
        tried_phased(i, g, due, visiting[done], dirs, k + 1),
{
    reveal(phased_state);
    let room = visiting[done];
    assert(g.contains_key(room) && due[room] == round);
    if room_after(i, room, dirs[k]) is Some {
        let t = room_after(i, room, dirs[k])->Some_0;
        assert(g.contains_key(t));
    }
}

/// Once all four directions have been tried in a room, the room has spread
/// and the round moves on to the next room that is due.
proof fn lemma_phased_room_done(
    i: RoomImmut,
    root: RoomMut,
    g: Map<RoomMut, Option<RoomMutEdge>>,
    depth: Map<RoomMut, nat>,
    due: Map<RoomMut, nat>,
    round: nat,
    visiting: Seq<RoomMut>,
    in_1: Seq<RoomMut>,
    in_2: Seq<RoomMut>,
    done: int,
)
    requires
        phased_state(i, root, g, depth, due, round, visiting, in_1, in_2, done),
        0 <= done < visiting.len(),
        tried_phased(i, g, due, visiting[done], Direction::all(), 4),
    ensures
        phased_state(i, root, g, depth, due, round, visiting, in_1, in_2, done + 1),
{
    reveal(phased_state);
    let room = visiting[done];
    assert forall|d: Direction| (#[trigger] room_after(i, room, d)) is Some implies g.contains_key(
        room_after(i, room, d)->Some_0,
    ) && due[room_after(i, room, d)->Some_0] <= due[room] + toll_of(
        i,
        room_after(i, room, d)->Some_0,
    ) by {
        Direction::lemma_all_covers(d);
        let k = choose|k: int| 0 <= k < 4 && #[trigger] Direction::all()[k] == d;
        assert(Direction::all()[k] == d);
    }
    assert(spread(i, g, due, room));
}

/// When a round has expanded every room that was due, the buffers move up
/// by one round.
proof fn lemma_phased_round_over(
    i: RoomImmut,
    root: RoomMut,
    g: Map<RoomMut, Option<RoomMutEdge>>,
    depth: Map<RoomMut, nat>,
    due: Map<RoomMut, nat>,
    round: nat,
    visiting: Seq<RoomMut>,
    in_1: Seq<RoomMut>,
    in_2: Seq<RoomMut>,
)
    requires
        phased_state(i, root, g, depth, due, round, visiting, in_1, in_2, visiting.len() as int),
    ensures
        phased_state(i, root, g, depth, due, round + 1, in_1, in_2, Seq::empty(), 0),
{
    reveal(phased_state);
    assert forall|m: RoomMut|
        #![trigger g.contains_key(m)]
        g.contains_key(m) && due[m] < round + 1 implies spread(i, g, due, m) by {
        if due[m] == round {
            assert(visiting.contains(m));
            let j = choose|j: int| 0 <= j < visiting.len() && visiting[j] == m;
            assert(spread(i, g, due, visiting[j]));
        }
    }
    assert forall|m: RoomMut|
        #![trigger g.contains_key(m)]
        g.contains_key(m) && due[m] == round + 3 implies Seq::<RoomMut>::empty().contains(m) by {
        assert(due[m] <= round + toll_of(i, m));
    }
}

/// When no room is due in this round or later, every room that can be
/// reached at all is recorded, and none of them is a solution.
proof fn lemma_phased_exhausted(
    i: RoomImmut,
    root: RoomMut,
    g: Map<RoomMut, Option<RoomMutEdge>>,
    depth: Map<RoomMut, nat>,
    due: Map<RoomMut, nat>,
    round: nat,
    moves: Seq<Direction>,
)
    requires
        phased_state(
            i,
            root,
            g,
            depth,
            due,
            round,
            Seq::empty(),
            Seq::empty(),
            Seq::empty(),
            0,
        ),
        run(i, root, moves) is Some,
    ensures
        g.contains_key(run(i, root, moves)->Some_0),
        !solves(i, root, moves),
{
    reveal(phased_state);
    let bound = toll(i, root, moves) + 1;
    assert forall|m: RoomMut|
        #![trigger g.contains_key(m)]
        g.contains_key(m) && due[m] < bound implies spread(i, g, due, m) by {
        assert(due[m] <= round + toll_of(i, m));
        if due[m] >= round {
            assert(Seq::<RoomMut>::empty().contains(m));
        }
    }
    lemma_reached_is_due(i, root, g, due, bound, moves);
}

/// A solution first seen in round `round` starts its last move as early as
/// any solution does: a last move that starts earlier starts in a room that
/// has spread, and so leads to a room recorded before.
proof fn lemma_phased_first(
    i: RoomImmut,
    root: RoomMut,
    g: Map<RoomMut, Option<RoomMutEdge>>,
    depth: Map<RoomMut, nat>,
    due: Map<RoomMut, nat>,
    round: nat,
    visiting: Seq<RoomMut>,
    in_1: Seq<RoomMut>,
    in_2: Seq<RoomMut>,
    done: int,
    moves: Seq<Direction>,
)
    requires
        phased_state(i, root, g, depth, due, round, visiting, in_1, in_2, done),
        solves(i, root, moves),
    ensures
        moves.len() > 0,
        toll(i, root, moves.drop_last()) >= round,
{
    reveal(phased_state);
    if moves.len() == 0 || toll(i, root, moves.drop_last()) < round {
        lemma_reached_is_due(i, root, g, due, round, moves);
    }
}

/// The round in which a recorded room is due is the least toll of the
/// sequences of moves that reach it.
proof fn lemma_due_is_least(
    i: RoomImmut,
    root: RoomMut,
    g: Map<RoomMut, Option<RoomMutEdge>>,
    depth: Map<RoomMut, nat>,
    due: Map<RoomMut, nat>,
    round: nat,
    visiting: Seq<RoomMut>,
    in_1: Seq<RoomMut>,
    in_2: Seq<RoomMut>,
    done: int,
    moves: Seq<Direction>,
)
    requires
        phased_state(i, root, g, depth, due, round, visiting, in_1, in_2, done),
        run(i, root, moves) is Some,
    ensures
        moves.len() > 0 && toll(i, root, moves.drop_last()) < round ==> g.contains_key(
            run(i, root, moves)->Some_0,
        ),
        g.contains_key(run(i, root, moves)->Some_0) ==> due[run(i, root, moves)->Some_0] <= toll(
            i,
            root,
            moves,
        ),
{
    reveal(phased_state);
    if moves.len() == 0 || toll(i, root, moves.drop_last()) < round {
        lemma_reached_is_due(i, root, g, due, round, moves);
    }
}

/// The outcome of a search in a level with spikes.
pub struct PhasedSearch {
    /// Every room the search has seen.
    pub graph: RoomGraph,
    /// The solved room the search stopped at, if it found one.
    pub goal: Option<RoomMut>,
    /// For each recorded room, the round in which it is due to be expanded.
    pub due: Ghost<Map<RoomMut, nat>>,
}

/// Searches the rooms that can be reached from `init` for one with the
/// player on the goal, a round at a time, entering rooms at their toll.
///
/// The search stops in the round that first records a solved room: the last
/// move to that room starts in a room that is due in that round, and no
/// solution has a last move that starts after fewer rounds. Without a solved
/// room the search ends when every reachable room is recorded. Either way
/// the round in which a recorded room is due is the least toll at which the
/// room can be reached.
pub fn explore_phased(i: &RoomImmut, init: &RoomMut) -> (out: PhasedSearch)
    requires
        init.wf(),
    ensures
        out.graph.root == *init,
        out.graph.wf(*i),
        is_schedule(*i, *init, out.graph@, out.due@),
        forall|moves: Seq<Direction>|
            (#[trigger] run(*i, *init, moves)) matches Some(m) ==> (out.graph@.contains_key(m)
                ==> out.due@[m] <= toll(*i, *init, moves)),
        match out.goal {
            Some(t) => {
                &&& out.graph@.contains_key(t)
                &&& is_solved(*i, *init, t)
                &&& forall|moves: Seq<Direction>| #[trigger]
                    solves(*i, *init, moves) ==> moves.len() > 0 && out.due@[out.graph@[t]->Some_0.predecessor]
                        <= toll(*i, *init, moves.drop_last())
            },
            None => {
                &&& forall|moves: Seq<Direction>| !solves(*i, *init, moves)
                &&& forall|moves: Seq<Direction>|
                    (#[trigger] run(*i, *init, moves)) matches Some(m) ==> out.graph@.contains_key(
                        m,
                    )
            },
        },
{
    let mut table: FxHashMap<RoomMut, Option<RoomMutEdge>> = FxHashMap::default();
    table_insert(&mut table, *init, None);
    let ghost mut depth: Map<RoomMut, nat> = Map::empty().insert(*init, 0nat);
    let ghost mut due: Map<RoomMut, nat> = Map::empty().insert(*init, 0nat);
    let mut visiting: Vec<RoomMut> = Vec::with_capacity(128);
    let mut to_visit_in_1: Vec<RoomMut> = Vec::with_capacity(128);
    let mut to_visit_in_2: Vec<RoomMut> = Vec::with_capacity(128);
    visiting.push(*init);
    let directions = Direction::all_directions();
    let ghost mut round: nat = 0;
    proof {
        lemma_phased_start(*i, *init);
        assert(visiting@ =~= Seq::<RoomMut>::empty().push(*init));
        assert(to_visit_in_1@ =~= Seq::<RoomMut>::empty());
        assert(to_visit_in_2@ =~= Seq::<RoomMut>::empty());
        lemma_phased_facts(
            *i,
            *init,
            table@,
            depth,
            due,
            round,
            visiting@,
            to_visit_in_1@,
            to_visit_in_2@,
            0,
        );
        lemma_rooms_bound(table@.dom());
    }
    while visiting.len() > 0 || to_visit_in_1.len() > 0
        invariant
            init.wf(),
            directions@ == Direction::all(),
            to_visit_in_2@.len() == 0,
            phased_state(
                *i,
                *init,
                table@,
                depth,
                due,
                round,
                visiting@,
                to_visit_in_1@,
                to_visit_in_2@,
                0,
            ),
            table@.dom().len() <= Set::<RoomMut>::full().len(),
        decreases
                Set::<RoomMut>::full().len() - table@.dom().len(),
                (if to_visit_in_1@.len() > 0 {
                    2int
                } else if visiting@.len() > 0 {
                    1int
                } else {
                    0int
                }),
    {
        let ghost size_before = table@.dom().len();
        let ghost in_1_before = to_visit_in_1@;
        let mut j: usize = 0;
        while j < visiting.len()
            invariant
                init.wf(),
                directions@ == Direction::all(),
                j <= visiting@.len(),
                phased_state(
                    *i,
                    *init,
                    table@,
                    depth,
                    due,
                    round,
                    visiting@,
                    to_visit_in_1@,
                    to_visit_in_2@,
                    j as int,
                ),
                table@.dom().len() >= size_before,
                table@.dom().len() == size_before ==> to_visit_in_1@ == in_1_before
                    && to_visit_in_2@.len() == 0,
            decreases visiting@.len() - j,
        {
            let room_mut = visiting[j];
            proof {
                lemma_phased_facts(
                    *i,
                    *init,
                    table@,
                    depth,
                    due,
                    round,
                    visiting@,
                    to_visit_in_1@,
                    to_visit_in_2@,
                    j as int,
                );
            }
            let mut k: usize = 0;
            while k < 4
                invariant
                    init.wf(),
                    directions@ == Direction::all(),
                    j < visiting@.len(),
                    room_mut == visiting@[j as int],
                    room_mut.wf(),
                    k <= 4,
                    phased_state(
                        *i,
                        *init,
                        table@,
                        depth,
                        due,
                        round,
                        visiting@,
                        to_visit_in_1@,
                        to_visit_in_2@,
                        j as int,
                    ),
                    tried_phased(*i, table@, due, room_mut, directions@, k as int),
                    table@.dom().len() >= size_before,
                    table@.dom().len() == size_before ==> to_visit_in_1@ == in_1_before
                        && to_visit_in_2@.len() == 0,
                decreases 4 - k,
            {
                let direction = directions[k];
                match resulting_room_mut(i, &room_mut, direction) {
                    Some(new_room_mut) => {
                        if table_get(&table, &new_room_mut).is_none() {
                            proof {
                                lemma_phased_record(
                                    *i,
                                    *init,
                                    table@,
                                    depth,
                                    due,
                                    round,
                                    visiting@,
                                    to_visit_in_1@,
                                    to_visit_in_2@,
                                    j as int,
                                    directions@,
                                    k as int,
                                    new_room_mut,
                                );
                            }
                            let ghost before = table@;
                            let ghost depth_before = depth;
                            let ghost due_before = due;
                            table_insert(
                                &mut table,
                                new_room_mut,
                                Some(RoomMutEdge { predecessor: room_mut, step_direction: direction }),
                            );
                            proof {
                                depth = depth.insert(new_room_mut, depth[room_mut] + 1);
                                due = due.insert(new_room_mut, round + toll_of(*i, new_room_mut));
                            }
                            if new_room_mut.player_at == i.goal_at {
                                proof {
                                    assert(due[room_mut] == round);
                                    assert forall|moves: Seq<Direction>|
                                        (#[trigger] run(*i, *init, moves)) is Some
                                            && table@.contains_key(
                                            run(*i, *init, moves)->Some_0,
                                        ) implies due[run(*i, *init, moves)->Some_0] <= toll(
                                        *i,
                                        *init,
                                        moves,
                                    ) by {
                                        lemma_due_is_least(
                                            *i,
                                            *init,
                                            before,
                                            depth_before,
                                            due_before,
                                            round,
                                            visiting@,
                                            to_visit_in_1@,
                                            to_visit_in_2@,
                                            j as int,
                                            moves,
                                        );
                                    }
                                    assert forall|moves: Seq<Direction>| #[trigger]
                                        solves(*i, *init, moves) implies moves.len() > 0
                                        && due[room_mut] <= toll(*i, *init, moves.drop_last()) by {
                                        lemma_phased_first(
                                            *i,
                                            *init,
                                            before,
                                            depth_before,
                                            due_before,
                                            round,
                                            visiting@,
                                            to_visit_in_1@,
                                            to_visit_in_2@,
                                            j as int,
                                            moves,
                                        );
                                    }
                                }
                                return PhasedSearch {
                                    graph: RoomGraph { table, root: *init, depth: Ghost(depth) },
                                    goal: Some(new_room_mut),
                                    due: Ghost(due),
                                };
                            }
                            let spikes_up = if new_room_mut.odd_moves_made {
                                i.odd_spikes_at.contains(new_room_mut.player_at)
                            } else {
                                i.even_spikes_at.contains(new_room_mut.player_at)
                            };
                            if spikes_up {
                                to_visit_in_2.push(new_room_mut);
                            } else {
                                to_visit_in_1.push(new_room_mut);
                            }
                        } else {
                            proof {
                                lemma_phased_nothing_new(
                                    *i,
                                    *init,
                                    table@,
                                    depth,
                                    due,
                                    round,
                                    visiting@,
                                    to_visit_in_1@,
                                    to_visit_in_2@,
                                    j as int,
                                    directions@,
                                    k as int,
                                );
                            }
                        }
                    },
                    None => {
                        proof {
                            lemma_phased_nothing_new(
                                *i,
                                *init,
                                table@,
                                depth,
                                due,
                                round,
                                visiting@,
                                to_visit_in_1@,
                                to_visit_in_2@,
                                j as int,
                                directions@,
                                k as int,
                            );
                        }
                    },
                }
                k += 1;
            }
            proof {
                lemma_phased_room_done(
                    *i,
                    *init,
                    table@,
                    depth,
                    due,
                    round,
                    visiting@,
                    to_visit_in_1@,
                    to_visit_in_2@,
                    j as int,
                );
            }
            j += 1;
        }
        proof {
            lemma_phased_round_over(
                *i,
                *init,
                table@,
                depth,
                due,
                round,
                visiting@,
                to_visit_in_1@,
                to_visit_in_2@,
            );
            lemma_phased_facts(
                *i,
                *init,
                table@,
                depth,
                due,
                round + 1,
                to_visit_in_1@,
                to_visit_in_2@,
                Seq::empty(),
                0,
            );
            lemma_rooms_bound(table@.dom());
            round = round + 1;
        }
        std::mem::swap(&mut visiting, &mut to_visit_in_1);
        std::mem::swap(&mut to_visit_in_1, &mut to_visit_in_2);
        to_visit_in_2.clear();
    }
    proof {
        assert(visiting@ =~= Seq::<RoomMut>::empty());
        assert(to_visit_in_1@ =~= Seq::<RoomMut>::empty());
        assert(to_visit_in_2@ =~= Seq::<RoomMut>::empty());
        assert forall|moves: Seq<Direction>| !solves(*i, *init, moves) by {
            if run(*i, *init, moves) is Some {
                lemma_phased_exhausted(*i, *init, table@, depth, due, round, moves);
            }
        }
        assert forall|moves: Seq<Direction>| (#[trigger] run(*i, *init, moves)) is Some implies table@.contains_key(
            run(*i, *init, moves)->Some_0,
        ) by {
            lemma_phased_exhausted(*i, *init, table@, depth, due, round, moves);
        }
        assert forall|moves: Seq<Direction>|
            (#[trigger] run(*i, *init, moves)) is Some && table@.contains_key(
                run(*i, *init, moves)->Some_0,
            ) implies due[run(*i, *init, moves)->Some_0] <= toll(*i, *init, moves) by {
            lemma_due_is_least(
                *i,
                *init,
                table@,
                depth,
                due,
                round,
                visiting@,
                to_visit_in_1@,
                to_visit_in_2@,
                0,
                moves,
            );
        }
        lemma_phased_facts(
            *i,
            *init,
            table@,
            depth,
            due,
            round,
            visiting@,
            to_visit_in_1@,
            to_visit_in_2@,
            0,
        );
    }
    PhasedSearch {
        graph: RoomGraph { table, root: *init, depth: Ghost(depth) },
        goal: None,
        due: Ghost(due),
    }
}

/// The recorded steps to a room take as many rounds as the round in which
/// the room is due.
pub proof fn lemma_schedule_toll(
    i: RoomImmut,
    root: RoomMut,
    g: Map<RoomMut, Option<RoomMutEdge>>,
    depth: Map<RoomMut, nat>,
    due: Map<RoomMut, nat>,
    m: RoomMut,
)
    requires
        is_tree(i, root, g, depth),
        is_schedule(i, root, g, due),
        g.contains_key(m),
    ensures
        toll(i, root, directions(trail(edges(g), depth, m))) == due[m],
    decreases depth[m],
{
    let e = edges(g);
    lemma_tree_trail(i, root, g, depth, m);
    assert(e[m] == g[m]);
    match g[m] {
        None => {
            assert(directions(trail(e, depth, m)) =~= Seq::<Direction>::empty());
        },
        Some(edge) => {
            let p = edge.predecessor;
            lemma_schedule_toll(i, root, g, depth, due, p);
            let shorter = trail(e, depth, p);
            let t = trail(e, depth, m);
            assert(t == shorter.push(PathStep { direction: edge.step_direction, room: m }));
            assert(directions(t).drop_last() =~= directions(shorter));
            lemma_walk_runs(i, root, t);
        },
    }
}

/// Finds a sequence of moves from `init` to a room with the player on the
/// goal, or `None` when no sequence of moves leads to such a room.
///
/// Of all such sequences the one found spends the fewest rounds before its
/// last move. In a level without spikes it is a shortest one.
pub fn phased_path(i: &RoomImmut, init: &RoomMut) -> (r: Option<SolutionPath>)
    requires
        init.wf(),
    ensures
        match r {
            Some(p) => {
                &&& p.start == *init
                &&& p.is_valid(*i)
                &&& solves(*i, *init, p.moves())
                &&& forall|moves: Seq<Direction>| #[trigger]
                    solves(*i, *init, moves) ==> toll(*i, *init, p.moves().drop_last()) <= toll(
                        *i,
                        *init,
                        moves.drop_last(),
                    )
                &&& i.spikeless() ==> forall|moves: Seq<Direction>| #[trigger]
                    solves(*i, *init, moves) ==> p.steps@.len() <= moves.len()
            },
            None => forall|moves: Seq<Direction>| !solves(*i, *init, moves),
        },
{
    let search = explore_phased(i, init);
    match search.goal {
        Some(goal) => {
            let p = solution_path(i, &goal, &search.graph);
            proof {
                let g = search.graph@;
                let depth = search.graph.depth@;
                lemma_walk_runs(*i, p.start, p.steps@);
                let _ = g[goal];
                let edge = g[goal]->Some_0;
                lemma_schedule_toll(*i, *init, g, depth, search.due@, edge.predecessor);
                assert(edges(g)[goal] == g[goal]);
                lemma_tree_trail(*i, *init, g, depth, edge.predecessor);
                let shorter = trail(edges(g), depth, edge.predecessor);
                assert(p.steps@ == shorter.push(
                    PathStep { direction: edge.step_direction, room: goal },
                ));
                assert(p.moves().drop_last() =~= directions(shorter));
                if i.spikeless() {
                    lemma_toll_without_spikes(*i, *init, p.moves().drop_last());
                    assert forall|moves: Seq<Direction>| #[trigger]
                        solves(*i, *init, moves) implies p.steps@.len() <= moves.len() by {
                        lemma_toll_without_spikes(*i, *init, moves.drop_last());
                    }
                }
            }
            Some(p)
        },
        None => None,
    }
}

} // verus!
