//! Breadth-first search for a shortest solution.
//!
//! The search proceeds in rounds. Round `n` expands the rooms that are `n`
//! moves away from the starting room and records every room it sees for the
//! first time, with the edge over which it was seen. It stops as soon as a
//! newly recorded room has the player on the goal, or when a round has
//! nothing left to expand.

use crate::coord::Direction;
use crate::finite::lemma_rooms_bound;
use crate::graph::{edges, ranked, table_get, table_insert, trail, trail_start, walk_back};
use crate::path::{
    directions, is_solved, is_walk, law_precedes_transitive, precedes, room_before, run, solves,
    PathStep, SolutionPath,
};
use crate::room::{RoomImmut, RoomMut, RoomMutEdge};
use crate::rules::{resulting_room_mut, room_after};
use fxhash::FxHashMap;
use vstd::prelude::*;

verus! {

/// The rooms seen by a search, each with the edge over which it was first
/// seen; the starting room has none.
pub struct RoomGraph {
    pub table: FxHashMap<RoomMut, Option<RoomMutEdge>>,
    /// The room the search started in.
    pub root: RoomMut,
    /// For each recorded room, the number of recorded edges between it and
    /// the root.
    pub depth: Ghost<Map<RoomMut, nat>>,
}

/// Whether `g` is a tree of legal moves that hangs from `root`, with `depth`
/// counting the moves from the root.
pub open spec fn is_tree(
    i: RoomImmut,
    root: RoomMut,
    g: Map<RoomMut, Option<RoomMutEdge>>,
    depth: Map<RoomMut, nat>,
) -> bool {
    &&& g.dom().finite()
    &&& depth.dom() == g.dom()
    &&& g.contains_key(root)
    &&& depth[root] == 0
    &&& forall|m: RoomMut|
        #![trigger g[m]]
        g.contains_key(m) ==> m.wf() && match g[m] {
            None => m == root,
            Some(e) => {
                &&& m != root
                &&& g.contains_key(e.predecessor)
                &&& room_after(i, e.predecessor, e.step_direction) == Some(m)
                &&& depth[m] == depth[e.predecessor] + 1
            },
        }
}

impl View for RoomGraph {
    type V = Map<RoomMut, Option<RoomMutEdge>>;

    open spec fn view(&self) -> Map<RoomMut, Option<RoomMutEdge>> {
        self.table@
    }
}

impl RoomGraph {
    /// The graph is a tree of legal moves of the level `i`.
    pub open spec fn wf(self, i: RoomImmut) -> bool {
        is_tree(i, self.root, self.table@, self.depth@)
    }

    /// The recorded steps from the root to `m`.
    pub open spec fn steps_to(self, m: RoomMut) -> Seq<PathStep> {
        trail(edges(self.table@), self.depth@, m)
    }
}

/// In a tree the recorded steps to a room form a legal walk from the root to
/// that room, of as many steps as the room is deep.
pub proof fn lemma_tree_trail(
    i: RoomImmut,
    root: RoomMut,
    g: Map<RoomMut, Option<RoomMutEdge>>,
    depth: Map<RoomMut, nat>,
    m: RoomMut,
)
    requires
        is_tree(i, root, g, depth),
        g.contains_key(m),
    ensures
        ranked(edges(g), depth),
        trail_start(edges(g), depth, m) == root,
        trail(edges(g), depth, m).len() == depth[m],
        is_walk(i, root, trail(edges(g), depth, m)),
        room_before(root, trail(edges(g), depth, m), depth[m] as int) == m,
    decreases depth[m],
{
    let e = edges(g);
    assert(e.dom() =~= g.dom());
    assert forall|n: RoomMut| #![trigger e[n]] e.contains_key(n) implies (e[n] matches Some(edge)
        ==> e.contains_key(edge.predecessor) && depth[edge.predecessor] < depth[n]) by {
        assert(g.contains_key(n));
        assert(e[n] == g[n]);
    }
    assert(e[m] == g[m]);
    match g[m] {
        None => {},
        Some(edge) => {
            let p = edge.predecessor;
            lemma_tree_trail(i, root, g, depth, p);
            let shorter = trail(e, depth, p);
            let t = trail(e, depth, m);
            assert(t == shorter.push(PathStep { direction: edge.step_direction, room: m }));
            assert forall|k: int| 0 <= k < t.len() implies room_after(
                i,
                room_before(root, t, k),
                #[trigger] t[k].direction,
            ) == Some(t[k].room) by {
                if k < shorter.len() {
                    assert(shorter[k].direction == t[k].direction);
                    assert(room_before(root, t, k) == room_before(root, shorter, k));
                } else {
                    assert(room_before(root, t, k) == room_before(
                        root,
                        shorter,
                        depth[p] as int,
                    ));
                }
            }
        },
    }
}

/// Whether every legal move in `m` leads to a recorded room that is at most
/// one level deeper than `m`.
spec fn expanded(
    i: RoomImmut,
    g: Map<RoomMut, Option<RoomMutEdge>>,
    depth: Map<RoomMut, nat>,
    m: RoomMut,
) -> bool {
    forall|d: Direction|
        (#[trigger] room_after(i, m, d)) matches Some(t) ==> g.contains_key(t) && depth[t]
            <= depth[m] + 1
}

/// What holds of the table while round `round` runs: it is a tree no deeper
/// than the next level, every room above the current level is expanded, and
/// no recorded room but the root has the player on the goal.
spec fn layered(
    i: RoomImmut,
    root: RoomMut,
    g: Map<RoomMut, Option<RoomMutEdge>>,
    depth: Map<RoomMut, nat>,
    round: nat,
) -> bool {
    &&& is_tree(i, root, g, depth)
    &&& forall|m: RoomMut| #[trigger] g.contains_key(m) ==> depth[m] <= round + 1
    &&& forall|m: RoomMut|
        #![trigger g.contains_key(m)]
        g.contains_key(m) && depth[m] < round ==> expanded(i, g, depth, m)
    &&& forall|m: RoomMut|
        #![trigger g.contains_key(m)]
        g.contains_key(m) && m != root ==> m.player_at != i.goal_at
}

/// Whether `layer` lists exactly the recorded rooms of depth `d`.
pub open spec fn is_layer(
    g: Map<RoomMut, Option<RoomMutEdge>>,
    depth: Map<RoomMut, nat>,
    layer: Seq<RoomMut>,
    d: nat,
) -> bool {
    &&& forall|j: int|
        0 <= j < layer.len() ==> g.contains_key(#[trigger] layer[j]) && depth[layer[j]] == d
    &&& forall|m: RoomMut|
        #![trigger g.contains_key(m)]
        g.contains_key(m) && depth[m] == d ==> layer.contains(m)
}

/// What holds in the middle of a round, when the first `done` rooms of the
/// current level have been expanded.
#[verifier::opaque]
spec fn round_state(
    i: RoomImmut,
    root: RoomMut,
    g: Map<RoomMut, Option<RoomMutEdge>>,
    depth: Map<RoomMut, nat>,
    round: nat,
    visiting: Seq<RoomMut>,
    to_visit: Seq<RoomMut>,
    done: int,
) -> bool {
    &&& layered(i, root, g, depth, round)
    &&& is_layer(g, depth, visiting, round)
    &&& is_layer(g, depth, to_visit, round + 1)
    &&& forall|j: int| 0 <= j < done ==> expanded(i, g, depth, #[trigger] visiting[j])
}

/// Whether the first `k` of the directions `dirs` have been tried in `room`.
spec fn tried(
    i: RoomImmut,
    g: Map<RoomMut, Option<RoomMutEdge>>,
    depth: Map<RoomMut, nat>,
    room: RoomMut,
    dirs: Seq<Direction>,
    k: int,
) -> bool {
    forall|n: int|
        0 <= n < k ==> (room_after(i, room, #[trigger] dirs[n]) matches Some(t) ==> g.contains_key(
            t,
        ) && depth[t] <= depth[room] + 1)
}

/// While every room above level `round` is expanded, the rooms that `round`
/// or fewer moves reach are recorded, no deeper than the number of moves.
proof fn lemma_reached_is_recorded(
    i: RoomImmut,
    root: RoomMut,
    g: Map<RoomMut, Option<RoomMutEdge>>,
    depth: Map<RoomMut, nat>,
    round: nat,
    moves: Seq<Direction>,
)
    requires
        is_tree(i, root, g, depth),
        forall|m: RoomMut|
            #![trigger g.contains_key(m)]
            g.contains_key(m) && depth[m] < round ==> expanded(i, g, depth, m),
        moves.len() <= round,
        run(i, root, moves) is Some,
    ensures
        g.contains_key(run(i, root, moves)->Some_0),
        depth[run(i, root, moves)->Some_0] <= moves.len(),
    decreases moves.len(),
{
    if moves.len() > 0 {
        lemma_reached_is_recorded(i, root, g, depth, round, moves.drop_last());
        let m = run(i, root, moves.drop_last())->Some_0;
        assert(g.contains_key(m));
        assert(expanded(i, g, depth, m));
        assert(room_after(i, m, moves.last()) is Some);
    }
}

/// Recording a room seen for the first time keeps the round in order.
proof fn lemma_record(
    i: RoomImmut,
    root: RoomMut,
    g: Map<RoomMut, Option<RoomMutEdge>>,
    depth: Map<RoomMut, nat>,
    round: nat,
    visiting: Seq<RoomMut>,
    to_visit: Seq<RoomMut>,
    done: int,
    dirs: Seq<Direction>,
    k: int,
    t: RoomMut,
)
    requires
        round_state(i, root, g, depth, round, visiting, to_visit, done),
        0 <= done < visiting.len(),
        0 <= k < dirs.len(),
        tried(i, g, depth, visiting[done], dirs, k),
        room_after(i, visiting[done], dirs[k]) == Some(t),
        !g.contains_key(t),
        t.wf(),
    ensures
        ({
            let edge = RoomMutEdge { predecessor: visiting[done], step_direction: dirs[k] };
            let g2 = g.insert(t, Some(edge));
            let depth2 = depth.insert(t, round + 1);
            &&& is_tree(i, root, g2, depth2)
            &&& t != root
            &&& tried(i, g2, depth2, visiting[done], dirs, k + 1)
            &&& g2.dom().len() == g.dom().len() + 1
            &&& forall|m: RoomMut| #[trigger] g2.contains_key(m) ==> depth2[m] <= round + 1
            &&& t.player_at != i.goal_at ==> round_state(
                i,
                root,
                g2,
                depth2,
                round,
                visiting,
                to_visit.push(t),
                done,
            )
        }),
{
    reveal(round_state);
    let room = visiting[done];
    let edge = RoomMutEdge { predecessor: room, step_direction: dirs[k] };
    let g2 = g.insert(t, Some(edge));
    let depth2 = depth.insert(t, round + 1);
    assert(g.contains_key(room) && depth[room] == round);
    assert(depth2.dom() =~= g2.dom());
    assert forall|m: RoomMut| #![trigger g2[m]] g2.contains_key(m) implies m.wf() && match g2[m] {
        None => m == root,
        Some(e) => {
            &&& m != root
            &&& g2.contains_key(e.predecessor)
            &&& room_after(i, e.predecessor, e.step_direction) == Some(m)
            &&& depth2[m] == depth2[e.predecessor] + 1
        },
    } by {
        if m != t {
            assert(g2[m] == g[m]);
        }
    }
    assert(is_tree(i, root, g2, depth2));
    assert forall|m: RoomMut| g.contains_key(m) && expanded(i, g, depth, m) implies expanded(
        i,
        g2,
        depth2,
        m,
    ) by {
        assert forall|d: Direction| (#[trigger] room_after(i, m, d)) is Some implies g2.contains_key(
            room_after(i, m, d)->Some_0,
        ) && depth2[room_after(i, m, d)->Some_0] <= depth2[m] + 1 by {
            let s = room_after(i, m, d)->Some_0;
            assert(g.contains_key(s));
        }
    }
    assert forall|n: int| 0 <= n < k + 1 implies (room_after(
        i,
        room,
        #[trigger] dirs[n],
    ) matches Some(s) ==> g2.contains_key(s) && depth2[s] <= depth2[room] + 1) by {
        if n < k {
            if room_after(i, room, dirs[n]) is Some {
                let s = room_after(i, room, dirs[n])->Some_0;
                assert(g.contains_key(s));
            }
        }
    }
    assert forall|m: RoomMut| #[trigger] g2.contains_key(m) implies depth2[m] <= round + 1 by {
        if m != t {
            assert(g.contains_key(m));
        }
    }
    if t.player_at != i.goal_at {
        let next = to_visit.push(t);
        assert forall|m: RoomMut|
            #![trigger g2.contains_key(m)]
            g2.contains_key(m) && depth2[m] < round implies expanded(i, g2, depth2, m) by {
            assert(g.contains_key(m));
        }
        assert forall|m: RoomMut|
            #![trigger g2.contains_key(m)]
            g2.contains_key(m) && m != root implies m.player_at != i.goal_at by {
            if m != t {
                assert(g.contains_key(m));
            }
        }
        assert(layered(i, root, g2, depth2, round));
        assert forall|m: RoomMut|
            #![trigger g2.contains_key(m)]
            g2.contains_key(m) && depth2[m] == round implies visiting.contains(m) by {
            assert(g.contains_key(m));
        }
        assert(is_layer(g2, depth2, visiting, round));
        assert forall|m: RoomMut|
            #![trigger g2.contains_key(m)]
            g2.contains_key(m) && depth2[m] == round + 1 implies next.contains(m) by {
            if m == t {
                assert(next[to_visit.len() as int] == t);
            } else {
                assert(g.contains_key(m));
                assert(to_visit.contains(m));
                let j = choose|j: int| 0 <= j < to_visit.len() && to_visit[j] == m;
                assert(next[j] == m);
            }
        }
        assert forall|j: int| 0 <= j < next.len() implies g2.contains_key(#[trigger] next[j])
            && depth2[next[j]] == round + 1 by {
            if j < to_visit.len() {
                assert(next[j] == to_visit[j]);
                assert(g.contains_key(to_visit[j]));
            }
        }
        assert(is_layer(g2, depth2, next, round + 1));
        assert forall|j: int| 0 <= j < done implies expanded(
            i,
            g2,
            depth2,
            #[trigger] visiting[j],
        ) by {
            assert(g.contains_key(visiting[j]));
            assert(expanded(i, g, depth, visiting[j]));
        }
    }
}

/// The rooms of the current level are recorded at that level, with the
/// player on the grid.
proof fn lemma_visiting(
    i: RoomImmut,
    root: RoomMut,
    g: Map<RoomMut, Option<RoomMutEdge>>,
    depth: Map<RoomMut, nat>,
    round: nat,
    visiting: Seq<RoomMut>,
    to_visit: Seq<RoomMut>,
    done: int,
    j: int,
)
    requires
        round_state(i, root, g, depth, round, visiting, to_visit, done),
        0 <= j < visiting.len(),
    ensures
        g.contains_key(visiting[j]),
        depth[visiting[j]] == round,
        visiting[j].wf(),
{
    reveal(round_state);
    assert(g.contains_key(visiting[j]));
    let _ = g[visiting[j]];
}

/// A move that leads to a room recorded before, or to none, is tried
/// without anything to record.
proof fn lemma_nothing_new(
    i: RoomImmut,
    root: RoomMut,
    g: Map<RoomMut, Option<RoomMutEdge>>,
    depth: Map<RoomMut, nat>,
    round: nat,
    visiting: Seq<RoomMut>,
    to_visit: Seq<RoomMut>,
    done: int,
    dirs: Seq<Direction>,
    k: int,
)
    requires
        round_state(i, root, g, depth, round, visiting, to_visit, done),
        0 <= done < visiting.len(),
        0 <= k < dirs.len(),
        tried(i, g, depth, visiting[done], dirs, k),
        room_after(i, visiting[done], dirs[k]) matches Some(t) ==> g.contains_key(t),
    ensures
        tried(i, g, depth, visiting[done], dirs, k + 1),
{
    reveal(round_state);
    let room = visiting[done];
    assert(g.contains_key(room) && depth[room] == round);
    if room_after(i, room, dirs[k]) is Some {
        let t = room_after(i, room, dirs[k])->Some_0;
        assert(g.contains_key(t));
        assert(depth[t] <= round + 1);
    }
}

/// Once all four directions have been tried in a room, the round moves on to
/// the next room of the level.
proof fn lemma_room_done(
    i: RoomImmut,
    root: RoomMut,
    g: Map<RoomMut, Option<RoomMutEdge>>,
    depth: Map<RoomMut, nat>,
    round: nat,
    visiting: Seq<RoomMut>,
    to_visit: Seq<RoomMut>,
    done: int,
)
    requires
        round_state(i, root, g, depth, round, visiting, to_visit, done),
        0 <= done < visiting.len(),
        tried(i, g, depth, visiting[done], Direction::all(), 4),
    ensures
        round_state(i, root, g, depth, round, visiting, to_visit, done + 1),
{
    reveal(round_state);
    lemma_all_tried(i, g, depth, visiting[done]);
}

/// A room in which all four directions have been tried is expanded.
proof fn lemma_all_tried(
    i: RoomImmut,
    g: Map<RoomMut, Option<RoomMutEdge>>,
    depth: Map<RoomMut, nat>,
    room: RoomMut,
)
    requires
        tried(i, g, depth, room, Direction::all(), 4),
    ensures
        expanded(i, g, depth, room),
{
    assert forall|d: Direction| (#[trigger] room_after(i, room, d)) is Some implies g.contains_key(
        room_after(i, room, d)->Some_0,
    ) && depth[room_after(i, room, d)->Some_0] <= depth[room] + 1 by {
        Direction::lemma_all_covers(d);
        let k = choose|k: int| 0 <= k < 4 && #[trigger] Direction::all()[k] == d;
        assert(Direction::all()[k] == d);
    }
}

/// When a round has expanded its whole level, the next level takes over.
proof fn lemma_round_over(
    i: RoomImmut,
    root: RoomMut,
    g: Map<RoomMut, Option<RoomMutEdge>>,
    depth: Map<RoomMut, nat>,
    round: nat,
    visiting: Seq<RoomMut>,
    to_visit: Seq<RoomMut>,
)
    requires
        round_state(i, root, g, depth, round, visiting, to_visit, visiting.len() as int),
    ensures
        round_state(i, root, g, depth, round + 1, to_visit, Seq::empty(), 0),
{
    reveal(round_state);
    assert forall|m: RoomMut|
        #![trigger g.contains_key(m)]
        g.contains_key(m) && depth[m] < round + 1 implies expanded(i, g, depth, m) by {
        if depth[m] == round {
            assert(visiting.contains(m));
            let j = choose|j: int| 0 <= j < visiting.len() && visiting[j] == m;
            assert(expanded(i, g, depth, visiting[j]));
        }
    }
    assert(layered(i, root, g, depth, round + 1));
    assert forall|m: RoomMut|
        #![trigger g.contains_key(m)]
        g.contains_key(m) && depth[m] == round + 2 implies Seq::<RoomMut>::empty().contains(
        m,
    ) by {
        assert(depth[m] <= round + 1);
    }
}

/// When a round has nothing to expand, every room that can be reached at all
/// is recorded, and none of them is a solution.
proof fn lemma_exhausted(
    i: RoomImmut,
    root: RoomMut,
    g: Map<RoomMut, Option<RoomMutEdge>>,
    depth: Map<RoomMut, nat>,
    round: nat,
    moves: Seq<Direction>,
)
    requires
        round_state(i, root, g, depth, round, Seq::empty(), Seq::empty(), 0),
        run(i, root, moves) is Some,
    ensures
        g.contains_key(run(i, root, moves)->Some_0),
        !solves(i, root, moves),
{
    reveal(round_state);
    assert forall|m: RoomMut|
        #![trigger g.contains_key(m)]
        g.contains_key(m) && depth[m] < moves.len() + 1 implies expanded(i, g, depth, m) by {
        assert(depth[m] <= round + 1);
        if depth[m] == round {
            assert(Seq::<RoomMut>::empty().contains(m));
        }
        if depth[m] == round + 1 {
            assert(Seq::<RoomMut>::empty().contains(m));
        }
    }
    lemma_reached_is_recorded(i, root, g, depth, (moves.len() + 1) as nat, moves);
}

/// A solution recorded in round `round` is a shortest one: fewer moves reach
/// only rooms that were recorded before, and none of those is a solution.
proof fn lemma_first_is_shortest(
    i: RoomImmut,
    root: RoomMut,
    g: Map<RoomMut, Option<RoomMutEdge>>,
    depth: Map<RoomMut, nat>,
    round: nat,
    visiting: Seq<RoomMut>,
    to_visit: Seq<RoomMut>,
    done: int,
    moves: Seq<Direction>,
)
    requires
        round_state(i, root, g, depth, round, visiting, to_visit, done),
        solves(i, root, moves),
    ensures
        moves.len() >= round + 1,
{
    reveal(round_state);
    if moves.len() <= round {
        lemma_reached_is_recorded(i, root, g, depth, round, moves);
    }
}

/// The depth of a recorded room is the least number of moves that reach it.
proof fn lemma_depth_is_least(
    i: RoomImmut,
    root: RoomMut,
    g: Map<RoomMut, Option<RoomMutEdge>>,
    depth: Map<RoomMut, nat>,
    round: nat,
    visiting: Seq<RoomMut>,
    to_visit: Seq<RoomMut>,
    done: int,
    moves: Seq<Direction>,
)
    requires
        round_state(i, root, g, depth, round, visiting, to_visit, done),
        run(i, root, moves) is Some,
    ensures
        moves.len() <= round ==> g.contains_key(run(i, root, moves)->Some_0),
        g.contains_key(run(i, root, moves)->Some_0) ==> depth[run(i, root, moves)->Some_0]
            <= moves.len(),
{
    reveal(round_state);
    if moves.len() <= round {
        lemma_reached_is_recorded(i, root, g, depth, round, moves);
    }
}

/// Before the first round only the starting room is recorded.
proof fn lemma_first_round(i: RoomImmut, root: RoomMut)
    requires
        root.wf(),
    ensures
        round_state(
            i,
            root,
            Map::<RoomMut, Option<RoomMutEdge>>::empty().insert(root, None),
            Map::<RoomMut, nat>::empty().insert(root, 0nat),
            0,
            Seq::<RoomMut>::empty().push(root),
            Seq::<RoomMut>::empty(),
            0,
        ),
{
    reveal(round_state);
    let g = Map::<RoomMut, Option<RoomMutEdge>>::empty().insert(root, None);
    let depth = Map::<RoomMut, nat>::empty().insert(root, 0nat);
    let visiting = Seq::<RoomMut>::empty().push(root);
    assert(g.dom() =~= Set::<RoomMut>::empty().insert(root));
    assert(depth.dom() =~= g.dom());
    assert(is_tree(i, root, g, depth));
    assert(visiting[0] == root);
    assert(layered(i, root, g, depth, 0));
    assert(is_layer(g, depth, visiting, 0));
}

/// While a round runs the table is a tree.
proof fn lemma_round_tree(
    i: RoomImmut,
    root: RoomMut,
    g: Map<RoomMut, Option<RoomMutEdge>>,
    depth: Map<RoomMut, nat>,
    round: nat,
    visiting: Seq<RoomMut>,
    to_visit: Seq<RoomMut>,
    done: int,
)
    requires
        round_state(i, root, g, depth, round, visiting, to_visit, done),
    ensures
        is_tree(i, root, g, depth),
{
    reveal(round_state);
}

/// Whether `route` gives each recorded room the moves along its recorded
/// edges, from the root.
spec fn is_routed(
    i: RoomImmut,
    root: RoomMut,
    g: Map<RoomMut, Option<RoomMutEdge>>,
    depth: Map<RoomMut, nat>,
    route: Map<RoomMut, Seq<Direction>>,
) -> bool {
    &&& route[root] == Seq::<Direction>::empty()
    &&& forall|m: RoomMut|
        #![trigger g[m]]
        g.contains_key(m) ==> (g[m] matches Some(e) ==> route[m] == route[e.predecessor].push(
            e.step_direction,
        ))
    &&& forall|m: RoomMut| #[trigger]
        g.contains_key(m) ==> route[m].len() == depth[m] && run(i, root, route[m]) == Some(m)
}

/// Whether the rooms of `layer` are listed in the dictionary order of their
/// routes.
spec fn is_sorted(route: Map<RoomMut, Seq<Direction>>, layer: Seq<RoomMut>) -> bool {
    forall|a: int, b: int|
        0 <= a < b < layer.len() ==> precedes(#[trigger] route[layer[a]], #[trigger] route[layer[b]])
}

/// Whether the route of each recorded room comes first among the sequences
/// of as many moves that reach the room.
spec fn is_least(
    i: RoomImmut,
    root: RoomMut,
    g: Map<RoomMut, Option<RoomMutEdge>>,
    depth: Map<RoomMut, nat>,
    route: Map<RoomMut, Seq<Direction>>,
) -> bool {
    forall|moves: Seq<Direction>|
        (#[trigger] run(i, root, moves)) matches Some(m) ==> (g.contains_key(m) && moves.len()
            == depth[m] ==> !precedes(moves, route[m]))
}

/// Whether each room that waits for the next round was seen from one of the
/// first `done` rooms of this round, or from the room after them in a
/// direction of rank below `k`.
spec fn seen_in_order(
    g: Map<RoomMut, Option<RoomMutEdge>>,
    visiting: Seq<RoomMut>,
    to_visit: Seq<RoomMut>,
    done: int,
    k: int,
) -> bool {
    forall|b: int|
        0 <= b < to_visit.len() ==> (#[trigger] g[to_visit[b]]) is Some && exists|a: int|
            0 <= a <= done && a < visiting.len() && (#[trigger] visiting[a]) == g[to_visit[b]]->Some_0.predecessor
                && (a == done ==> g[to_visit[b]]->Some_0.step_direction.rank() < k)
}

/// What holds of the order in which a round sees rooms, when the first
/// `done` rooms of the current level have been expanded and the first `k`
/// directions have been tried in the next.
#[verifier::opaque]
spec fn order_state(
    i: RoomImmut,
    root: RoomMut,
    g: Map<RoomMut, Option<RoomMutEdge>>,
    depth: Map<RoomMut, nat>,
    route: Map<RoomMut, Seq<Direction>>,
    visiting: Seq<RoomMut>,
    to_visit: Seq<RoomMut>,
    done: int,
    k: int,
) -> bool {
    &&& is_routed(i, root, g, depth, route)
    &&& is_sorted(route, visiting)
    &&& is_sorted(route, to_visit)
    &&& is_least(i, root, g, depth, route)
    &&& seen_in_order(g, visiting, to_visit, done, k)
}

/// The route of a room spells the directions of its recorded steps.
proof fn lemma_route_is_trail(
    i: RoomImmut,
    root: RoomMut,
    g: Map<RoomMut, Option<RoomMutEdge>>,
    depth: Map<RoomMut, nat>,
    route: Map<RoomMut, Seq<Direction>>,
    m: RoomMut,
)
    requires
        is_tree(i, root, g, depth),
        is_routed(i, root, g, depth, route),
        g.contains_key(m),
    ensures
        directions(trail(edges(g), depth, m)) == route[m],
    decreases depth[m],
{
    let e = edges(g);
    lemma_tree_trail(i, root, g, depth, m);
    assert(e[m] == g[m]);
    match g[m] {
        None => {
            assert(directions(trail(e, depth, m)) =~= Seq::<Direction>::empty());
        },
        Some(edge) => {
            let p = edge.predecessor;
            lemma_route_is_trail(i, root, g, depth, route, p);
            let shorter = trail(e, depth, p);
            let t = trail(e, depth, m);
            assert(t == shorter.push(PathStep { direction: edge.step_direction, room: m }));
            assert(directions(t) =~= directions(shorter).push(edge.step_direction));
        },
    }
}

/// A room that is not recorded yet, and that as many moves reach as lead to
/// the next level, is reached no earlier in dictionary order than by the
/// move that the round tries next.
proof fn lemma_undiscovered(
    i: RoomImmut,
    root: RoomMut,
    g: Map<RoomMut, Option<RoomMutEdge>>,
    depth: Map<RoomMut, nat>,
    route: Map<RoomMut, Seq<Direction>>,
    round: nat,
    visiting: Seq<RoomMut>,
    to_visit: Seq<RoomMut>,
    done: int,
    k: int,
    moves: Seq<Direction>,
)
    requires
        round_state(i, root, g, depth, round, visiting, to_visit, done),
        order_state(i, root, g, depth, route, visiting, to_visit, done, k),
        0 <= done < visiting.len(),
        0 <= k < 4,
        tried(i, g, depth, visiting[done], Direction::all(), k),
        moves.len() == round + 1,
        run(i, root, moves) is Some,
        !g.contains_key(run(i, root, moves)->Some_0),
    ensures
        !precedes(moves, route[visiting[done]].push(Direction::all()[k])),
{
    reveal(round_state);
    reveal(order_state);
    Direction::lemma_all_ranked();
    let x = run(i, root, moves)->Some_0;
    let before = moves.drop_last();
    let d = moves.last();
    let s = run(i, root, before)->Some_0;
    let next = route[visiting[done]].push(Direction::all()[k]);
    lemma_reached_is_recorded(i, root, g, depth, round, before);
    assert(room_after(i, s, d) == Some(x));
    assert(g.contains_key(s));
    if depth[s] < round {
        assert(expanded(i, g, depth, s));
    }
    assert(depth[s] == round);
    assert(visiting.contains(s));
    let a = choose|a: int| 0 <= a < visiting.len() && visiting[a] == s;
    if a < done {
        assert(expanded(i, g, depth, visiting[a]));
    }
    assert(a >= done);
    assert(!precedes(before, route[s]));
    assert(next.drop_last() =~= route[visiting[done]]);
    assert(g.contains_key(visiting[done]));
    if precedes(moves, next) {
        if before == route[visiting[done]] {
            assert(s == visiting[done]);
            assert(d.rank() < k);
            assert(Direction::all()[d.rank() as int] == d);
        } else {
            assert(precedes(before, route[visiting[done]]));
            if a > done {
                assert(precedes(route[visiting[done]], route[visiting[a]]));
                law_precedes_transitive(before, route[visiting[done]], route[visiting[a]]);
            }
        }
    }
}

/// Before the first round the order is as it should be.
proof fn lemma_order_start(i: RoomImmut, root: RoomMut)
    ensures
        order_state(
            i,
            root,
            Map::<RoomMut, Option<RoomMutEdge>>::empty().insert(root, None),
            Map::<RoomMut, nat>::empty().insert(root, 0nat),
            Map::<RoomMut, Seq<Direction>>::empty().insert(root, Seq::empty()),
            Seq::<RoomMut>::empty().push(root),
            Seq::<RoomMut>::empty(),
            0,
            0,
        ),
{
    reveal(order_state);
}

/// Recording a room seen for the first time keeps the order: its route
/// comes after the routes of the rooms recorded before it in this round,
/// and first among the sequences of moves of its length that reach it.
proof fn lemma_order_record(
    i: RoomImmut,
    root: RoomMut,
    g: Map<RoomMut, Option<RoomMutEdge>>,
    depth: Map<RoomMut, nat>,
    route: Map<RoomMut, Seq<Direction>>,
    round: nat,
    visiting: Seq<RoomMut>,
    to_visit: Seq<RoomMut>,
    done: int,
    k: int,
    t: RoomMut,
)
    requires
        round_state(i, root, g, depth, round, visiting, to_visit, done),
        order_state(i, root, g, depth, route, visiting, to_visit, done, k),
        0 <= done < visiting.len(),
        0 <= k < 4,
        tried(i, g, depth, visiting[done], Direction::all(), k),
        room_after(i, visiting[done], Direction::all()[k]) == Some(t),
        !g.contains_key(t),
    ensures
        ({
            let room = visiting[done];
            let edge = RoomMutEdge { predecessor: room, step_direction: Direction::all()[k] };
            let g2 = g.insert(t, Some(edge));
            let depth2 = depth.insert(t, round + 1);
            let route2 = route.insert(t, route[room].push(Direction::all()[k]));
            &&& is_routed(i, root, g2, depth2, route2)
            &&& order_state(i, root, g2, depth2, route2, visiting, to_visit.push(t), done, k + 1)
        }),
{
    reveal(round_state);
    reveal(order_state);
    Direction::lemma_all_ranked();
    let room = visiting[done];
    let dir = Direction::all()[k];
    let edge = RoomMutEdge { predecessor: room, step_direction: dir };
    let g2 = g.insert(t, Some(edge));
    let depth2 = depth.insert(t, round + 1);
    let route2 = route.insert(t, route[room].push(dir));
    let next = to_visit.push(t);
    assert(g.contains_key(room) && depth[room] == round);
    assert(g.contains_key(root));
    assert(t != root && t != room);
    assert(route2[t].drop_last() =~= route[room]);
    assert forall|m: RoomMut| #![trigger g2[m]] g2.contains_key(m) implies (g2[m] matches Some(e)
        ==> route2[m] == route2[e.predecessor].push(e.step_direction)) by {
        if m != t {
            assert(g2[m] == g[m]);
            let _ = g[m];
        }
    }
    assert forall|m: RoomMut| #[trigger] g2.contains_key(m) implies route2[m].len() == depth2[m]
        && run(i, root, route2[m]) == Some(m) by {
        if m != t {
            assert(g.contains_key(m));
        }
    }
    assert(is_routed(i, root, g2, depth2, route2));
    assert forall|a: int, b: int| 0 <= a < b < visiting.len() implies precedes(
        #[trigger] route2[visiting[a]],
        #[trigger] route2[visiting[b]],
    ) by {
        assert(g.contains_key(visiting[a]) && g.contains_key(visiting[b]));
        assert(precedes(route[visiting[a]], route[visiting[b]]));
    }
    assert forall|b: int| 0 <= b < next.len() implies (#[trigger] g2[next[b]]) is Some
        && exists|a: int|
        0 <= a <= done && a < visiting.len() && (#[trigger] visiting[a])
            == g2[next[b]]->Some_0.predecessor && (a == done
            ==> g2[next[b]]->Some_0.step_direction.rank() < k + 1) by {
        if b < to_visit.len() {
            assert(next[b] == to_visit[b]);
            assert(g.contains_key(to_visit[b]));
            let _ = g[to_visit[b]];
            let a = choose|a: int|
                0 <= a <= done && a < visiting.len() && (#[trigger] visiting[a])
                    == g[to_visit[b]]->Some_0.predecessor && (a == done
                    ==> g[to_visit[b]]->Some_0.step_direction.rank() < k);
            assert(visiting[a] == g2[next[b]]->Some_0.predecessor);
        } else {
            assert(visiting[done] == g2[next[b]]->Some_0.predecessor);
        }
    }
    assert forall|a: int, b: int| 0 <= a < b < next.len() implies precedes(
        #[trigger] route2[next[a]],
        #[trigger] route2[next[b]],
    ) by {
        assert(next[a] == to_visit[a]);
        assert(g.contains_key(to_visit[a]));
        if b < to_visit.len() {
            assert(next[b] == to_visit[b]);
            assert(g.contains_key(to_visit[b]));
            assert(precedes(route[to_visit[a]], route[to_visit[b]]));
        } else {
            let from = g[to_visit[a]]->Some_0;
            let c = choose|c: int|
                0 <= c <= done && c < visiting.len() && (#[trigger] visiting[c])
                    == from.predecessor && (c == done ==> from.step_direction.rank() < k);
            assert(route[to_visit[a]] == route[from.predecessor].push(from.step_direction));
            assert(route[to_visit[a]].drop_last() =~= route[from.predecessor]);
            if c < done {
                assert(precedes(route[visiting[c]], route[visiting[done]]));
            }
        }
    }
    assert forall|moves: Seq<Direction>|
        (#[trigger] run(i, root, moves)) is Some && g2.contains_key(run(i, root, moves)->Some_0)
            && moves.len() == depth2[run(i, root, moves)->Some_0] implies !precedes(
        moves,
        route2[run(i, root, moves)->Some_0],
    ) by {
        let m = run(i, root, moves)->Some_0;
        if m == t {
            lemma_undiscovered(i, root, g, depth, route, round, visiting, to_visit, done, k, moves);
        } else {
            assert(g.contains_key(m));
        }
    }
}

/// Trying a direction without recording anything keeps the order.
proof fn lemma_order_next(
    i: RoomImmut,
    root: RoomMut,
    g: Map<RoomMut, Option<RoomMutEdge>>,
    depth: Map<RoomMut, nat>,
    route: Map<RoomMut, Seq<Direction>>,
    visiting: Seq<RoomMut>,
    to_visit: Seq<RoomMut>,
    done: int,
    k: int,
)
    requires
        order_state(i, root, g, depth, route, visiting, to_visit, done, k),
    ensures
        order_state(i, root, g, depth, route, visiting, to_visit, done, k + 1),
{
    reveal(order_state);
    assert forall|b: int| 0 <= b < to_visit.len() implies (#[trigger] g[to_visit[b]]) is Some
        && exists|a: int|
        0 <= a <= done && a < visiting.len() && (#[trigger] visiting[a])
            == g[to_visit[b]]->Some_0.predecessor && (a == done
            ==> g[to_visit[b]]->Some_0.step_direction.rank() < k + 1) by {
        let a = choose|a: int|
            0 <= a <= done && a < visiting.len() && (#[trigger] visiting[a])
                == g[to_visit[b]]->Some_0.predecessor && (a == done
                ==> g[to_visit[b]]->Some_0.step_direction.rank() < k);
        assert(visiting[a] == g[to_visit[b]]->Some_0.predecessor);
    }
}

/// When a room has been expanded the order passes on to the next room.
proof fn lemma_order_room_done(
    i: RoomImmut,
    root: RoomMut,
    g: Map<RoomMut, Option<RoomMutEdge>>,
    depth: Map<RoomMut, nat>,
    route: Map<RoomMut, Seq<Direction>>,
    visiting: Seq<RoomMut>,
    to_visit: Seq<RoomMut>,
    done: int,
)
    requires
        order_state(i, root, g, depth, route, visiting, to_visit, done, 4),
    ensures
        order_state(i, root, g, depth, route, visiting, to_visit, done + 1, 0),
{
    reveal(order_state);
    assert forall|b: int| 0 <= b < to_visit.len() implies (#[trigger] g[to_visit[b]]) is Some
        && exists|a: int|
        0 <= a <= done + 1 && a < visiting.len() && (#[trigger] visiting[a])
            == g[to_visit[b]]->Some_0.predecessor && (a == done + 1
            ==> g[to_visit[b]]->Some_0.step_direction.rank() < 0) by {
        let a = choose|a: int|
            0 <= a <= done && a < visiting.len() && (#[trigger] visiting[a])
                == g[to_visit[b]]->Some_0.predecessor && (a == done
                ==> g[to_visit[b]]->Some_0.step_direction.rank() < 4);
        assert(visiting[a] == g[to_visit[b]]->Some_0.predecessor);
    }
}

/// When a round is over the order of the next level is the order in which
/// its rooms were seen.
proof fn lemma_order_round_over(
    i: RoomImmut,
    root: RoomMut,
    g: Map<RoomMut, Option<RoomMutEdge>>,
    depth: Map<RoomMut, nat>,
    route: Map<RoomMut, Seq<Direction>>,
    visiting: Seq<RoomMut>,
    to_visit: Seq<RoomMut>,
    done: int,
)
    requires
        order_state(i, root, g, depth, route, visiting, to_visit, done, 0),
    ensures
        order_state(i, root, g, depth, route, to_visit, Seq::empty(), 0, 0),
{
    reveal(order_state);
}

/// A solution of as many moves as lead to the next level is no earlier in
/// dictionary order than the move that the round tries next, because that
/// solution ends in a room that is not recorded yet.
proof fn lemma_first_is_least(
    i: RoomImmut,
    root: RoomMut,
    g: Map<RoomMut, Option<RoomMutEdge>>,
    depth: Map<RoomMut, nat>,
    route: Map<RoomMut, Seq<Direction>>,
    round: nat,
    visiting: Seq<RoomMut>,
    to_visit: Seq<RoomMut>,
    done: int,
    k: int,
    moves: Seq<Direction>,
)
    requires
        round_state(i, root, g, depth, round, visiting, to_visit, done),
        order_state(i, root, g, depth, route, visiting, to_visit, done, k),
        0 <= done < visiting.len(),
        0 <= k < 4,
        tried(i, g, depth, visiting[done], Direction::all(), k),
        moves.len() == round + 1,
        solves(i, root, moves),
    ensures
        !precedes(moves, route[visiting[done]].push(Direction::all()[k])),
{
    let x = run(i, root, moves)->Some_0;
    assert(!g.contains_key(x)) by {
        reveal(round_state);
    }
    lemma_undiscovered(i, root, g, depth, route, round, visiting, to_visit, done, k, moves);
}

/// The outcome of a search for a shortest solution.
pub struct ShortestSearch {
    /// Every room the search has seen.
    pub graph: RoomGraph,
    /// The solved room the search stopped at, if it found one.
    pub goal: Option<RoomMut>,
}

/// Searches the rooms that can be reached from `init`, level by level, for
/// one with the player on the goal.
///
/// The search stops in the round that first records a solved room: that
/// room is as few moves away as any solved room, its recorded steps are the
/// first in dictionary order among the solutions of that many moves, and no
/// recorded room is deeper. Without a solved room the search ends when every
/// reachable room is recorded. Either way the depth of a recorded room is
/// the least number of moves that reach it.
pub fn explore_shortest(i: &RoomImmut, init: &RoomMut) -> (out: ShortestSearch)
    requires
        init.wf(),
    ensures
        out.graph.root == *init,
        out.graph.wf(*i),
        forall|moves: Seq<Direction>|
            (#[trigger] run(*i, *init, moves)) matches Some(m) ==> (out.graph@.contains_key(m)
                ==> out.graph.depth@[m] <= moves.len()),
        match out.goal {
            Some(t) => {
                &&& out.graph@.contains_key(t)
                &&& is_solved(*i, *init, t)
                &&& forall|moves: Seq<Direction>|
                    solves(*i, *init, moves) ==> out.graph.depth@[t] <= moves.len()
                &&& forall|moves: Seq<Direction>|
                    solves(*i, *init, moves) && moves.len() == out.graph.depth@[t] ==> !precedes(
                        moves,
                        directions(out.graph.steps_to(t)),
                    )
                &&& forall|m: RoomMut| #[trigger]
                    out.graph@.contains_key(m) ==> out.graph.depth@[m] <= out.graph.depth@[t]
            },
            None => {
                &&& forall|moves: Seq<Direction>| !solves(*i, *init, moves)
                &&& forall|moves: Seq<Direction>|
                    (#[trigger] run(*i, *init, moves)) matches Some(m) ==> out.graph@.contains_key(
                        m,
                    )
            },
        },
{
    let mut table: FxHashMap<RoomMut, Option<RoomMutEdge>> = FxHashMap::default();
    table_insert(&mut table, *init, None);
    let ghost mut depth: Map<RoomMut, nat> = Map::empty().insert(*init, 0nat);
    let ghost mut route: Map<RoomMut, Seq<Direction>> = Map::empty().insert(*init, Seq::empty());
    let mut visiting: Vec<RoomMut> = Vec::with_capacity(128);
    let mut to_visit: Vec<RoomMut> = Vec::with_capacity(128);
    visiting.push(*init);
    let directions = Direction::all_directions();
    let ghost mut round: nat = 0;
    proof {
        lemma_first_round(*i, *init);
        lemma_order_start(*i, *init);
        assert(visiting@ =~= Seq::<RoomMut>::empty().push(*init));
        assert(to_visit@ =~= Seq::<RoomMut>::empty());
        lemma_round_tree(*i, *init, table@, depth, round, visiting@, to_visit@, 0);
        lemma_rooms_bound(table@.dom());
    }
    while visiting.len() > 0
        invariant
            init.wf(),
            directions@ == Direction::all(),
            to_visit@.len() == 0,
            round_state(*i, *init, table@, depth, round, visiting@, to_visit@, 0),
            order_state(*i, *init, table@, depth, route, visiting@, to_visit@, 0, 0),
            table@.dom().len() <= Set::<RoomMut>::full().len(),
        decreases Set::<RoomMut>::full().len() - table@.dom().len(), visiting@.len(),
    {
        let ghost size_before = table@.dom().len();
        let mut j: usize = 0;
        while j < visiting.len()
            invariant
                init.wf(),
                directions@ == Direction::all(),
                j <= visiting@.len(),
                round_state(*i, *init, table@, depth, round, visiting@, to_visit@, j as int),
                order_state(*i, *init, table@, depth, route, visiting@, to_visit@, j as int, 0),
                table@.dom().len() == size_before + to_visit@.len(),
            decreases visiting@.len() - j,
        {
            let room_mut = visiting[j];
            proof {
                lemma_visiting(
                    *i,
                    *init,
                    table@,
                    depth,
                    round,
                    visiting@,
                    to_visit@,
                    j as int,
                    j as int,
                );
            }
            let mut k: usize = 0;
            while k < 4
                invariant
                    init.wf(),
                    directions@ == Direction::all(),
                    j < visiting@.len(),
                    room_mut == visiting@[j as int],
                    room_mut.wf(),
                    k <= 4,
                    round_state(*i, *init, table@, depth, round, visiting@, to_visit@, j as int),
                    order_state(
                        *i,
                        *init,
                        table@,
                        depth,
                        route,
                        visiting@,
                        to_visit@,
                        j as int,
                        k as int,
                    ),
                    tried(*i, table@, depth, room_mut, directions@, k as int),
                    table@.dom().len() == size_before + to_visit@.len(),
                decreases 4 - k,
            {
                let direction = directions[k];
                match resulting_room_mut(i, &room_mut, direction) {
                    Some(new_room_mut) => {
                        if table_get(&table, &new_room_mut).is_none() {
                            proof {
                                lemma_record(
                                    *i,
                                    *init,
                                    table@,
                                    depth,
                                    round,
                                    visiting@,
                                    to_visit@,
                                    j as int,
                                    directions@,
                                    k as int,
                                    new_room_mut,
                                );
                                lemma_order_record(
                                    *i,
                                    *init,
                                    table@,
                                    depth,
                                    route,
                                    round,
                                    visiting@,
                                    to_visit@,
                                    j as int,
                                    k as int,
                                    new_room_mut,
                                );
                            }
                            let ghost before = table@;
                            let ghost depth_before = depth;
                            let ghost route_before = route;
                            table_insert(
                                &mut table,
                                new_room_mut,
                                Some(RoomMutEdge { predecessor: room_mut, step_direction: direction }),
                            );
                            proof {
                                depth = depth.insert(new_room_mut, round + 1);
                                route = route.insert(new_room_mut, route[room_mut].push(direction));
                            }
                            if new_room_mut.player_at == i.goal_at {
                                proof {
                                    assert forall|moves: Seq<Direction>|
                                        (#[trigger] run(*i, *init, moves)) is Some
                                            && table@.contains_key(
                                            run(*i, *init, moves)->Some_0,
                                        ) implies depth[run(*i, *init, moves)->Some_0]
                                        <= moves.len() by {
                                        lemma_depth_is_least(
                                            *i,
                                            *init,
                                            before,
                                            depth_before,
                                            round,
                                            visiting@,
                                            to_visit@,
                                            j as int,
                                            moves,
                                        );
                                    }
                                    lemma_route_is_trail(
                                        *i,
                                        *init,
                                        table@,
                                        depth,
                                        route,
                                        new_room_mut,
                                    );
                                    assert forall|moves: Seq<Direction>|
                                        solves(*i, *init, moves) && moves.len()
                                            == depth[new_room_mut] implies !precedes(
                                        moves,
                                        route[new_room_mut],
                                    ) by {
                                        lemma_first_is_least(
                                            *i,
                                            *init,
                                            before,
                                            depth_before,
                                            route_before,
                                            round,
                                            visiting@,
                                            to_visit@,
                                            j as int,
                                            k as int,
                                            moves,
                                        );
                                    }
                                    assert forall|moves: Seq<Direction>|
                                        solves(*i, *init, moves) implies depth[new_room_mut]
                                        <= moves.len() by {
                                        lemma_first_is_shortest(
                                            *i,
                                            *init,
                                            before,
                                            depth_before,
                                            round,
                                            visiting@,
                                            to_visit@,
                                            j as int,
                                            moves,
                                        );
                                    }
                                }
                                return ShortestSearch {
                                    graph: RoomGraph { table, root: *init, depth: Ghost(depth) },
                                    goal: Some(new_room_mut),
                                };
                            }
                            to_visit.push(new_room_mut);
                        } else {
                            proof {
                                lemma_nothing_new(
                                    *i,
                                    *init,
                                    table@,
                                    depth,
                                    round,
                                    visiting@,
                                    to_visit@,
                                    j as int,
                                    directions@,
                                    k as int,
                                );
                                lemma_order_next(
                                    *i,
                                    *init,
                                    table@,
                                    depth,
                                    route,
                                    visiting@,
                                    to_visit@,
                                    j as int,
                                    k as int,
                                );
                            }
                        }
                    },
                    None => {
                        proof {
                            lemma_nothing_new(
                                *i,
                                *init,
                                table@,
                                depth,
                                round,
                                visiting@,
                                to_visit@,
                                j as int,
                                directions@,
                                k as int,
                            );
                            lemma_order_next(
                                *i,
                                *init,
                                table@,
                                depth,
                                route,
                                visiting@,
                                to_visit@,
                                j as int,
                                k as int,
                            );
                        }
                    },
                }
                k += 1;
            }
            proof {
                lemma_room_done(*i, *init, table@, depth, round, visiting@, to_visit@, j as int);
                lemma_order_room_done(
                    *i,
                    *init,
                    table@,
                    depth,
                    route,
                    visiting@,
                    to_visit@,
                    j as int,
                );
            }
            j += 1;
        }
        proof {
            lemma_round_over(*i, *init, table@, depth, round, visiting@, to_visit@);
            lemma_order_round_over(
                *i,
                *init,
                table@,
                depth,
                route,
                visiting@,
                to_visit@,
                j as int,
            );
            lemma_round_tree(*i, *init, table@, depth, round, visiting@, to_visit@, j as int);
            lemma_rooms_bound(table@.dom());
            round = round + 1;
        }
        std::mem::swap(&mut visiting, &mut to_visit);
        to_visit.clear();
    }
    proof {
        assert(visiting@ =~= Seq::<RoomMut>::empty());
        assert(to_visit@ =~= Seq::<RoomMut>::empty());
        assert forall|moves: Seq<Direction>| !solves(*i, *init, moves) by {
            if run(*i, *init, moves) is Some {
                lemma_exhausted(*i, *init, table@, depth, round, moves);
            }
        }
        assert forall|moves: Seq<Direction>| (#[trigger] run(*i, *init, moves)) is Some implies table@.contains_key(
            run(*i, *init, moves)->Some_0,
        ) by {
            lemma_exhausted(*i, *init, table@, depth, round, moves);
        }
        assert forall|moves: Seq<Direction>|
            (#[trigger] run(*i, *init, moves)) is Some && table@.contains_key(
                run(*i, *init, moves)->Some_0,
            ) implies depth[run(*i, *init, moves)->Some_0] <= moves.len() by {
            lemma_depth_is_least(
                *i,
                *init,
                table@,
                depth,
                round,
                visiting@,
                to_visit@,
                0,
                moves,
            );
        }
        lemma_round_tree(*i, *init, table@, depth, round, visiting@, to_visit@, 0);
    }
    ShortestSearch { graph: RoomGraph { table, root: *init, depth: Ghost(depth) }, goal: None }
}

/// The recorded path from the root of `room_graph` to the room `end`.
pub fn solution_path(i: &RoomImmut, end: &RoomMut, room_graph: &RoomGraph) -> (p: SolutionPath)
    requires
        room_graph.wf(*i),
        room_graph@.contains_key(*end),
    ensures
        p.start == room_graph.root,
        p.steps@ == room_graph.steps_to(*end),
        p.steps@.len() == room_graph.depth@[*end],
        p.is_valid(*i),
        p.end() == *end,
{
    proof {
        lemma_tree_trail(*i, room_graph.root, room_graph.table@, room_graph.depth@, *end);
    }
    walk_back(&room_graph.table, *end, Ghost(room_graph.depth@))
}

/// Finds a shortest sequence of moves from `init` to a room with the player
/// on the goal, or `None` when no sequence of moves leads to such a room.
///
/// Where several sequences are shortest, the one found is the first of them
/// in dictionary order, with the directions ordered as in
/// [`Direction::all`].
pub fn shortest_path(i: &RoomImmut, init: &RoomMut) -> (r: Option<SolutionPath>)
    requires
        init.wf(),
    ensures
        match r {
            Some(p) => {
                &&& p.start == *init
                &&& p.is_valid(*i)
                &&& solves(*i, *init, p.moves())
                &&& forall|moves: Seq<Direction>|
                    solves(*i, *init, moves) ==> p.steps@.len() <= moves.len()
                &&& forall|moves: Seq<Direction>|
                    solves(*i, *init, moves) && moves.len() == p.steps@.len() ==> !precedes(
                        moves,
                        p.moves(),
                    )
            },
            None => forall|moves: Seq<Direction>| !solves(*i, *init, moves),
        },
{
    let search = explore_shortest(i, init);
    match search.goal {
        Some(goal) => {
            let p = solution_path(i, &goal, &search.graph);
            proof {
                crate::path::lemma_walk_runs(*i, p.start, p.steps@);
            }
            Some(p)
        },
        None => None,
    }
}

} // verus!
