//! Search for the solution that leaves the most of a budget of moves.
//!
//! Every visited room is recorded with the largest number of moves that can
//! still be left on reaching it, as far as the search knows. A room is worked
//! on each time that number has grown: the rooms one move away are then
//! offered one move less, and accept when that is new or better than what
//! they had. When nothing is left to work on, every room within the budget
//! is recorded with the best that can be had.

use crate::coord::Direction;
use crate::finite::{lemma_levels_finite, levels};
use crate::graph::{edges, ranked, table_get, table_insert, trail, trail_start, walk_back, Visit};
use crate::path::{is_solved, is_walk, room_before, run, solves, PathStep, SolutionPath};
use crate::room::{RoomImmut, RoomMut, RoomMutEdge};
use crate::rules::{resulting_room_mut, room_after};
use fxhash::FxHashMap;
use vstd::prelude::*;

verus! {

/// What the budgeted search records for a room: the edge over which it was
/// best reached, and the moves left on reaching it that way.
#[derive(Debug, Clone, Copy, PartialEq, Eq)]
pub struct BudgetedVisit {
    pub edge: Option<RoomMutEdge>,
    pub steps_left: u32,
}

impl Visit for BudgetedVisit {
    open spec fn edge_of(&self) -> Option<RoomMutEdge> {
        self.edge
    }

    fn edge(&self) -> (e: Option<RoomMutEdge>) {
        self.edge
    }
}

/// The rooms seen by a budgeted search.
pub struct BudgetGraph {
    pub table: FxHashMap<RoomMut, BudgetedVisit>,
    /// The room the search started in.
    pub root: RoomMut,
    /// The number of moves the search was allowed.
    pub budget: u32,
}

/// Whether `m` has an entry in `g`.
pub open spec fn recorded(g: Map<RoomMut, BudgetedVisit>, m: RoomMut) -> bool {
    g.contains_key(m)
}

/// Whether every legal move in `m` leads to a recorded room that has at most
/// one move less left than `m`.
pub open spec fn settled(i: RoomImmut, g: Map<RoomMut, BudgetedVisit>, m: RoomMut) -> bool {
    forall|d: Direction|
        (#[trigger] room_after(i, m, d)) matches Some(t) ==> g.contains_key(t) && g[t].steps_left
            + 1 >= g[m].steps_left
}

/// What holds of the table of a budgeted search while the rooms in `pending`
/// wait to be worked on.
///
/// The root is recorded with the whole budget and without an edge. Every
/// other room is recorded with a legal move from a recorded room that has
/// more moves left: exactly one more, unless that room is pending. Every room
/// that has moves left and is not pending is settled.
#[verifier::opaque]
pub open spec fn budget_state(
    i: RoomImmut,
    root: RoomMut,
    budget: u32,
    g: Map<RoomMut, BudgetedVisit>,
    pending: Set<RoomMut>,
) -> bool {
    &&& g.dom().finite()
    &&& g.contains_key(root)
    &&& g[root] == BudgetedVisit { edge: None, steps_left: budget }
    &&& forall|m: RoomMut| #[trigger]
        recorded(g, m) ==> m.wf() && g[m].steps_left <= budget && match g[m].edge {
            None => m == root,
            Some(e) => {
                &&& m != root
                &&& g.contains_key(e.predecessor)
                &&& room_after(i, e.predecessor, e.step_direction) == Some(m)
                &&& g[e.predecessor].steps_left >= g[m].steps_left + 1
                &&& g[e.predecessor].steps_left == g[m].steps_left + 1 || pending.contains(
                    e.predecessor,
                )
            },
        }
    &&& forall|m: RoomMut| #[trigger]
        recorded(g, m) && g[m].steps_left > 0 && !pending.contains(m) ==> settled(i, g, m)
}

impl View for BudgetGraph {
    type V = Map<RoomMut, BudgetedVisit>;

    open spec fn view(&self) -> Map<RoomMut, BudgetedVisit> {
        self.table@
    }
}

impl BudgetGraph {
    /// The search that built the graph has nothing left to work on.
    pub open spec fn wf(self, i: RoomImmut) -> bool {
        budget_state(i, self.root, self.budget, self.table@, Set::empty())
    }

    /// For each recorded room, the number of moves used to reach it.
    pub open spec fn used(self) -> Map<RoomMut, nat> {
        Map::new(
            |m: RoomMut| self.table@.contains_key(m),
            |m: RoomMut| (self.budget - self.table@[m].steps_left) as nat,
        )
    }

    /// The recorded steps from the root to `m`.
    pub open spec fn steps_to(self, m: RoomMut) -> Seq<PathStep> {
        trail(edges(self.table@), self.used(), m)
    }
}

/// Whether the first `k` of the directions `dirs` have been offered in a
/// room that has `left` moves left.
spec fn offered(
    i: RoomImmut,
    g: Map<RoomMut, BudgetedVisit>,
    room: RoomMut,
    left: int,
    dirs: Seq<Direction>,
    k: int,
) -> bool {
    forall|n: int|
        0 <= n < k ==> (room_after(i, room, #[trigger] dirs[n]) matches Some(t) ==> g.contains_key(
            t,
        ) && g[t].steps_left + 1 >= left)
}

/// Whether `g2` records every room of `g`, with at least as many moves left.
spec fn grown(g: Map<RoomMut, BudgetedVisit>, g2: Map<RoomMut, BudgetedVisit>) -> bool {
    forall|m: RoomMut| #[trigger]
        recorded(g, m) ==> g2.contains_key(m) && g2[m].steps_left >= g[m].steps_left
}

/// Whether `best` is a solved room with the most moves left of all recorded
/// solved rooms, or absent when no solved room is recorded.
spec fn is_best(
    i: RoomImmut,
    root: RoomMut,
    g: Map<RoomMut, BudgetedVisit>,
    best: Option<RoomMut>,
) -> bool {
    match best {
        Some(b) => {
            &&& g.contains_key(b)
            &&& is_solved(i, root, b)
            &&& forall|m: RoomMut| #[trigger]
                recorded(g, m) && is_solved(i, root, m) ==> g[m].steps_left <= g[b].steps_left
        },
        None => forall|m: RoomMut| #[trigger] recorded(g, m) ==> !is_solved(i, root, m),
    }
}

/// The pairs of a recorded room and a number up to its moves left. Each
/// acceptance adds a pair, and there are only finitely many pairs.
spec fn filled(g: Map<RoomMut, BudgetedVisit>) -> Set<(RoomMut, int)> {
    Set::new(|p: (RoomMut, int)| g.contains_key(p.0) && 0 <= p.1 <= g[p.0].steps_left)
}

proof fn lemma_filled_bounded(budget: u32, g: Map<RoomMut, BudgetedVisit>)
    requires
        forall|m: RoomMut| #[trigger] recorded(g, m) ==> g[m].steps_left <= budget,
    ensures
        filled(g).finite(),
        filled(g).len() <= levels(budget as nat).len(),
{
    lemma_levels_finite(budget as nat);
    assert forall|p: (RoomMut, int)| filled(g).contains(p) implies levels(budget as nat).contains(
        p,
    ) by {
        assert(recorded(g, p.0));
    }
    assert(filled(g).subset_of(levels(budget as nat)));
    vstd::set_lib::lemma_set_subset_finite(levels(budget as nat), filled(g));
    vstd::set_lib::lemma_len_subset(filled(g), levels(budget as nat));
}

proof fn lemma_filled_grows(
    budget: u32,
    g: Map<RoomMut, BudgetedVisit>,
    g2: Map<RoomMut, BudgetedVisit>,
    t: RoomMut,
)
    requires
        grown(g, g2),
        g2.contains_key(t),
        !g.contains_key(t) || g2[t].steps_left > g[t].steps_left,
        forall|m: RoomMut| #[trigger] recorded(g2, m) ==> g2[m].steps_left <= budget,
    ensures
        filled(g).finite(),
        filled(g2).finite(),
        filled(g).len() < filled(g2).len(),
        filled(g2).len() <= levels(budget as nat).len(),
{
    lemma_filled_bounded(budget, g2);
    let x = (t, g2[t].steps_left as int);
    assert(filled(g2).contains(x));
    assert(!filled(g).contains(x));
    assert forall|p: (RoomMut, int)| filled(g).insert(x).contains(p) implies filled(g2).contains(
        p,
    ) by {
        if p != x {
            assert(recorded(g, p.0));
        }
    }
    assert(filled(g).subset_of(filled(g2))) by {
        assert forall|p: (RoomMut, int)| filled(g).contains(p) implies filled(g2).contains(p) by {
            assert(filled(g).insert(x).contains(p));
        }
    }
    vstd::set_lib::lemma_set_subset_finite(filled(g2), filled(g));
    assert(filled(g).insert(x).subset_of(filled(g2)));
    vstd::set_lib::lemma_len_subset(filled(g).insert(x), filled(g2));
}

/// At the start only the root is recorded, and it is pending if there is
/// any budget to spend.
proof fn lemma_budget_start(i: RoomImmut, root: RoomMut, budget: u32)
    requires
        root.wf(),
    ensures
        budget_state(
            i,
            root,
            budget,
            Map::<RoomMut, BudgetedVisit>::empty().insert(
                root,
                BudgetedVisit { edge: None, steps_left: budget },
            ),
            if budget > 0 {
                Set::<RoomMut>::empty().insert(root)
            } else {
                Set::<RoomMut>::empty()
            },
        ),
        is_best(
            i,
            root,
            Map::<RoomMut, BudgetedVisit>::empty().insert(
                root,
                BudgetedVisit { edge: None, steps_left: budget },
            ),
            None,
        ),
{
    reveal(budget_state);
    let g = Map::<RoomMut, BudgetedVisit>::empty().insert(
        root,
        BudgetedVisit { edge: None, steps_left: budget },
    );
    assert(g.dom() =~= Set::<RoomMut>::empty().insert(root));
}

/// A room still pending may as well be counted among the rooms to work on.
proof fn lemma_more_pending(
    i: RoomImmut,
    root: RoomMut,
    budget: u32,
    g: Map<RoomMut, BudgetedVisit>,
    pending: Set<RoomMut>,
    more: Set<RoomMut>,
)
    requires
        budget_state(i, root, budget, g, pending),
        pending.subset_of(more),
    ensures
        budget_state(i, root, budget, g, more),
{
    reveal(budget_state);
    assert forall|m: RoomMut| #[trigger] recorded(g, m) implies m.wf() && g[m].steps_left
        <= budget && match g[m].edge {
        None => m == root,
        Some(e) => {
            &&& m != root
            &&& g.contains_key(e.predecessor)
            &&& room_after(i, e.predecessor, e.step_direction) == Some(m)
            &&& g[e.predecessor].steps_left >= g[m].steps_left + 1
            &&& g[e.predecessor].steps_left == g[m].steps_left + 1 || more.contains(e.predecessor)
        },
    } by {}
}

/// What the table records of a room: it lies on the grid and has no more
/// moves left than the budget.
proof fn lemma_budget_member(
    i: RoomImmut,
    root: RoomMut,
    budget: u32,
    g: Map<RoomMut, BudgetedVisit>,
    pending: Set<RoomMut>,
    m: RoomMut,
)
    requires
        budget_state(i, root, budget, g, pending),
        g.contains_key(m),
    ensures
        m.wf(),
        g[m].steps_left <= budget,
        g.dom().finite(),
        forall|n: RoomMut| #[trigger] recorded(g, n) ==> g[n].steps_left <= budget,
{
    reveal(budget_state);
    assert(recorded(g, m));
}

/// Accepting an offer keeps the table in order: the room that accepts
/// becomes pending if it has moves left.
proof fn lemma_accept(
    i: RoomImmut,
    root: RoomMut,
    budget: u32,
    g: Map<RoomMut, BudgetedVisit>,
    pending: Set<RoomMut>,
    room: RoomMut,
    d: Direction,
    t: RoomMut,
)
    requires
        budget_state(i, root, budget, g, pending),
        pending.contains(room),
        g.contains_key(room),
        g[room].steps_left > 0,
        room_after(i, room, d) == Some(t),
        t.wf(),
        !g.contains_key(t) || g[t].steps_left < g[room].steps_left - 1,
    ensures
        ({
            let left = (g[room].steps_left - 1) as u32;
            let visit = BudgetedVisit {
                edge: Some(RoomMutEdge { predecessor: room, step_direction: d }),
                steps_left: left,
            };
            let g2 = g.insert(t, visit);
            let pending2 = if left > 0 {
                pending.insert(t)
            } else {
                pending
            };
            &&& budget_state(i, root, budget, g2, pending2)
            &&& grown(g, g2)
            &&& t != root
            &&& t != room
        }),
{
    reveal(budget_state);
    let left = (g[room].steps_left - 1) as u32;
    let visit = BudgetedVisit {
        edge: Some(RoomMutEdge { predecessor: room, step_direction: d }),
        steps_left: left,
    };
    let g2 = g.insert(t, visit);
    let pending2 = if left > 0 {
        pending.insert(t)
    } else {
        pending
    };
    assert(recorded(g, room));
    assert(recorded(g, root));
    if g.contains_key(t) {
        assert(recorded(g, t));
    }
    assert(t != root);
    assert(t != room);
    assert forall|m: RoomMut| #[trigger] recorded(g, m) implies g2.contains_key(m)
        && g2[m].steps_left >= g[m].steps_left by {}
    assert forall|m: RoomMut| #[trigger] recorded(g2, m) implies m.wf() && g2[m].steps_left
        <= budget && match g2[m].edge {
        None => m == root,
        Some(e) => {
            &&& m != root
            &&& g2.contains_key(e.predecessor)
            &&& room_after(i, e.predecessor, e.step_direction) == Some(m)
            &&& g2[e.predecessor].steps_left >= g2[m].steps_left + 1
            &&& g2[e.predecessor].steps_left == g2[m].steps_left + 1 || pending2.contains(
                e.predecessor,
            )
        },
    } by {
        if m != t {
            assert(recorded(g, m));
            match g[m].edge {
                Some(e) => {
                    if e.predecessor == t {
                        assert(g.contains_key(t));
                        assert(left > 0);
                    }
                },
                None => {},
            }
        }
    }
    assert forall|m: RoomMut| #[trigger]
        recorded(g2, m) && g2[m].steps_left > 0 && !pending2.contains(m) implies settled(
        i,
        g2,
        m,
    ) by {
        assert(m != t);
        assert(recorded(g, m));
        assert(settled(i, g, m));
        assert forall|dd: Direction| (#[trigger] room_after(i, m, dd)) is Some implies g2.contains_key(
            room_after(i, m, dd)->Some_0,
        ) && g2[room_after(i, m, dd)->Some_0].steps_left + 1 >= g2[m].steps_left by {
            let s = room_after(i, m, dd)->Some_0;
            assert(g.contains_key(s));
            assert(recorded(g, s));
        }
    }
}

/// Offers made before an acceptance stay made, since no room loses moves.
proof fn lemma_offered_grown(
    i: RoomImmut,
    g: Map<RoomMut, BudgetedVisit>,
    g2: Map<RoomMut, BudgetedVisit>,
    room: RoomMut,
    left: int,
    dirs: Seq<Direction>,
    k: int,
)
    requires
        offered(i, g, room, left, dirs, k),
        grown(g, g2),
    ensures
        offered(i, g2, room, left, dirs, k),
{
    assert forall|n: int| 0 <= n < k implies (room_after(i, room, #[trigger] dirs[n]) matches Some(
        t,
    ) ==> g2.contains_key(t) && g2[t].steps_left + 1 >= left) by {
        if room_after(i, room, dirs[n]) is Some {
            let t = room_after(i, room, dirs[n])->Some_0;
            assert(recorded(g, t));
        }
    }
}

/// A room in which all four directions have been offered is settled, and the
/// rooms reached best from it have exactly one move less left.
proof fn lemma_worked(
    i: RoomImmut,
    root: RoomMut,
    budget: u32,
    g: Map<RoomMut, BudgetedVisit>,
    pending: Set<RoomMut>,
    room: RoomMut,
)
    requires
        budget_state(i, root, budget, g, pending),
        g.contains_key(room),
        offered(i, g, room, g[room].steps_left as int, Direction::all(), 4),
    ensures
        budget_state(i, root, budget, g, pending.remove(room)),
{
    reveal(budget_state);
    let rest = pending.remove(room);
    assert forall|d: Direction| (#[trigger] room_after(i, room, d)) is Some implies g.contains_key(
        room_after(i, room, d)->Some_0,
    ) && g[room_after(i, room, d)->Some_0].steps_left + 1 >= g[room].steps_left by {
        Direction::lemma_all_covers(d);
        let k = choose|k: int| 0 <= k < 4 && #[trigger] Direction::all()[k] == d;
        assert(Direction::all()[k] == d);
    }
    assert(settled(i, g, room));
    assert forall|m: RoomMut| #[trigger] recorded(g, m) implies m.wf() && g[m].steps_left
        <= budget && match g[m].edge {
        None => m == root,
        Some(e) => {
            &&& m != root
            &&& g.contains_key(e.predecessor)
            &&& room_after(i, e.predecessor, e.step_direction) == Some(m)
            &&& g[e.predecessor].steps_left >= g[m].steps_left + 1
            &&& g[e.predecessor].steps_left == g[m].steps_left + 1 || rest.contains(e.predecessor)
        },
    } by {
        match g[m].edge {
            Some(e) => {
                if e.predecessor == room {
                    assert(room_after(i, room, e.step_direction) is Some);
                }
            },
            None => {},
        }
    }
}

/// When nothing is pending, the rooms that `budget` or fewer moves reach are
/// recorded, with no fewer moves left than those moves leave.
pub proof fn lemma_budget_reached(
    i: RoomImmut,
    root: RoomMut,
    budget: u32,
    g: Map<RoomMut, BudgetedVisit>,
    moves: Seq<Direction>,
)
    requires
        budget_state(i, root, budget, g, Set::empty()),
        moves.len() <= budget,
        run(i, root, moves) is Some,
    ensures
        g.contains_key(run(i, root, moves)->Some_0),
        g[run(i, root, moves)->Some_0].steps_left + moves.len() >= budget,
    decreases moves.len(),
{
    reveal(budget_state);
    if moves.len() > 0 {
        lemma_budget_reached(i, root, budget, g, moves.drop_last());
        let m = run(i, root, moves.drop_last())->Some_0;
        assert(recorded(g, m));
        assert(settled(i, g, m));
        assert(room_after(i, m, moves.last()) is Some);
    }
}

/// When nothing is pending, the recorded steps to a room form a legal walk
/// from the root to that room, of as many steps as the room has used moves.
pub proof fn lemma_budget_trail(i: RoomImmut, graph: BudgetGraph, m: RoomMut)
    requires
        graph.wf(i),
        graph@.contains_key(m),
    ensures
        ranked(edges(graph@), graph.used()),
        trail_start(edges(graph@), graph.used(), m) == graph.root,
        graph.steps_to(m).len() + graph@[m].steps_left == graph.budget,
        is_walk(i, graph.root, graph.steps_to(m)),
        room_before(graph.root, graph.steps_to(m), graph.steps_to(m).len() as int) == m,
    decreases graph.budget - graph@[m].steps_left,
{
    reveal(budget_state);
    let g = graph@;
    let e = edges(g);
    let used = graph.used();
    let root = graph.root;
    assert(e.dom() =~= g.dom());
    assert forall|n: RoomMut| #![trigger e[n]] e.contains_key(n) implies (e[n] matches Some(edge)
        ==> e.contains_key(edge.predecessor) && used[edge.predecessor] < used[n]) by {
        assert(recorded(g, n));
        assert(e[n] == g[n].edge);
        match g[n].edge {
            Some(edge) => {
                assert(recorded(g, edge.predecessor));
            },
            None => {},
        }
    }
    assert(recorded(g, m));
    assert(e[m] == g[m].edge);
    match g[m].edge {
        None => {},
        Some(edge) => {
            let p = edge.predecessor;
            assert(recorded(g, p));
            lemma_budget_trail(i, graph, p);
            let shorter = trail(e, used, p);
            let t = trail(e, used, m);
            assert(t == shorter.push(PathStep { direction: edge.step_direction, room: m }));
            assert forall|k: int| 0 <= k < t.len() implies room_after(
                i,
                room_before(root, t, k),
                #[trigger] t[k].direction,
            ) == Some(t[k].room) by {
                if k < shorter.len() {
                    assert(shorter[k].direction == t[k].direction);
                    assert(room_before(root, t, k) == room_before(root, shorter, k));
                } else {
                    assert(room_before(root, t, k) == room_before(
                        root,
                        shorter,
                        shorter.len() as int,
                    ));
                }
            }
        },
    }
}

/// The outcome of a budgeted search.
pub struct BudgetedSearch {
    /// Every room the search has seen.
    pub graph: BudgetGraph,
    /// The solved room with the most moves left, if a solved room was seen.
    pub best: Option<RoomMut>,
}

/// A solution found within a budget of moves.
#[derive(Debug, PartialEq, Eq)]
pub struct BudgetedSolution {
    pub path: SolutionPath,
    /// The moves of the budget that the path does not use.
    pub steps_left: u32,
}

/// Searches the rooms that at most `budget` moves reach from `init`, and
/// keeps for each the most moves that can be left on reaching it.
///
/// Of the solved rooms found, the one reached with the most moves left is
/// reported: no sequence of at most `budget` moves solves the level in fewer
/// moves than were used to reach it.
pub fn explore_budgeted(i: &RoomImmut, init: &RoomMut, budget: u32) -> (out: BudgetedSearch)
    requires
        init.wf(),
    ensures
        out.graph.root == *init,
        out.graph.budget == budget,
        out.graph.wf(*i),
        forall|moves: Seq<Direction>|
            moves.len() <= budget && (#[trigger] run(*i, *init, moves)) is Some ==> {
                let m = run(*i, *init, moves)->Some_0;
                out.graph@.contains_key(m) && out.graph@[m].steps_left + moves.len() >= budget
            },
        match out.best {
            Some(t) => {
                &&& out.graph@.contains_key(t)
                &&& is_solved(*i, *init, t)
                &&& forall|moves: Seq<Direction>|
                    moves.len() <= budget && #[trigger] solves(*i, *init, moves)
                        ==> out.graph@[t].steps_left + moves.len() >= budget
            },
            None => forall|moves: Seq<Direction>|
                moves.len() <= budget ==> !#[trigger] solves(*i, *init, moves),
        },
{
    let mut table: FxHashMap<RoomMut, BudgetedVisit> = FxHashMap::default();
    table_insert(&mut table, *init, BudgetedVisit { edge: None, steps_left: budget });
    let mut stack: Vec<RoomMut> = Vec::new();
    if budget > 0 {
        stack.push(*init);
    }
    let mut best: Option<RoomMut> = None;
    let mut best_left: u32 = 0;
    let directions = Direction::all_directions();
    proof {
        lemma_budget_start(*i, *init, budget);
        if budget > 0 {
            assert(stack@[0] == *init);
            assert(stack@.contains(*init));
        }
        assert(stack@.to_set() =~= (if budget > 0 {
            Set::<RoomMut>::empty().insert(*init)
        } else {
            Set::<RoomMut>::empty()
        }));
        lemma_budget_member(*i, *init, budget, table@, stack@.to_set(), *init);
        lemma_filled_bounded(budget, table@);
    }
    while stack.len() > 0
        invariant
            init.wf(),
            directions@ == Direction::all(),
            budget_state(*i, *init, budget, table@, stack@.to_set()),
            forall|n: int|
                0 <= n < stack@.len() ==> table@.contains_key(#[trigger] stack@[n])
                    && table@[stack@[n]].steps_left > 0,
            is_best(*i, *init, table@, best),
            best matches Some(b) ==> table@[b].steps_left == best_left,
            filled(table@).finite(),
            filled(table@).len() <= levels(budget as nat).len(),
        decreases levels(budget as nat).len() - filled(table@).len(), stack@.len(),
    {
        let ghost filled_before = filled(table@).len();
        let ghost stack_before = stack@;
        let room_mut = stack.pop().unwrap();
        let steps_left: u32 = table_get(&table, &room_mut).unwrap().steps_left;
        let ghost pending = stack_before.to_set();
        proof {
            assert(stack_before[stack_before.len() - 1] == room_mut);
            assert(pending.contains(room_mut));
            assert(stack@.to_set().insert(room_mut) =~= pending) by {
                assert forall|m: RoomMut| pending.contains(m) implies stack@.to_set().insert(
                    room_mut,
                ).contains(m) by {
                    let n = choose|n: int| 0 <= n < stack_before.len() && stack_before[n] == m;
                    if n < stack@.len() {
                        assert(stack@[n] == m);
                    }
                }
                assert forall|m: RoomMut|
                    stack@.to_set().insert(room_mut).contains(m) implies pending.contains(m) by {
                    if m != room_mut {
                        let n = choose|n: int| 0 <= n < stack@.len() && stack@[n] == m;
                        assert(stack_before[n] == m);
                    }
                }
            }
            lemma_budget_member(*i, *init, budget, table@, pending, room_mut);
        }
        let mut k: usize = 0;
        while k < 4
            invariant
                init.wf(),
                directions@ == Direction::all(),
                k <= 4,
                room_mut.wf(),
                steps_left > 0,
                table@.contains_key(room_mut),
                table@[room_mut].steps_left == steps_left,
                budget_state(*i, *init, budget, table@, stack@.to_set().insert(room_mut)),
                forall|n: int|
                    0 <= n < stack@.len() ==> table@.contains_key(#[trigger] stack@[n])
                        && table@[stack@[n]].steps_left > 0,
                offered(*i, table@, room_mut, steps_left as int, directions@, k as int),
                is_best(*i, *init, table@, best),
                best matches Some(b) ==> table@[b].steps_left == best_left,
                filled(table@).finite(),
                filled(table@).len() <= levels(budget as nat).len(),
                filled(table@).len() > filled_before || (filled(table@).len() == filled_before
                    && stack@.len() == stack_before.len() - 1),
            decreases 4 - k,
        {
            let direction = directions[k];
            match resulting_room_mut(i, &room_mut, direction) {
                Some(new_room_mut) => {
                    let new_left: u32 = steps_left - 1;
                    let accepts = match table_get(&table, &new_room_mut) {
                        Some(visit) => visit.steps_left < new_left,
                        None => true,
                    };
                    if accepts {
                        let ghost before = table@;
                        let ghost waiting = stack@.to_set().insert(room_mut);
                        proof {
                            lemma_accept(
                                *i,
                                *init,
                                budget,
                                before,
                                waiting,
                                room_mut,
                                direction,
                                new_room_mut,
                            );
                        }
                        table_insert(
                            &mut table,
                            new_room_mut,
                            BudgetedVisit {
                                edge: Some(
                                    RoomMutEdge { predecessor: room_mut, step_direction: direction },
                                ),
                                steps_left: new_left,
                            },
                        );
                        proof {
                            lemma_offered_grown(
                                *i,
                                before,
                                table@,
                                room_mut,
                                steps_left as int,
                                directions@,
                                k as int,
                            );
                            assert forall|n: int| 0 <= n < stack@.len() implies table@.contains_key(
                                #[trigger] stack@[n],
                            ) && table@[stack@[n]].steps_left > 0 by {
                                assert(recorded(before, stack@[n]));
                            }
                            assert(recorded(before, room_mut));
                        }
                        let ghost stack_old = stack@;
                        if new_left > 0 {
                            stack.push(new_room_mut);
                            proof {
                                assert(stack@.to_set().insert(room_mut) =~= waiting.insert(
                                    new_room_mut,
                                )) by {
                                    assert forall|m: RoomMut|
                                        stack@.to_set().insert(room_mut).contains(
                                            m,
                                        ) implies waiting.insert(new_room_mut).contains(m) by {
                                        if m != room_mut && m != new_room_mut {
                                            let n = choose|n: int|
                                                0 <= n < stack@.len() && stack@[n] == m;
                                            assert(stack_old[n] == m);
                                        }
                                    }
                                    assert forall|m: RoomMut|
                                        waiting.insert(new_room_mut).contains(
                                            m,
                                        ) implies stack@.to_set().insert(room_mut).contains(m) by {
                                        if m == new_room_mut {
                                            assert(stack@[stack_old.len() as int] == m);
                                        } else if m != room_mut {
                                            let n = choose|n: int|
                                                0 <= n < stack_old.len() && stack_old[n] == m;
                                            assert(stack@[n] == m);
                                        }
                                    }
                                }
                            }
                        }
                        proof {
                            lemma_budget_member(
                                *i,
                                *init,
                                budget,
                                table@,
                                stack@.to_set().insert(room_mut),
                                new_room_mut,
                            );
                            lemma_filled_grows(budget, before, table@, new_room_mut);
                        }
                        let ghost best_before = best;
                        if new_room_mut.player_at == i.goal_at && (best.is_none() || new_left
                            > best_left) {
                            best = Some(new_room_mut);
                            best_left = new_left;
                        }
                        proof {
                            assert forall|m: RoomMut| #[trigger]
                                recorded(table@, m) && m != new_room_mut implies recorded(
                                before,
                                m,
                            ) && table@[m] == before[m] by {}
                            match best_before {
                                Some(b) => {
                                    assert(recorded(before, b));
                                },
                                None => {},
                            }
                            assert(is_best(*i, *init, table@, best));
                        }
                    } else {
                        assert(offered(
                            *i,
                            table@,
                            room_mut,
                            steps_left as int,
                            directions@,
                            k as int + 1,
                        ));
                    }
                },
                None => {},
            }
            k += 1;
        }
        proof {
            lemma_worked(
                *i,
                *init,
                budget,
                table@,
                stack@.to_set().insert(room_mut),
                room_mut,
            );
            lemma_more_pending(
                *i,
                *init,
                budget,
                table@,
                stack@.to_set().insert(room_mut).remove(room_mut),
                stack@.to_set(),
            );
        }
    }
    proof {
        assert(stack@.to_set() =~= Set::<RoomMut>::empty());
        assert forall|moves: Seq<Direction>|
            moves.len() <= budget && (#[trigger] run(*i, *init, moves)) is Some implies {
            let m = run(*i, *init, moves)->Some_0;
            table@.contains_key(m) && table@[m].steps_left + moves.len() >= budget
        } by {
            lemma_budget_reached(*i, *init, budget, table@, moves);
        }
        match best {
            Some(t) => {
                assert forall|moves: Seq<Direction>|
                    moves.len() <= budget && #[trigger] solves(
                        *i,
                        *init,
                        moves,
                    ) implies table@[t].steps_left + moves.len() >= budget by {
                    lemma_budget_reached(*i, *init, budget, table@, moves);
                    assert(recorded(table@, run(*i, *init, moves)->Some_0));
                }
            },
            None => {
                assert forall|moves: Seq<Direction>| moves.len() <= budget implies !#[trigger] solves(
                    *i,
                    *init,
                    moves,
                ) by {
                    if run(*i, *init, moves) is Some {
                        lemma_budget_reached(*i, *init, budget, table@, moves);
                        assert(recorded(table@, run(*i, *init, moves)->Some_0));
                    }
                }
            },
        }
    }
    BudgetedSearch { graph: BudgetGraph { table, root: *init, budget }, best }
}

/// The recorded path from the root of `graph` to the room `end`.
pub fn budgeted_solution_path(i: &RoomImmut, end: &RoomMut, graph: &BudgetGraph) -> (p:
    SolutionPath)
    requires
        graph.wf(*i),
        graph@.contains_key(*end),
    ensures
        p.start == graph.root,
        p.steps@ == graph.steps_to(*end),
        p.steps@.len() + graph@[*end].steps_left == graph.budget,
        p.is_valid(*i),
        p.end() == *end,
{
    proof {
        lemma_budget_trail(*i, *graph, *end);
    }
    walk_back(&graph.table, *end, Ghost(graph.used()))
}

/// Finds a solution of at most `budget` moves that uses as few moves as any
/// such solution, or `None` when `budget` moves do not suffice.
pub fn budgeted_path(i: &RoomImmut, init: &RoomMut, budget: u32) -> (r: Option<BudgetedSolution>)
    requires
        init.wf(),
    ensures
        match r {
            Some(s) => {
                &&& s.path.start == *init
                &&& s.path.is_valid(*i)
                &&& solves(*i, *init, s.path.moves())
                &&& s.path.steps@.len() + s.steps_left == budget
                &&& forall|moves: Seq<Direction>|
                    moves.len() <= budget && #[trigger] solves(*i, *init, moves)
                        ==> s.path.steps@.len() <= moves.len()
            },
            None => forall|moves: Seq<Direction>|
                moves.len() <= budget ==> !#[trigger] solves(*i, *init, moves),
        },
{
    let search = explore_budgeted(i, init, budget);
    match search.best {
        Some(goal) => {
            let path = budgeted_solution_path(i, &goal, &search.graph);
            let steps_left: u32 = table_get(&search.graph.table, &goal).unwrap().steps_left;
            proof {
                crate::path::lemma_walk_runs(*i, path.start, path.steps@);
            }
            Some(BudgetedSolution { path, steps_left })
        },
        None => None,
    }
}

} // verus!
