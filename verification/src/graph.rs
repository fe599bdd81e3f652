//! The table of visited rooms, and the walk back along its recorded edges.
//!
//! The table is a hash map keyed by whole rooms: an entry is found again by
//! the value of the room, never through a reference into the table.

use crate::path::{PathStep, SolutionPath};
use crate::room::{RoomMut, RoomMutEdge};
use fxhash::FxHashMap;
use vstd::prelude::*;

verus! {

/// `fxhash::FxHasher`, the hasher of the tables. It is only named here, as
/// part of the type of a table: nothing is claimed of its hashes.
#[verifier::external_type_specification]
#[verifier::external_body]
pub struct ExFxHasher(fxhash::FxHasher);

/// `std::hash::BuildHasherDefault`, which makes the hashers of a table by
/// `Default`. It is only named here, as part of the type of a table.
#[verifier::external_type_specification]
#[verifier::external_body]
#[verifier::reject_recursive_types(H)]
pub struct ExBuildHasherDefault<H>(std::hash::BuildHasherDefault<H>);

/// `HashMap::get` on a `fxhash::FxHashMap` keyed by rooms: the entry stored
/// under the key that equals `k`, if there is one.
///
/// vstd says the same of `HashMap::get` for keys and hashers that obey its
/// model of hashing. That rooms and `FxHasher` do is taken on trust here,
/// and rests on three things. The derived `Eq` of a room holds exactly when
/// all fields agree, which is equality in specifications. The derived `Hash`
/// feeds the hasher the fields, so equal rooms hash alike. `FxHasher` starts
/// from a fixed state and is a function of what it is fed, so a room hashes
/// alike each time.
#[verifier::external_body]
pub(crate) fn table_get<'a, V>(t: &'a FxHashMap<RoomMut, V>, k: &RoomMut) -> (r: Option<&'a V>)
    ensures
        r == (if t@.contains_key(*k) {
            Some(&t@[*k])
        } else {
            None::<&V>
        }),
{
    t.get(k)
}

/// `HashMap::insert` on a `fxhash::FxHashMap` keyed by rooms: afterwards the
/// map holds `v` under `k`, in place of whatever it held there, and every
/// other entry as before. The value that was replaced is dropped. The claim
/// rests on the same three things as that of [`table_get`].
#[verifier::external_body]
pub(crate) fn table_insert<V>(t: &mut FxHashMap<RoomMut, V>, k: RoomMut, v: V)
    ensures
        final(t)@ == old(t)@.insert(k, v),
{
    t.insert(k, v);
}

/// What a table records about a visited room, as far as the walk back needs
/// it: the edge over which the room was reached.
pub trait Visit {
    spec fn edge_of(&self) -> Option<RoomMutEdge>;

    fn edge(&self) -> (e: Option<RoomMutEdge>)
        ensures
            e == self.edge_of(),
    ;
}

impl Visit for Option<RoomMutEdge> {
    open spec fn edge_of(&self) -> Option<RoomMutEdge> {
        *self
    }

    fn edge(&self) -> (e: Option<RoomMutEdge>) {
        *self
    }
}

/// The edges that a table records, room by room.
pub open spec fn edges<V: Visit>(t: Map<RoomMut, V>) -> Map<RoomMut, Option<RoomMutEdge>> {
    t.map_values(|v: V| v.edge_of())
}

/// Whether each recorded edge comes from a recorded room of lower rank. A
/// table with such a ranking has no cycle of edges.
pub open spec fn ranked(e: Map<RoomMut, Option<RoomMutEdge>>, rank: Map<RoomMut, nat>) -> bool {
    forall|m: RoomMut|
        #![trigger e[m]]
        e.contains_key(m) ==> (e[m] matches Some(edge) ==> e.contains_key(edge.predecessor)
            && rank[edge.predecessor] < rank[m])
}

/// Whether the walk back from `m` has an edge to follow.
pub open spec fn has_edge(
    e: Map<RoomMut, Option<RoomMutEdge>>,
    rank: Map<RoomMut, nat>,
    m: RoomMut,
) -> bool {
    e.contains_key(m) && e[m] is Some && rank[e[m]->Some_0.predecessor] < rank[m]
}

/// The room at which the walk back from `m` ends.
pub open spec fn trail_start(
    e: Map<RoomMut, Option<RoomMutEdge>>,
    rank: Map<RoomMut, nat>,
    m: RoomMut,
) -> RoomMut
    decreases rank[m],
{
    if has_edge(e, rank, m) {
        trail_start(e, rank, e[m]->Some_0.predecessor)
    } else {
        m
    }
}

/// The steps that lead to `m` along the recorded edges, first step first.
pub open spec fn trail(
    e: Map<RoomMut, Option<RoomMutEdge>>,
    rank: Map<RoomMut, nat>,
    m: RoomMut,
) -> Seq<PathStep>
    decreases rank[m],
{
    if has_edge(e, rank, m) {
        trail(e, rank, e[m]->Some_0.predecessor).push(
            PathStep { direction: e[m]->Some_0.step_direction, room: m },
        )
    } else {
        Seq::empty()
    }
}

/// Walks the recorded edges back from `end` until a room without an edge is
/// reached, and returns the walk in chronological order.
pub(crate) fn walk_back<V: Visit>(
    table: &FxHashMap<RoomMut, V>,
    end: RoomMut,
    Ghost(rank): Ghost<Map<RoomMut, nat>>,
) -> (p: SolutionPath)
    requires
        table@.contains_key(end),
        ranked(edges(table@), rank),
    ensures
        p.start == trail_start(edges(table@), rank, end),
        p.steps@ == trail(edges(table@), rank, end),
{
    let ghost e = edges(table@);
    let mut node = end;
    let mut pred_stack: Vec<PathStep> = Vec::new();
    loop
        invariant
            e == edges(table@),
            ranked(e, rank),
            e.contains_key(node),
            trail(e, rank, end) == trail(e, rank, node) + pred_stack@.reverse(),
            trail_start(e, rank, end) == trail_start(e, rank, node),
        ensures
            !has_edge(e, rank, node),
            trail(e, rank, end) == trail(e, rank, node) + pred_stack@.reverse(),
            trail_start(e, rank, end) == trail_start(e, rank, node),
        decreases rank[node],
    {
        let edge = match table_get(table, &node) {
            Some(visit) => visit.edge(),
            None => None,
        };
        match edge {
            Some(room_mut_edge) => {
                proof {
                    let longer = pred_stack@.push(
                        PathStep { direction: room_mut_edge.step_direction, room: node },
                    );
                    assert(has_edge(e, rank, node));
                    assert(longer.reverse() =~= seq![
                        PathStep { direction: room_mut_edge.step_direction, room: node },
                    ] + pred_stack@.reverse());
                    assert(trail(e, rank, node) + pred_stack@.reverse() =~= trail(
                        e,
                        rank,
                        room_mut_edge.predecessor,
                    ) + longer.reverse());
                }
                pred_stack.push(PathStep { direction: room_mut_edge.step_direction, room: node });
                node = room_mut_edge.predecessor;
            },
            None => {
                break ;
            },
        }
    }
    let mut steps: Vec<PathStep> = Vec::new();
    let mut k: usize = pred_stack.len();
    while k > 0
        invariant
            k <= pred_stack@.len(),
            steps@ == pred_stack@.reverse().take(pred_stack@.len() - k),
        decreases k,
    {
        k -= 1;
        steps.push(pred_stack[k]);
        assert(steps@ =~= pred_stack@.reverse().take(pred_stack@.len() - k));
    }
    assert(steps@ =~= trail(e, rank, end));
    SolutionPath { start: node, steps }
}

} // verus!
