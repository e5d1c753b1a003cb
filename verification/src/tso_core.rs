use vstd::prelude::*;
use std::collections::HashSet;

verus! {

broadcast use vstd::std_specs::hash::group_hash_axioms;

/// Index of a concept node in the conflict graph.
pub type NodeId = usize;

/// The kind of constraint an edge encodes.
#[derive(Clone, Copy, Debug, PartialEq, Eq)]
pub enum ConflictType {
    Exclusion,
    Implication,
}

impl ConflictType {
    /// The conflict type encoded by an edge weight: `-1` is an exclusion,
    /// every other weight an implication.
    pub open spec fn spec_from_weight(weight: i8) -> ConflictType {
        if weight == -1 {
            ConflictType::Exclusion
        } else {
            ConflictType::Implication
        }
    }

    pub fn from_weight(weight: i8) -> (c: Self)
        ensures
            c == Self::spec_from_weight(weight),
    {
        match weight {
            -1 => ConflictType::Exclusion,
            _ => ConflictType::Implication,
        }
    }

    /// Row of the type in the actor's value table.
    pub open spec fn spec_index(&self) -> usize {
        match self {
            ConflictType::Exclusion => 0,
            ConflictType::Implication => 1,
        }
    }

    pub fn index(&self) -> (i: usize)
        ensures
            i == self.spec_index(),
            i < 2,
    {
        match self {
            ConflictType::Exclusion => 0,
            ConflictType::Implication => 1,
        }
    }
}

/// A repair move on the nodes of a violated edge.
#[derive(Clone, Copy, Debug, PartialEq, Eq)]
pub enum Action {
    Invert(NodeId),
    Align(NodeId, NodeId),
    Repel(NodeId, NodeId),
}

impl Action {
    /// Column of the move in the actor's value table.
    pub open spec fn spec_index(&self) -> usize {
        match self {
            Action::Invert(_) => 0,
            Action::Align(_, _) => 1,
            Action::Repel(_, _) => 2,
        }
    }

    pub fn index(&self) -> (i: usize)
        ensures
            i == self.spec_index(),
            i < 3,
    {
        match self {
            Action::Invert(_) => 0,
            Action::Align(_, _) => 1,
            Action::Repel(_, _) => 2,
        }
    }
}

/// The move numbered `idx` for the edge `(a, b)`: 0 inverts `b`, 1 aligns the
/// pair, anything else repels it.
pub open spec fn spec_action_from_idx(idx: usize, a: NodeId, b: NodeId) -> Action {
    if idx == 0 {
        Action::Invert(b)
    } else if idx == 1 {
        Action::Align(a, b)
    } else {
        Action::Repel(a, b)
    }
}

pub fn action_from_idx(idx: usize, a: NodeId, b: NodeId) -> (act: Action)
    ensures
        act == spec_action_from_idx(idx, a, b),
{
    match idx {
        0 => Action::Invert(b),
        1 => Action::Align(a, b),
        _ => Action::Repel(a, b),
    }
}

/// A constraint between two nodes: weight `1` or `2` is an implication (the
/// second doubly weighted), `-1` an exclusion.
#[derive(Clone, Copy, Debug, PartialEq, Eq)]
pub struct Edge {
    pub from: NodeId,
    pub to: NodeId,
    pub weight: i8,
}

/// Evaluates repair moves on a violated edge.
pub struct Critic;

/// How far the critic looks around a violated edge.
pub const CRITIC_DEPTH: usize = 1;

/// Scanning candidate edges in order, the edges kept so far and the nodes they
/// touch: an edge is kept when neither of its endpoints is touched yet.
pub open spec fn greedy_batch(cands: Seq<usize>, edges: Seq<Edge>) -> (Seq<usize>, Set<NodeId>)
    decreases cands.len(),
{
    if cands.len() == 0 {
        (Seq::empty(), Set::empty())
    } else {
        let prev = greedy_batch(cands.drop_last(), edges);
        let e = edges[cands.last() as int];
        if !prev.1.contains(e.from) && !prev.1.contains(e.to) {
            (prev.0.push(cands.last()), prev.1.insert(e.from).insert(e.to))
        } else {
            prev
        }
    }
}

/// From violated edges listed by index (most violated first), the greedy batch
/// of edges that share no node, so that their repairs do not interfere.
pub fn select_independent_edges(violated: &[usize], edges: &[Edge]) -> (batch: Vec<usize>)
    requires
        forall|i: int| 0 <= i < violated@.len() ==> violated@[i] < edges@.len(),
    ensures
        batch@ == greedy_batch(violated@, edges@).0,
{
    let mut busy: HashSet<NodeId> = HashSet::new();
    let mut batch: Vec<usize> = Vec::new();
    let mut i: usize = 0;
    while i < violated.len()
        invariant
            i <= violated.len(),
            forall|j: int| 0 <= j < violated@.len() ==> violated@[j] < edges@.len(),
            (batch@, busy@) == greedy_batch(violated@.take(i as int), edges@),
        decreases violated.len() - i,
    {
        let idx = violated[i];
        assert(violated@.take(i + 1).drop_last() =~= violated@.take(i as int));
        let from = edges[idx].from;
        let to = edges[idx].to;
        if !busy.contains(&from) && !busy.contains(&to) {
            batch.push(idx);
            busy.insert(from);
            busy.insert(to);
        }
        i += 1;
    }
    assert(violated@.take(violated@.len() as int) =~= violated@);
    batch
}

// ───────────────────────── laws ─────────────────────────

/// The move numbered `idx` sits in column `idx` of the value table (numbers
/// past 2 all mean a repel).
pub proof fn lemma_action_index_roundtrip(idx: usize, a: NodeId, b: NodeId)
    ensures
        spec_action_from_idx(idx, a, b).spec_index() == if idx < 3 { idx } else { 2 },
{
}

/// Only the weight `-1` is read as an exclusion.
pub proof fn lemma_conflict_index(weight: i8)
    ensures
        ConflictType::spec_from_weight(weight).spec_index() == if weight == -1 { 0usize } else { 1usize },
{
}

/// The greedy batch is a matching: every kept edge is a listed candidate, and
/// no two kept edges share a node.
pub proof fn lemma_batch_independent(cands: Seq<usize>, edges: Seq<Edge>)
    requires
        forall|i: int| 0 <= i < cands.len() ==> cands[i] < edges.len(),
    ensures
        forall|i: int| 0 <= i < greedy_batch(cands, edges).0.len() ==> cands.contains(#[trigger] greedy_batch(cands, edges).0[i]),
        forall|i: int, j: int|
            #![trigger greedy_batch(cands, edges).0[i], greedy_batch(cands, edges).0[j]]
            0 <= i < j < greedy_batch(cands, edges).0.len() ==> {
                let e = edges[greedy_batch(cands, edges).0[i] as int];
                let f = edges[greedy_batch(cands, edges).0[j] as int];
                e.from != f.from && e.from != f.to && e.to != f.from && e.to != f.to
            },
        forall|i: int| 0 <= i < greedy_batch(cands, edges).0.len() ==> {
            let e = edges[#[trigger] greedy_batch(cands, edges).0[i] as int];
            greedy_batch(cands, edges).1.contains(e.from) && greedy_batch(cands, edges).1.contains(e.to)
        },
    decreases cands.len(),
{
    if cands.len() > 0 {
        let init = cands.drop_last();
        lemma_batch_independent(init, edges);
        let prev = greedy_batch(init, edges);
        let b = greedy_batch(cands, edges).0;
        assert forall|i: int| 0 <= i < b.len() implies cands.contains(#[trigger] b[i]) by {
            if i < prev.0.len() {
                assert(b[i] == prev.0[i]);
                let t = choose|t: int| 0 <= t < init.len() && init[t] == prev.0[i];
                assert(cands[t] == init[t]);
            } else {
                assert(b[i] == cands.last());
                assert(cands[cands.len() - 1] == cands.last());
            }
        }
        assert forall|i: int, j: int| #![trigger b[i], b[j]] 0 <= i < j < b.len() implies {
            let e = edges[b[i] as int];
            let f = edges[b[j] as int];
            e.from != f.from && e.from != f.to && e.to != f.from && e.to != f.to
        } by {
            assert(b[i] == prev.0[i]);
            if j < prev.0.len() {
                assert(b[j] == prev.0[j]);
            }
        }
        assert forall|i: int| 0 <= i < b.len() implies {
            let e = edges[#[trigger] b[i] as int];
            greedy_batch(cands, edges).1.contains(e.from) && greedy_batch(cands, edges).1.contains(e.to)
        } by {
            if i < prev.0.len() {
                assert(b[i] == prev.0[i]);
            }
        }
    }
}


/// Whether edges `e` and `f` share a node.
pub open spec fn share_node(e: Edge, f: Edge) -> bool {
    e.from == f.from || e.from == f.to || e.to == f.from || e.to == f.to
}

/// The greedy batch cannot be extended: every candidate left out shares a node
/// with a kept edge, and every node marked busy is an endpoint of a kept edge.
pub proof fn lemma_batch_maximal(cands: Seq<usize>, edges: Seq<Edge>)
    requires
        forall|i: int| 0 <= i < cands.len() ==> cands[i] < edges.len(),
    ensures
        forall|v: NodeId| #[trigger] greedy_batch(cands, edges).1.contains(v) ==> exists|j: int|
            0 <= j < greedy_batch(cands, edges).0.len() && (edges[#[trigger] greedy_batch(cands, edges).0[j] as int].from == v
                || edges[greedy_batch(cands, edges).0[j] as int].to == v),
        forall|i: int|
            0 <= i < cands.len() && !greedy_batch(cands, edges).0.contains(#[trigger] cands[i]) ==> exists|j: int|
                0 <= j < greedy_batch(cands, edges).0.len() && share_node(
                    edges[cands[i] as int],
                    edges[#[trigger] greedy_batch(cands, edges).0[j] as int],
                ),
    decreases cands.len(),
{
    if cands.len() > 0 {
        let init = cands.drop_last();
        lemma_batch_maximal(init, edges);
        let prev = greedy_batch(init, edges);
        let cur = greedy_batch(cands, edges);
        let e = edges[cands.last() as int];
        let kept = !prev.1.contains(e.from) && !prev.1.contains(e.to);
        assert forall|j: int| 0 <= j < prev.0.len() implies cur.0[j] == prev.0[j] by {}
        assert forall|v: NodeId| #[trigger] cur.1.contains(v) implies exists|j: int|
            0 <= j < cur.0.len() && (edges[#[trigger] cur.0[j] as int].from == v || edges[cur.0[j] as int].to == v) by {
            if prev.1.contains(v) {
                let j = choose|j: int|
                    0 <= j < prev.0.len() && (edges[#[trigger] prev.0[j] as int].from == v || edges[prev.0[j] as int].to == v);
                assert(cur.0[j] == prev.0[j]);
            } else {
                assert(kept);
                assert(cur.0[prev.0.len() as int] == cands.last());
            }
        }
        assert forall|i: int| 0 <= i < cands.len() && !cur.0.contains(#[trigger] cands[i]) implies exists|j: int|
            0 <= j < cur.0.len() && share_node(edges[cands[i] as int], edges[#[trigger] cur.0[j] as int]) by {
            if i < cands.len() - 1 {
                assert(cands[i] == init[i]);
                if prev.0.contains(init[i]) {
                    let j = choose|j: int| 0 <= j < prev.0.len() && prev.0[j] == init[i];
                    assert(cur.0[j] == prev.0[j]);
                    assert(cur.0.contains(cands[i]));
                }
                let j = choose|j: int| 0 <= j < prev.0.len() && share_node(edges[init[i] as int], edges[#[trigger] prev.0[j] as int]);
                assert(cur.0[j] == prev.0[j]);
            } else {
                assert(cands[i] == cands.last());
                if kept {
                    assert(cur.0[prev.0.len() as int] == cands.last());
                    assert(cur.0.contains(cands[i]));
                } else if prev.1.contains(e.from) {
                    let j = choose|j: int|
                        0 <= j < prev.0.len() && (edges[#[trigger] prev.0[j] as int].from == e.from || edges[prev.0[j] as int].to == e.from);
                    assert(cur.0[j] == prev.0[j]);
                } else {
                    let j = choose|j: int|
                        0 <= j < prev.0.len() && (edges[#[trigger] prev.0[j] as int].from == e.to || edges[prev.0[j] as int].to == e.to);
                    assert(cur.0[j] == prev.0[j]);
                }
            }
        }
    }
}

} // verus!
