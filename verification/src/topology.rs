use vstd::prelude::*;
use std::collections::{HashMap, HashSet};
use crate::tso_core::{Edge, NodeId};
use crate::grid_world::view2;
use crate::chance::random_index;

verus! {

broadcast use vstd::std_specs::hash::group_hash_axioms;

// ───────────────────────── model ─────────────────────────

/// The lookup key of the ordered node pair `(a, b)`.
pub open spec fn pair_key(a: usize, b: usize) -> u128 {
    ((a as int) * 0x1_0000_0000_0000_0000 + (b as int)) as u128
}

/// Whether an edge links `a` and `b`, in either direction.
pub open spec fn joins(e: Edge, a: usize, b: usize) -> bool {
    (e.from == a && e.to == b) || (e.from == b && e.to == a)
}

/// Whether an edge has `v` as an endpoint.
pub open spec fn touches(e: Edge, v: usize) -> bool {
    e.from == v || e.to == v
}

/// The first edge from position `i` on that links `a` and `b`.
pub open spec fn first_join(edges: Seq<Edge>, a: usize, b: usize, i: int) -> Option<int>
    decreases edges.len() - i,
{
    if i < 0 || i >= edges.len() {
        None
    } else if joins(edges[i], a, b) {
        Some(i)
    } else {
        first_join(edges, a, b, i + 1)
    }
}

/// The weight of the edge between `a` and `b`, if there is one.
pub open spec fn weight_between(edges: Seq<Edge>, a: usize, b: usize) -> Option<i8> {
    match first_join(edges, a, b, 0) {
        Some(i) => Some(edges[i].weight),
        None => None,
    }
}

/// No two edges link the same pair of nodes.
pub open spec fn distinct_pairs(edges: Seq<Edge>) -> bool {
    forall|i: int, j: int| #![trigger edges[i], edges[j]] 0 <= i < j < edges.len() ==> !joins(edges[j], edges[i].from, edges[i].to)
}

/// The lookup table holds exactly both directions of every edge, with its weight.
pub open spec fn map_matches(edges: Seq<Edge>, m: Map<u128, i8>) -> bool {
    &&& forall|i: int, a: usize, b: usize|
        0 <= i < edges.len() && #[trigger] joins(edges[i], a, b) ==> m.contains_key(pair_key(a, b)) && m[pair_key(a, b)]
            == edges[i].weight
    &&& forall|k: u128|
        #[trigger] m.contains_key(k) ==> exists|i: int|
            0 <= i < edges.len() && (k == pair_key(edges[i].from, edges[i].to) || k == pair_key(edges[i].to, edges[i].from))
}

/// Every endpoint is a node below `n`.
pub open spec fn endpoints_below(edges: Seq<Edge>, n: int) -> bool {
    forall|i: int| 0 <= i < edges.len() ==> (#[trigger] edges[i]).from < n && edges[i].to < n
}

/// The incidence lists name existing edges at their node, and every edge is
/// listed at both of its endpoints.
pub open spec fn incidence_ok(edges: Seq<Edge>, adj: Seq<Seq<usize>>) -> bool {
    &&& forall|v: int, j: int|
        0 <= v < adj.len() && 0 <= j < adj[v].len() ==> (#[trigger] adj[v][j]) < edges.len() && touches(
            edges[adj[v][j] as int],
            v as usize,
        )
    &&& forall|i: int|
        0 <= i < edges.len() ==> adj[(#[trigger] edges[i]).from as int].contains(i as usize) && adj[edges[i].to as int].contains(
            i as usize,
        )
}

/// `n` empty incidence lists.
pub open spec fn no_lists(n: int) -> Seq<Seq<usize>> {
    Seq::new(n as nat, |v: int| Seq::<usize>::empty())
}

/// The incidence lists after listing, in order, the edges `new`, the first of
/// them at position `base`.
pub open spec fn add_incidences(adj: Seq<Seq<usize>>, new: Seq<Edge>, base: int) -> Seq<Seq<usize>>
    decreases new.len(),
{
    if new.len() == 0 {
        adj
    } else {
        add_incidence(
            add_incidences(adj, new.drop_last(), base),
            new.last().from,
            new.last().to,
            (base + new.len() - 1) as usize,
        )
    }
}

/// The incidence lists after listing edge `idx` at `from` and then at `to`.
pub open spec fn add_incidence(adj: Seq<Seq<usize>>, from: usize, to: usize, idx: usize) -> Seq<Seq<usize>> {
    let a1 = adj.update(from as int, adj[from as int].push(idx));
    a1.update(to as int, a1[to as int].push(idx))
}

/// The lookup table answers whether a pair is linked.
proof fn lemma_map_lookup(edges: Seq<Edge>, m: Map<u128, i8>, a: usize, b: usize)
    requires
        map_matches(edges, m),
    ensures
        m.contains_key(pair_key(a, b)) <==> first_join(edges, a, b, 0) is Some,
        first_join(edges, a, b, 0) matches Some(i) ==> m[pair_key(a, b)] == edges[i].weight,
{
    lemma_first_join(edges, a, b, 0);
    if m.contains_key(pair_key(a, b)) {
        let k = pair_key(a, b);
        let i = choose|i: int|
            0 <= i < edges.len() && (k == pair_key(edges[i].from, edges[i].to) || k == pair_key(edges[i].to, edges[i].from));
        if k == pair_key(edges[i].from, edges[i].to) {
            lemma_pair_key_injective(a, b, edges[i].from, edges[i].to);
        } else {
            lemma_pair_key_injective(a, b, edges[i].to, edges[i].from);
        }
        assert(joins(edges[i], a, b));
    }
    if let Some(i) = first_join(edges, a, b, 0) {
        assert(joins(edges[i], a, b));
    }
}

proof fn lemma_add_incidence(edges: Seq<Edge>, adj: Seq<Seq<usize>>, from: usize, to: usize, weight: i8)
    requires
        incidence_ok(edges, adj),
        endpoints_below(edges, adj.len() as int),
        from < adj.len(),
        to < adj.len(),
        edges.len() < usize::MAX,
    ensures
        incidence_ok(edges.push(Edge { from, to, weight }), add_incidence(adj, from, to, edges.len() as usize)),
{
    let idx = edges.len() as usize;
    let e1 = edges.push(Edge { from, to, weight });
    let a2 = add_incidence(adj, from, to, idx);
    let a1 = adj.update(from as int, adj[from as int].push(idx));
    assert(a2.len() == adj.len());
    assert forall|v: int| 0 <= v < adj.len() implies #[trigger] a2[v].len() >= adj[v].len() && a1[v].len() >= adj[v].len() by {
        if v == from {
            assert(a1[v] == adj[v].push(idx));
        } else {
            assert(a1[v] == adj[v]);
        }
        if v == to {
            assert(a2[v] == a1[v].push(idx));
        } else {
            assert(a2[v] == a1[v]);
        }
    }
    assert forall|v: int, w: int| 0 <= v < a2.len() && 0 <= w < a2[v].len() implies #[trigger] a2[v][w] == if v == to
        && w == a1[v].len() { idx } else if v == from && w == adj[v].len() { idx } else { adj[v][w] } by {
        if v == to {
            if w < a1[v].len() {
                assert(a2[v][w] == a1[v][w]);
            }
        } else {
            assert(a2[v] == a1[v]);
        }
        if w < a1[v].len() {
            if v == from {
                assert(a1[v] == adj[v].push(idx));
            } else {
                assert(a1[v] == adj[v]);
            }
        }
    }
    assert forall|v: int, j: int| 0 <= v < a2.len() && 0 <= j < a2[v].len() implies (#[trigger] a2[v][j]) < e1.len() && touches(
        e1[a2[v][j] as int],
        v as usize,
    ) by {
        if (v == to && j == a1[v].len()) || (v == from && j == adj[v].len()) {
            assert(e1[idx as int] == Edge { from, to, weight });
        } else {
            assert(e1[adj[v][j] as int] == edges[adj[v][j] as int]);
        }
    }
    assert forall|i: int| 0 <= i < e1.len() implies a2[(#[trigger] e1[i]).from as int].contains(i as usize) && a2[e1[i].to as int].contains(
        i as usize,
    ) by {
        if i < edges.len() {
            assert(e1[i] == edges[i]);
            let x = edges[i].from as int;
            let p = choose|p: int| 0 <= p < adj[x].len() && adj[x][p] == i as usize;
            assert(a2[x].len() >= adj[x].len() && a1[x].len() >= adj[x].len());
            assert(a2[x][p] == i as usize);
            let y = edges[i].to as int;
            let q = choose|q: int| 0 <= q < adj[y].len() && adj[y][q] == i as usize;
            assert(a2[y].len() >= adj[y].len() && a1[y].len() >= adj[y].len());
            assert(a2[y][q] == i as usize);
        } else {
            assert(a2[to as int][a1[to as int].len() as int] == idx);
            assert(a2[from as int][adj[from as int].len() as int] == idx);
        }
    }
}

/// `s` with its element at `i` replaced by its last element, and shortened by one.
pub open spec fn swap_removed<T>(s: Seq<T>, i: int) -> Seq<T> {
    s.update(i, s.last()).drop_last()
}

/// `l` without the entries equal to `idx`, order kept.
pub open spec fn without(l: Seq<usize>, idx: usize) -> Seq<usize>
    decreases l.len(),
{
    if l.len() == 0 {
        Seq::empty()
    } else if l.last() == idx {
        without(l.drop_last(), idx)
    } else {
        without(l.drop_last(), idx).push(l.last())
    }
}

/// The incidence lists after dropping the entries `idx` at `from` and at `to`.
pub open spec fn unlist(adj: Seq<Seq<usize>>, from: usize, to: usize, idx: usize) -> Seq<Seq<usize>> {
    let a1 = adj.update(from as int, without(adj[from as int], idx));
    a1.update(to as int, without(a1[to as int], idx))
}

/// A weight moved `decay` toward zero without crossing it.
pub open spec fn decayed(w: i8, decay: i8) -> i8 {
    if w > 0 {
        if w - decay >= 0 { (w - decay) as i8 } else { 0 }
    } else if w < 0 {
        if w + decay <= 0 { (w + decay) as i8 } else { 0 }
    } else {
        w
    }
}

/// Moving `w` by `decay` stays within `i8`.
pub open spec fn decay_fits(w: i8, decay: i8) -> bool {
    &&& w > 0 ==> i8::MIN <= w - decay <= i8::MAX
    &&& w < 0 ==> i8::MIN <= w + decay <= i8::MAX
}

/// The edges whose flag in `keep` is set, in order.
pub open spec fn kept(edges: Seq<Edge>, keep: Seq<bool>) -> Seq<Edge>
    decreases edges.len(),
{
    if edges.len() == 0 || keep.len() < edges.len() {
        Seq::empty()
    } else {
        let rest = kept(edges.drop_last(), keep.take(edges.len() - 1));
        if keep[edges.len() - 1] { rest.push(edges.last()) } else { rest }
    }
}

/// How many edges are dropped by `keep` whose weight is (`excl`) or is not
/// (`!excl`) the exclusion weight −1.
pub open spec fn dropped_count(edges: Seq<Edge>, keep: Seq<bool>, excl: bool) -> nat
    decreases edges.len(),
{
    if edges.len() == 0 || keep.len() < edges.len() {
        0
    } else {
        let rest = dropped_count(edges.drop_last(), keep.take(edges.len() - 1), excl);
        if !keep[edges.len() - 1] && (edges.last().weight == -1) == excl { rest + 1 } else { rest }
    }
}

/// How a decay changed an edge.
#[derive(Clone, Copy, Debug, PartialEq, Eq)]
pub enum Decay {
    /// No edge links the pair.
    Absent,
    /// The edge stays, with this new weight.
    Kept(i8),
    /// The edge reached weight zero and was removed; this is the edge as it was.
    Removed(Edge),
}

/// Inserting both keys of a new edge keeps the table in step with the edges.
proof fn lemma_map_push(edges: Seq<Edge>, m: Map<u128, i8>, e: Edge)
    requires
        map_matches(edges, m),
        distinct_pairs(edges.push(e)),
    ensures
        map_matches(edges.push(e), m.insert(pair_key(e.from, e.to), e.weight).insert(pair_key(e.to, e.from), e.weight)),
{
    let e1 = edges.push(e);
    let m1 = m.insert(pair_key(e.from, e.to), e.weight).insert(pair_key(e.to, e.from), e.weight);
    let k = pair_key(e.from, e.to);
    let k2 = pair_key(e.to, e.from);
    assert forall|i: int, a: usize, b: usize| 0 <= i < e1.len() && #[trigger] joins(e1[i], a, b) implies m1.contains_key(
        pair_key(a, b),
    ) && m1[pair_key(a, b)] == e1[i].weight by {
        if i < edges.len() {
            assert(e1[i] == edges[i]);
            assert(joins(edges[i], a, b));
            assert(!joins(e1[edges.len() as int], e1[i].from, e1[i].to));
            if pair_key(a, b) == k {
                lemma_pair_key_injective(a, b, e.from, e.to);
            }
            if pair_key(a, b) == k2 {
                lemma_pair_key_injective(a, b, e.to, e.from);
            }
        } else {
            assert(e1[i] == e);
        }
    }
    assert forall|kk: u128| #[trigger] m1.contains_key(kk) implies exists|i: int|
        0 <= i < e1.len() && (kk == pair_key(e1[i].from, e1[i].to) || kk == pair_key(e1[i].to, e1[i].from)) by {
        if kk == k || kk == k2 {
            assert(e1[edges.len() as int] == e);
        } else {
            assert(m.contains_key(kk));
            let i = choose|i: int|
                0 <= i < edges.len() && (kk == pair_key(edges[i].from, edges[i].to) || kk == pair_key(edges[i].to, edges[i].from));
            assert(e1[i] == edges[i]);
        }
    }
}

/// Swap-removing an edge keeps the pairs distinct and, after dropping both
/// keys of the removed edge, the table in step.
proof fn lemma_swap_remove_keeps(edges: Seq<Edge>, m: Map<u128, i8>, i: int, n: int)
    requires
        distinct_pairs(edges),
        map_matches(edges, m),
        endpoints_below(edges, n),
        0 <= i < edges.len(),
    ensures
        distinct_pairs(swap_removed(edges, i)),
        map_matches(swap_removed(edges, i), m.remove(pair_key(edges[i].from, edges[i].to)).remove(pair_key(edges[i].to, edges[i].from))),
        endpoints_below(swap_removed(edges, i), n),
{
    let r = swap_removed(edges, i);
    let last = edges.len() - 1;
    let e = edges[i];
    let k = pair_key(e.from, e.to);
    let k2 = pair_key(e.to, e.from);
    let m1 = m.remove(k).remove(k2);
    // position in the old sequence of the element now at position t
    assert forall|t: int| 0 <= t < r.len() implies #[trigger] r[t] == edges[if t == i { last } else { t }] by {
    }
    assert forall|a: int, b: int| #![trigger r[a], r[b]] 0 <= a < b < r.len() implies !joins(r[b], r[a].from, r[a].to) by {
        let oa = if a == i { last } else { a };
        let ob = if b == i { last } else { b };
        assert(r[a] == edges[oa] && r[b] == edges[ob]);
        assert(oa != ob);
        if oa < ob {
            assert(!joins(edges[ob], edges[oa].from, edges[oa].to));
        } else {
            assert(!joins(edges[oa], edges[ob].from, edges[ob].to));
            if joins(edges[ob], edges[oa].from, edges[oa].to) {
                assert(joins(edges[oa], edges[ob].from, edges[ob].to));
            }
        }
    }
    assert forall|t: int, a: usize, b: usize| 0 <= t < r.len() && #[trigger] joins(r[t], a, b) implies m1.contains_key(
        pair_key(a, b),
    ) && m1[pair_key(a, b)] == r[t].weight by {
        let ot = if t == i { last } else { t };
        assert(r[t] == edges[ot]);
        assert(ot != i);
        assert(joins(edges[ot], a, b));
        if pair_key(a, b) == k || pair_key(a, b) == k2 {
            if pair_key(a, b) == k {
                lemma_pair_key_injective(a, b, e.from, e.to);
            } else {
                lemma_pair_key_injective(a, b, e.to, e.from);
            }
            if ot < i {
                assert(!joins(edges[i], edges[ot].from, edges[ot].to));
            } else {
                assert(!joins(edges[ot], edges[i].from, edges[i].to));
            }
        }
    }
    assert forall|kk: u128| #[trigger] m1.contains_key(kk) implies exists|t: int|
        0 <= t < r.len() && (kk == pair_key(r[t].from, r[t].to) || kk == pair_key(r[t].to, r[t].from)) by {
        assert(m.contains_key(kk));
        let j = choose|j: int|
            0 <= j < edges.len() && (kk == pair_key(edges[j].from, edges[j].to) || kk == pair_key(edges[j].to, edges[j].from));
        assert(j != i);
        let t = if j == last { i } else { j };
        assert(r[t] == edges[j]);
    }
    assert forall|t: int| 0 <= t < r.len() implies (#[trigger] r[t]).from < n && r[t].to < n by {
        let ot = if t == i { last } else { t };
        assert(r[t] == edges[ot]);
    }
}

proof fn lemma_without_contains(l: Seq<usize>, idx: usize, x: usize)
    ensures
        without(l, idx).contains(x) <==> l.contains(x) && x != idx,
        without(l, idx).len() <= l.len(),
    decreases l.len(),
{
    if l.len() > 0 {
        let dl = l.drop_last();
        lemma_without_contains(dl, idx, x);
        let w0 = without(dl, idx);
        assert(l.contains(x) <==> dl.contains(x) || l.last() == x) by {
            if l.contains(x) {
                let p = choose|p: int| 0 <= p < l.len() && l[p] == x;
                if p < l.len() - 1 {
                    assert(dl[p] == x);
                }
            }
            if dl.contains(x) {
                let q = choose|q: int| 0 <= q < dl.len() && dl[q] == x;
                assert(l[q] == x);
            }
            if l.last() == x {
                assert(l[l.len() - 1] == x);
            }
        }
        if l.last() != idx {
            let w = w0.push(l.last());
            assert(w.contains(x) <==> w0.contains(x) || l.last() == x) by {
                if w.contains(x) {
                    let p = choose|p: int| 0 <= p < w.len() && w[p] == x;
                    if p < w0.len() {
                        assert(w0[p] == x);
                    }
                }
                if w0.contains(x) {
                    let q = choose|q: int| 0 <= q < w0.len() && w0[q] == x;
                    assert(w[q] == x);
                }
                if l.last() == x {
                    assert(w[w0.len() as int] == x);
                }
            }
        }
    }
}

/// Changing the weight of edge `i` and both keys of its pair keeps the table in step.
proof fn lemma_map_reweight(edges: Seq<Edge>, m: Map<u128, i8>, i: int, w: i8)
    requires
        distinct_pairs(edges),
        map_matches(edges, m),
        0 <= i < edges.len(),
    ensures
        distinct_pairs(edges.update(i, Edge { weight: w, ..edges[i] })),
        map_matches(
            edges.update(i, Edge { weight: w, ..edges[i] }),
            m.insert(pair_key(edges[i].from, edges[i].to), w).insert(pair_key(edges[i].to, edges[i].from), w),
        ),
{
    let e = edges[i];
    let e1 = edges.update(i, Edge { weight: w, ..e });
    let m1 = m.insert(pair_key(e.from, e.to), w).insert(pair_key(e.to, e.from), w);
    assert forall|a: int, b: int| #![trigger e1[a], e1[b]] 0 <= a < b < e1.len() implies !joins(e1[b], e1[a].from, e1[a].to) by {
        assert(!joins(edges[b], edges[a].from, edges[a].to));
    }
    assert forall|t: int, a: usize, b: usize| 0 <= t < e1.len() && #[trigger] joins(e1[t], a, b) implies m1.contains_key(
        pair_key(a, b),
    ) && m1[pair_key(a, b)] == e1[t].weight by {
        assert(joins(edges[t], a, b));
        if t != i {
            if pair_key(a, b) == pair_key(e.from, e.to) || pair_key(a, b) == pair_key(e.to, e.from) {
                if pair_key(a, b) == pair_key(e.from, e.to) {
                    lemma_pair_key_injective(a, b, e.from, e.to);
                } else {
                    lemma_pair_key_injective(a, b, e.to, e.from);
                }
                if t < i {
                    assert(!joins(edges[i], edges[t].from, edges[t].to));
                } else {
                    assert(!joins(edges[t], edges[i].from, edges[i].to));
                }
            }
        } else {
            if pair_key(a, b) != pair_key(e.to, e.from) {
                if !(a == e.from && b == e.to) {
                    assert(a == e.to && b == e.from);
                }
            }
        }
    }
    assert forall|kk: u128| #[trigger] m1.contains_key(kk) implies exists|t: int|
        0 <= t < e1.len() && (kk == pair_key(e1[t].from, e1[t].to) || kk == pair_key(e1[t].to, e1[t].from)) by {
        if kk == pair_key(e.from, e.to) || kk == pair_key(e.to, e.from) {
            assert(e1[i].from == e.from && e1[i].to == e.to);
        } else {
            let t = choose|t: int|
                0 <= t < edges.len() && (kk == pair_key(edges[t].from, edges[t].to) || kk == pair_key(edges[t].to, edges[t].from));
            assert(e1[t].from == edges[t].from && e1[t].to == edges[t].to);
        }
    }
}

/// `n` empty lists.
fn empty_lists(n: usize) -> (a: Vec<Vec<usize>>)
    ensures
        a@.len() == n,
        forall|v: int| 0 <= v < n ==> (#[trigger] a@[v])@.len() == 0,
{
    let mut a: Vec<Vec<usize>> = Vec::new();
    let mut v: usize = 0;
    while v < n
        invariant
            v <= n,
            a@.len() == v,
            forall|t: int| 0 <= t < v ==> (#[trigger] a@[t])@.len() == 0,
        decreases n - v,
    {
        a.push(Vec::new());
        v += 1;
    }
    a
}

/// The kept edges are a subsequence: their pairs stay distinct and their
/// endpoints stay below `n`.
proof fn lemma_kept_preserves(edges: Seq<Edge>, keep: Seq<bool>, n: int)
    requires
        distinct_pairs(edges),
        endpoints_below(edges, n),
        keep.len() == edges.len(),
    ensures
        distinct_pairs(kept(edges, keep)),
        endpoints_below(kept(edges, keep), n),
        forall|t: int| 0 <= t < kept(edges, keep).len() ==> edges.contains(#[trigger] kept(edges, keep)[t]),
    decreases edges.len(),
{
    if edges.len() > 0 {
        let init = edges.drop_last();
        let k0 = keep.take(edges.len() - 1);
        assert forall|i: int, j: int| #![trigger init[i], init[j]] 0 <= i < j < init.len() implies !joins(init[j], init[i].from, init[i].to) by {
            assert(init[i] == edges[i] && init[j] == edges[j]);
        }
        assert forall|i: int| 0 <= i < init.len() implies (#[trigger] init[i]).from < n && init[i].to < n by {
            assert(init[i] == edges[i]);
        }
        lemma_kept_preserves(init, k0, n);
        let r0 = kept(init, k0);
        let r = kept(edges, keep);
        assert forall|t: int| 0 <= t < r.len() implies edges.contains(#[trigger] r[t]) by {
            if t < r0.len() {
                assert(r[t] == r0[t]);
                let p = choose|p: int| 0 <= p < init.len() && init[p] == r0[t];
                assert(edges[p] == init[p]);
            } else {
                assert(r[t] == edges[edges.len() - 1]);
            }
        }
        if keep[edges.len() - 1] {
            let e = edges.last();
            assert forall|i: int, j: int| #![trigger r[i], r[j]] 0 <= i < j < r.len() implies !joins(r[j], r[i].from, r[i].to) by {
                assert(r[i] == r0[i]);
                if j < r0.len() {
                    assert(r[j] == r0[j]);
                } else {
                    let p = choose|p: int| 0 <= p < init.len() && init[p] == r0[i];
                    assert(edges[p] == r0[i]);
                    assert(!joins(edges[edges.len() - 1], edges[p].from, edges[p].to));
                }
            }
            assert forall|i: int| 0 <= i < r.len() implies (#[trigger] r[i]).from < n && r[i].to < n by {
                if i < r0.len() {
                    assert(r[i] == r0[i]);
                }
            }
        }
    }
}

/// The entries of `l` other than `idx`, in order.
fn without_index(l: &Vec<usize>, idx: usize) -> (r: Vec<usize>)
    ensures
        r@ == without(l@, idx),
{
    let mut r: Vec<usize> = Vec::new();
    let mut j: usize = 0;
    while j < l.len()
        invariant
            j <= l@.len(),
            r@ == without(l@.take(j as int), idx),
        decreases l@.len() - j,
    {
        assert(l@.take(j + 1).drop_last() =~= l@.take(j as int));
        if l[j] != idx {
            r.push(l[j]);
        }
        j += 1;
    }
    assert(l@.take(l@.len() as int) =~= l@);
    r
}

/// Removing the last edge and its entries keeps the incidence lists in step.
proof fn lemma_unlist_last(edges: Seq<Edge>, adj: Seq<Seq<usize>>, from: usize, to: usize, i: int)
    requires
        incidence_ok(edges, adj),
        endpoints_below(edges, adj.len() as int),
        0 <= i == edges.len() - 1,
        edges.len() <= usize::MAX,
        adj.len() <= usize::MAX,
        joins(edges[i], from, to),
    ensures
        incidence_ok(swap_removed(edges, i), unlist(adj, from, to, i as usize)),
{
    let r = swap_removed(edges, i);
    assert(r =~= edges.drop_last());
    let u = unlist(adj, from, to, i as usize);
    let a1 = adj.update(from as int, without(adj[from as int], i as usize));
    assert forall|v: int, x: usize| 0 <= v < adj.len() implies (#[trigger] u[v].contains(x) <==> adj[v].contains(x) && (x
        != i || (v != from && v != to))) by {
        if v == from {
            lemma_without_contains(adj[v], i as usize, x);
            assert(a1[v] == without(adj[v], i as usize));
        } else {
            assert(a1[v] == adj[v]);
        }
        if v == to {
            lemma_without_contains(a1[v], i as usize, x);
            assert(u[v] == without(a1[v], i as usize));
        } else {
            assert(u[v] == a1[v]);
        }
    }
    assert forall|v: int, j: int| 0 <= v < u.len() && 0 <= j < u[v].len() implies (#[trigger] u[v][j]) < r.len() && touches(
        r[u[v][j] as int],
        v as usize,
    ) by {
        let x = u[v][j];
        assert(u[v].contains(x));
        assert(adj[v].contains(x));
        let p = choose|p: int| 0 <= p < adj[v].len() && adj[v][p] == x;
        assert(adj[v][p] < edges.len() && touches(edges[adj[v][p] as int], v as usize));
        if x == i {
            assert(touches(edges[i], v as usize));
            assert(false);
        }
        assert(r[x as int] == edges[x as int]);
    }
    assert forall|t: int| 0 <= t < r.len() implies u[(#[trigger] r[t]).from as int].contains(t as usize) && u[r[t].to as int].contains(
        t as usize,
    ) by {
        assert(r[t] == edges[t]);
        assert(adj[edges[t].from as int].contains(t as usize));
        assert(adj[edges[t].to as int].contains(t as usize));
    }
}

/// The entries of `s` that satisfy `p`, each kept at its first occurrence only.
pub open spec fn first_occurrences(s: Seq<usize>, p: spec_fn(usize) -> bool) -> Seq<usize>
    decreases s.len(),
{
    if s.len() == 0 {
        Seq::empty()
    } else {
        let d = first_occurrences(s.drop_last(), p);
        if p(s.last()) && !d.contains(s.last()) {
            d.push(s.last())
        } else {
            d
        }
    }
}

/// The incidence lists of `nodes`, one after the other.
pub open spec fn concat_lists(adj: Seq<Seq<usize>>, nodes: Seq<usize>) -> Seq<usize>
    decreases nodes.len(),
{
    if nodes.len() == 0 {
        Seq::empty()
    } else {
        concat_lists(adj, nodes.drop_last()) + adj[nodes.last() as int]
    }
}

/// Accepts every entry.
pub open spec fn any_entry() -> spec_fn(usize) -> bool {
    |i: usize| true
}

/// Accepts the edges with both endpoints in `nodes`.
pub open spec fn inside_edge(edges: Seq<Edge>, nodes: Seq<usize>) -> spec_fn(usize) -> bool {
    |i: usize| nodes.contains(edges[i as int].from) && nodes.contains(edges[i as int].to)
}

proof fn lemma_push_contains(s: Seq<usize>, v: usize)
    ensures
        forall|x: usize| #[trigger] s.push(v).contains(x) <==> s.contains(x) || x == v,
{
    assert forall|x: usize| #[trigger] s.push(v).contains(x) <==> s.contains(x) || x == v by {
        if s.push(v).contains(x) {
            let q = choose|q: int| 0 <= q < s.len() + 1 && s.push(v)[q] == x;
            if q < s.len() {
                assert(s[q] == x);
            }
        }
        if s.contains(x) {
            let q = choose|q: int| 0 <= q < s.len() && s[q] == x;
            assert(s.push(v)[q] == x);
        }
        if x == v {
            assert(s.push(v)[s.len() as int] == x);
        }
    }
}

/// Appending one entry to the scanned sequence.
proof fn lemma_first_occ_step(s: Seq<usize>, x: usize, p: spec_fn(usize) -> bool)
    ensures
        first_occurrences(s.push(x), p) == if p(x) && !first_occurrences(s, p).contains(x) {
            first_occurrences(s, p).push(x)
        } else {
            first_occurrences(s, p)
        },
{
    assert(s.push(x).drop_last() =~= s);
}

/// The endpoint of `e` other than `f` (its `from` end unless that is `f`).
pub open spec fn other_end(e: Edge, f: usize) -> usize {
    if e.from == f { e.to } else { e.from }
}

/// Whether `u` is one step from `f` through the incidence list of `f`.
pub open spec fn step_from(adj: Seq<Seq<usize>>, edges: Seq<Edge>, f: usize, u: usize) -> bool {
    exists|j: int| 0 <= j < adj[f as int].len() && u == other_end(edges[#[trigger] adj[f as int][j] as int], f)
}

/// The nodes at most `d` steps from a seed.
pub open spec fn within_hops(adj: Seq<Seq<usize>>, edges: Seq<Edge>, seeds: Seq<usize>, d: nat) -> Set<usize>
    decreases d,
{
    if d == 0 {
        seeds.to_set()
    } else {
        let p = within_hops(adj, edges, seeds, (d - 1) as nat);
        p.union(Set::new(|u: usize| exists|f: usize| p.contains(f) && #[trigger] step_from(adj, edges, f, u)))
    }
}

/// The discrete structure of the conflict graph: how many nodes there are
/// (one incidence list each), the constraint edges, a lookup table from node
/// pairs to weights, and for each node the positions of the edges at it.
pub struct Topology {
    pub edges: Vec<Edge>,
    pub edge_map: HashMap<u128, i8>,
    pub adj: Vec<Vec<usize>>,
}

proof fn lemma_pair_key_injective(a: usize, b: usize, c: usize, d: usize)
    requires
        pair_key(a, b) == pair_key(c, d),
    ensures
        a == c && b == d,
{
    let big: int = 0x1_0000_0000_0000_0000;
    assert((a as int) * big + (b as int) < big * big) by (nonlinear_arith)
        requires
            0 <= a < big,
            0 <= b < big,
    ;
    assert((c as int) * big + (d as int) < big * big) by (nonlinear_arith)
        requires
            0 <= c < big,
            0 <= d < big,
    ;
    assert(big * big - 1 == u128::MAX);
}

proof fn lemma_first_join(edges: Seq<Edge>, a: usize, b: usize, i: int)
    requires
        0 <= i,
    ensures
        first_join(edges, a, b, i) matches Some(j) ==> i <= j < edges.len() && joins(edges[j], a, b)
            && forall|t: int| i <= t < j ==> !joins(#[trigger] edges[t], a, b),
        first_join(edges, a, b, i) is None ==> forall|t: int| i <= t < edges.len() ==> !joins(#[trigger] edges[t], a, b),
    decreases edges.len() - i,
{
    if i < edges.len() && !joins(edges[i], a, b) {
        lemma_first_join(edges, a, b, i + 1);
    }
}

/// The key of `(a, b)`.
fn key_of(a: usize, b: usize) -> (k: u128)
    ensures
        k == pair_key(a, b),
{
    (a as u128) * 0x1_0000_0000_0000_0000u128 + (b as u128)
}

impl Topology {
    /// The incidence lists as a grid.
    pub open spec fn adj_view(&self) -> Seq<Seq<usize>> {
        view2(self.adj@)
    }

    /// The number of nodes.
    pub open spec fn n_nodes(&self) -> int {
        self.adj@.len() as int
    }

    /// Edges link distinct pairs of existing nodes and the lookup table agrees.
    pub open spec fn wf(&self) -> bool {
        &&& distinct_pairs(self.edges@)
        &&& map_matches(self.edges@, self.edge_map@)
        &&& endpoints_below(self.edges@, self.n_nodes())
    }

    /// The incidence lists agree with the edges.
    pub open spec fn linked(&self) -> bool {
        incidence_ok(self.edges@, self.adj_view())
    }

    /// No nodes and no edges.
    pub fn new() -> (t: Self)
        ensures
            t.wf(),
            t.linked(),
            t.edges@ == Seq::<Edge>::empty(),
            t.n_nodes() == 0,
    {
        let t = Topology { edges: Vec::new(), edge_map: HashMap::new(), adj: Vec::new() };
        assert(t.edge_map@ =~= Map::<u128, i8>::empty());
        t
    }

    /// Adds a node without edges and returns its id.
    pub fn add_node(&mut self) -> (id: NodeId)
        requires
            old(self).wf(),
        ensures
            id == old(self).n_nodes(),
            final(self).n_nodes() == old(self).n_nodes() + 1,
            final(self).edges@ == old(self).edges@,
            final(self).edge_map@ == old(self).edge_map@,
            final(self).adj_view() == old(self).adj_view().push(Seq::<usize>::empty()),
            final(self).wf(),
            old(self).linked() ==> final(self).linked(),
    {
        let id = self.adj.len();
        self.adj.push(Vec::new());
        assert(self.adj_view() =~= old(self).adj_view().push(Seq::<usize>::empty()));
        proof {
            let a = self.adj_view();
            if old(self).linked() {
                assert forall|i: int| 0 <= i < self.edges@.len() implies a[(#[trigger] self.edges@[i]).from as int].contains(i as usize)
                    && a[self.edges@[i].to as int].contains(i as usize) by {
                    assert(a[self.edges@[i].from as int] == old(self).adj_view()[self.edges@[i].from as int]);
                    assert(a[self.edges@[i].to as int] == old(self).adj_view()[self.edges@[i].to as int]);
                }
            }
        }
        id
    }

    /// The weight of the edge between `a` and `b`, if any.
    pub fn edge_weight(&self, a: NodeId, b: NodeId) -> (w: Option<i8>)
        requires
            self.wf(),
        ensures
            w == weight_between(self.edges@, a, b),
    {
        let k = key_of(a, b);
        let r = self.edge_map.get(&k);
        proof {
            lemma_first_join(self.edges@, a, b, 0);
            match first_join(self.edges@, a, b, 0) {
                Some(i) => {
                    assert(joins(self.edges@[i], a, b));
                },
                None => {
                    if self.edge_map@.contains_key(k) {
                        let i = choose|i: int|
                            0 <= i < self.edges@.len() && (k == pair_key(self.edges@[i].from, self.edges@[i].to) || k == pair_key(
                                self.edges@[i].to,
                                self.edges@[i].from,
                            ));
                        if k == pair_key(self.edges@[i].from, self.edges@[i].to) {
                            lemma_pair_key_injective(a, b, self.edges@[i].from, self.edges@[i].to);
                        } else {
                            lemma_pair_key_injective(a, b, self.edges@[i].to, self.edges@[i].from);
                        }
                        assert(joins(self.edges@[i], a, b));
                    }
                },
            }
        }
        match r {
            Some(w) => Some(*w),
            None => None,
        }
    }

    /// Adds an edge from `from` to `to` unless the pair is already linked
    /// (in either direction), listing it at both endpoints.
    pub fn add_edge(&mut self, from: NodeId, to: NodeId, weight: i8)
        requires
            old(self).wf(),
            from < old(self).n_nodes(),
            to < old(self).n_nodes(),
        ensures
            final(self).wf(),
            old(self).linked() ==> final(self).linked(),
            final(self).n_nodes() == old(self).n_nodes(),
            first_join(old(self).edges@, from, to, 0) is Some ==> final(self).edges@ == old(self).edges@
                && final(self).edge_map@ == old(self).edge_map@ && final(self).adj_view() == old(self).adj_view(),
            first_join(old(self).edges@, from, to, 0) is None ==> final(self).edges@ == old(self).edges@.push(
                Edge { from, to, weight },
            ) && final(self).adj_view() == add_incidence(old(self).adj_view(), from, to, old(self).edges@.len() as usize),
    {
        let k = key_of(from, to);
        proof {
            lemma_map_lookup(self.edges@, self.edge_map@, from, to);
        }
        if self.edge_map.contains_key(&k) {
            return;
        }
        let idx = self.edges.len();
        let ghost a0 = self.adj_view();
        let ghost e0 = self.edges@;
        let ghost m0 = self.edge_map@;
        self.edges.push(Edge { from, to, weight });
        assert(self.edges.len() == e0.len() + 1);
        assert(a0[from as int] == self.adj@[from as int]@);
        self.adj[from].push(idx);
        let ghost a1 = self.adj_view();
        assert(a1 =~= a0.update(from as int, a0[from as int].push(idx)));
        assert(a1[to as int] == self.adj@[to as int]@);
        self.adj[to].push(idx);
        assert(self.adj_view() =~= a1.update(to as int, a1[to as int].push(idx)));
        let k2 = key_of(to, from);
        self.edge_map.insert(k, weight);
        self.edge_map.insert(k2, weight);
        proof {
            let e1 = self.edges@;
            let m1 = self.edge_map@;
            let ne = Edge { from, to, weight };
            lemma_first_join(e0, from, to, 0);
            assert forall|i: int, j: int| #![trigger e1[i], e1[j]] 0 <= i < j < e1.len() implies !joins(e1[j], e1[i].from, e1[i].to) by {
                if j < e0.len() {
                    assert(e1[i] == e0[i] && e1[j] == e0[j]);
                } else {
                    assert(e1[i] == e0[i]);
                    if joins(ne, e0[i].from, e0[i].to) {
                        assert(joins(e0[i], from, to));
                    }
                }
            }
            assert forall|i: int, a: usize, b: usize| 0 <= i < e1.len() && #[trigger] joins(e1[i], a, b) implies m1.contains_key(
                pair_key(a, b),
            ) && m1[pair_key(a, b)] == e1[i].weight by {
                if i < e0.len() {
                    assert(e1[i] == e0[i]);
                    assert(joins(e0[i], a, b));
                    if pair_key(a, b) == k {
                        lemma_pair_key_injective(a, b, from, to);
                        assert(joins(e0[i], from, to));
                    }
                    if pair_key(a, b) == k2 {
                        lemma_pair_key_injective(a, b, to, from);
                        assert(joins(e0[i], from, to));
                    }
                }
            }
            assert forall|kk: u128| #[trigger] m1.contains_key(kk) implies exists|i: int|
                0 <= i < e1.len() && (kk == pair_key(e1[i].from, e1[i].to) || kk == pair_key(e1[i].to, e1[i].from)) by {
                if kk == k || kk == k2 {
                    assert(e1[e0.len() as int] == ne);
                } else {
                    assert(m0.contains_key(kk));
                    let i = choose|i: int|
                        0 <= i < e0.len() && (kk == pair_key(e0[i].from, e0[i].to) || kk == pair_key(e0[i].to, e0[i].from));
                    assert(e1[i] == e0[i]);
                }
            }
            assert forall|i: int| 0 <= i < e1.len() implies (#[trigger] e1[i]).from < self.n_nodes() && e1[i].to < self.n_nodes() by {
                if i < e0.len() {
                    assert(e1[i] == e0[i]);
                }
            }
            if old(self).linked() {
                lemma_add_incidence(e0, a0, from, to, weight);
                assert(self.adj_view() == add_incidence(a0, from, to, idx));
            }
        }
    }

    /// Removes the first edge between `from` and `to` (either direction), as
    /// `Vec::swap_remove` does: the last edge takes its place. Both keys leave
    /// the table and the entries naming its position leave the incidence
    /// lists of `from` and `to`; the moved edge's entries are not renamed, so
    /// the lists stay in step only when the removed edge was the last one.
    /// Returns the removed edge.
    pub fn remove_edge(&mut self, from: NodeId, to: NodeId) -> (r: Option<Edge>)
        requires
            old(self).wf(),
        ensures
            final(self).wf(),
            final(self).n_nodes() == old(self).n_nodes(),
            match first_join(old(self).edges@, from, to, 0) {
                None => r is None && final(self).edges@ == old(self).edges@ && final(self).edge_map@ == old(self).edge_map@
                    && final(self).adj_view() == old(self).adj_view(),
                Some(i) => {
                    &&& r == Some(old(self).edges@[i])
                    &&& final(self).edges@ == swap_removed(old(self).edges@, i)
                    &&& final(self).adj_view() == unlist(old(self).adj_view(), from, to, i as usize)
                    &&& (old(self).linked() && i == old(self).edges@.len() - 1) ==> final(self).linked()
                },
            },
    {
        let pos = self.find_edge(from, to);
        match pos {
            Some(idx) => {
                proof {
                    lemma_first_join(self.edges@, from, to, 0);
                    lemma_swap_remove_keeps(self.edges@, self.edge_map@, idx as int, self.n_nodes());
                }
                let ghost e0 = self.edges@;
                let ghost a0 = self.adj_view();
                assert(self.adj.len() == a0.len());
                assert(self.edges.len() == e0.len());
                let e = self.edges.swap_remove(idx);
                let k1 = key_of(e.from, e.to);
                let k2 = key_of(e.to, e.from);
                self.edge_map.remove(&k1);
                self.edge_map.remove(&k2);
                let ghost m1 = self.edge_map@;
                let rf = without_index(&self.adj[from], idx);
                self.adj.set(from, rf);
                let ghost a1 = self.adj_view();
                assert(a1 =~= a0.update(from as int, without(a0[from as int], idx)));
                let rt = without_index(&self.adj[to], idx);
                self.adj.set(to, rt);
                assert(self.adj_view() =~= a1.update(to as int, without(a1[to as int], idx)));
                proof {
                    assert(self.edge_map@ =~= old(self).edge_map@.remove(pair_key(e0[idx as int].from, e0[idx as int].to)).remove(
                        pair_key(e0[idx as int].to, e0[idx as int].from),
                    ));
                    if old(self).linked() && idx == e0.len() - 1 {
                        lemma_unlist_last(e0, a0, from, to, idx as int);
                    }
                }
                Some(e)
            },
            None => None,
        }
    }

    /// Moves the weight of the edge between `from` and `to` `decay` toward
    /// zero (lateral inhibition); an edge whose weight reaches zero is removed
    /// as by `remove_edge`.
    pub fn decay_edge_weight(&mut self, from: NodeId, to: NodeId, decay: i8) -> (d: Decay)
        requires
            old(self).wf(),
            first_join(old(self).edges@, from, to, 0) matches Some(i) ==> decay_fits(old(self).edges@[i].weight, decay),
        ensures
            final(self).wf(),
            final(self).n_nodes() == old(self).n_nodes(),
            match first_join(old(self).edges@, from, to, 0) {
                None => d == Decay::Absent && final(self).edges@ == old(self).edges@ && final(self).adj_view() == old(self).adj_view(),
                Some(i) => {
                    let nw = decayed(old(self).edges@[i].weight, decay);
                    if nw != 0 {
                        &&& d == Decay::Kept(nw)
                        &&& final(self).edges@ == old(self).edges@.update(i, Edge { weight: nw, ..old(self).edges@[i] })
                        &&& final(self).adj_view() == old(self).adj_view()
                        &&& old(self).linked() ==> final(self).linked()
                    } else {
                        &&& d == Decay::Removed(old(self).edges@[i])
                        &&& final(self).edges@ == swap_removed(old(self).edges@, i)
                        &&& final(self).adj_view() == unlist(old(self).adj_view(), from, to, i as usize)
                    }
                },
            },
    {
        let pos = self.find_edge(from, to);
        match pos {
            None => Decay::Absent,
            Some(idx) => {
                proof {
                    lemma_first_join(self.edges@, from, to, 0);
                    assert(first_join(old(self).edges@, from, to, 0) == Some(idx as int));
                    assert(decay_fits(old(self).edges@[idx as int].weight, decay));
                }
                let e = self.edges[idx];
                let w = e.weight;
                let nw: i8 = if w > 0 {
                    let t = w - decay;
                    if t >= 0 { t } else { 0 }
                } else if w < 0 {
                    let t = w + decay;
                    if t <= 0 { t } else { 0 }
                } else {
                    w
                };
                if nw != 0 {
                    self.set_edge_weight(idx, nw);
                    Decay::Kept(nw)
                } else {
                    let r = self.remove_edge(from, to);
                    Decay::Removed(e)
                }
            },
        }
    }

    /// Sets the weight of edge `idx` (in the edge list and both table keys).
    pub fn set_edge_weight(&mut self, idx: usize, weight: i8)
        requires
            old(self).wf(),
            idx < old(self).edges@.len(),
        ensures
            final(self).wf(),
            old(self).linked() ==> final(self).linked(),
            final(self).edges@ == old(self).edges@.update(idx as int, Edge { weight, ..old(self).edges@[idx as int] }),
            final(self).adj_view() == old(self).adj_view(),
    {
        let e = self.edges[idx];
        proof {
            lemma_map_reweight(self.edges@, self.edge_map@, idx as int, weight);
        }
        self.edges.set(idx, Edge { from: e.from, to: e.to, weight });
        let k1 = key_of(e.from, e.to);
        let k2 = key_of(e.to, e.from);
        self.edge_map.insert(k1, weight);
        self.edge_map.insert(k2, weight);
        proof {
            let e1 = self.edges@;
            assert forall|i: int| 0 <= i < e1.len() implies (#[trigger] e1[i]).from < self.n_nodes() && e1[i].to < self.n_nodes() by {
                assert(e1[i].from == old(self).edges@[i].from && e1[i].to == old(self).edges@[i].to);
            }
            if old(self).linked() {
                let a = self.adj_view();
                assert forall|v: int, j: int| 0 <= v < a.len() && 0 <= j < a[v].len() implies (#[trigger] a[v][j]) < e1.len()
                    && touches(e1[a[v][j] as int], v as usize) by {
                    assert(e1[a[v][j] as int].from == old(self).edges@[a[v][j] as int].from);
                    assert(e1[a[v][j] as int].to == old(self).edges@[a[v][j] as int].to);
                }
                assert forall|i: int| 0 <= i < e1.len() implies a[(#[trigger] e1[i]).from as int].contains(i as usize) && a[e1[i].to as int].contains(
                    i as usize,
                ) by {
                    assert(e1[i].from == old(self).edges@[i].from && e1[i].to == old(self).edges@[i].to);
                }
            }
        }
    }

    /// Removes every edge and empties every incidence list; nodes stay.
    pub fn clear_edges(&mut self)
        ensures
            final(self).wf(),
            final(self).linked(),
            final(self).edges@ == Seq::<Edge>::empty(),
            final(self).n_nodes() == old(self).n_nodes(),
            forall|v: int| 0 <= v < final(self).n_nodes() ==> (#[trigger] final(self).adj_view()[v]).len() == 0,
    {
        self.edges.clear();
        self.edge_map.clear();
        let n = self.adj.len();
        self.adj = empty_lists(n);
        assert(self.edge_map@ =~= Map::<u128, i8>::empty());
    }

    /// Rebuilds the lookup table and the incidence lists from the edges.
    fn relink(&mut self)
        requires
            distinct_pairs(old(self).edges@),
            endpoints_below(old(self).edges@, old(self).n_nodes()),
        ensures
            final(self).wf(),
            final(self).linked(),
            final(self).edges@ == old(self).edges@,
            final(self).n_nodes() == old(self).n_nodes(),
            final(self).adj_view() == add_incidences(no_lists(old(self).n_nodes()), old(self).edges@, 0),
    {
        self.edge_map.clear();
        let n = self.adj.len();
        self.adj = empty_lists(n);
        assert(self.edge_map@ =~= Map::<u128, i8>::empty());
        assert forall|v: int| 0 <= v < n implies #[trigger] self.adj_view()[v] == no_lists(n as int)[v] by {
            assert(self.adj_view()[v] =~= Seq::<usize>::empty());
        }
        assert(self.adj_view() =~= no_lists(n as int));
        assert(self.edges@.take(0) =~= Seq::<Edge>::empty());
        let mut idx: usize = 0;
        while idx < self.edges.len()
            invariant
                idx <= self.edges@.len(),
                self.edges@ == old(self).edges@,
                self.adj@.len() == n,
                n == old(self).n_nodes(),
                distinct_pairs(self.edges@),
                endpoints_below(self.edges@, n as int),
                map_matches(self.edges@.take(idx as int), self.edge_map@),
                incidence_ok(self.edges@.take(idx as int), self.adj_view()),
                self.adj_view() == add_incidences(no_lists(n as int), self.edges@.take(idx as int), 0),
            decreases self.edges@.len() - idx,
        {
            let e = self.edges[idx];
            let ghost pre = self.edges@.take(idx as int);
            let ghost a0 = self.adj_view();
            proof {
                assert(self.edges@.take(idx + 1) =~= pre.push(e));
                assert forall|i: int, j: int| #![trigger pre.push(e)[i], pre.push(e)[j]] 0 <= i < j < pre.push(e).len() implies !joins(
                    pre.push(e)[j],
                    pre.push(e)[i].from,
                    pre.push(e)[i].to,
                ) by {
                    assert(pre.push(e)[i] == self.edges@[i] && pre.push(e)[j] == self.edges@[j]);
                }
                lemma_map_push(pre, self.edge_map@, e);
                assert forall|i: int| 0 <= i < pre.len() implies (#[trigger] pre[i]).from < n && pre[i].to < n by {
                    assert(pre[i] == self.edges@[i]);
                }
                assert(self.edges@[idx as int] == e);
                lemma_add_incidence(pre, a0, e.from, e.to, e.weight);
            }
            let k1 = key_of(e.from, e.to);
            let k2 = key_of(e.to, e.from);
            self.edge_map.insert(k1, e.weight);
            self.edge_map.insert(k2, e.weight);
            assert(a0[e.from as int] == self.adj@[e.from as int]@);
            self.adj[e.from].push(idx);
            let ghost a1 = self.adj_view();
            assert(a1 =~= a0.update(e.from as int, a0[e.from as int].push(idx)));
            assert(a1[e.to as int] == self.adj@[e.to as int]@);
            self.adj[e.to].push(idx);
            assert(self.adj_view() =~= add_incidence(a0, e.from, e.to, idx));
            proof {
                let t1 = self.edges@.take(idx + 1);
                assert(t1.drop_last() =~= self.edges@.take(idx as int));
                assert(t1.last() == e);
            }
            idx += 1;
        }
        assert(self.edges@.take(self.edges@.len() as int) =~= self.edges@);
    }

    /// Keeps the edges whose flag in `keep` is set, in order, and returns how
    /// many exclusion edges (weight −1) and how many other edges were dropped.
    /// The lookup table and incidence lists are rebuilt when an edge was
    /// dropped, or always when `rebuild_always` is set.
    pub fn retain_edges(&mut self, keep: &[bool], rebuild_always: bool) -> (r: (usize, usize))
        requires
            old(self).wf(),
            keep@.len() == old(self).edges@.len(),
        ensures
            final(self).wf(),
            final(self).n_nodes() == old(self).n_nodes(),
            final(self).edges@ == kept(old(self).edges@, keep@),
            r.0 == dropped_count(old(self).edges@, keep@, true),
            r.1 == dropped_count(old(self).edges@, keep@, false),
            (r.0 + r.1 > 0 || rebuild_always) ==> final(self).linked() && final(self).adj_view() == add_incidences(
                no_lists(old(self).n_nodes()),
                final(self).edges@,
                0,
            ),
            (r.0 + r.1 == 0 && !rebuild_always) ==> final(self).adj_view() == old(self).adj_view() && final(self).edges@ == old(self).edges@,
    {
        let ghost e0 = self.edges@;
        let mut out: Vec<Edge> = Vec::new();
        let mut excl: usize = 0;
        let mut other: usize = 0;
        let mut i: usize = 0;
        while i < self.edges.len()
            invariant
                i <= e0.len(),
                e0 == self.edges@,
                keep@.len() == e0.len(),
                out@ == kept(e0.take(i as int), keep@.take(i as int)),
                excl == dropped_count(e0.take(i as int), keep@.take(i as int), true),
                other == dropped_count(e0.take(i as int), keep@.take(i as int), false),
                excl + other + out@.len() == i,
                excl + other == 0 ==> out@ == e0.take(i as int),
            decreases e0.len() - i,
        {
            proof {
                assert(e0.take(i + 1).drop_last() =~= e0.take(i as int));
                assert(keep@.take(i + 1).take(i as int) =~= keep@.take(i as int));
            }
            if keep[i] {
                out.push(self.edges[i]);
                proof {
                    if excl + other == 0 {
                        assert(e0.take(i as int).push(e0[i as int]) =~= e0.take(i + 1));
                    }
                }
            } else if self.edges[i].weight == -1 {
                excl += 1;
            } else {
                other += 1;
            }
            i += 1;
        }
        proof {
            assert(e0.take(e0.len() as int) =~= e0);
            assert(keep@.take(e0.len() as int) =~= keep@);
            lemma_kept_preserves(e0, keep@, self.n_nodes());
        }
        self.edges = out;
        if excl + other > 0 || rebuild_always {
            self.relink();
        }
        (excl, other)
    }

    /// The edges listed at `a` and then at `b`, each once, in listing order:
    /// the edges the critic looks at around a violated edge `(a, b)`.
    pub fn incident_edges(&self, a: NodeId, b: NodeId) -> (r: Vec<usize>)
        requires
            a < self.n_nodes(),
            b < self.n_nodes(),
        ensures
            r@ == first_occurrences(self.adj_view()[a as int] + self.adj_view()[b as int], any_entry()),
    {
        let ghost la = self.adj_view()[a as int];
        let ghost lb = self.adj_view()[b as int];
        let mut seen: HashSet<usize> = HashSet::new();
        let mut out: Vec<usize> = Vec::new();
        let ghost pre: Seq<usize> = Seq::empty();
        assert(la == self.adj@[a as int]@);
        assert(lb == self.adj@[b as int]@);
        let mut j: usize = 0;
        while j < self.adj[a].len()
            invariant
                la == self.adj@[a as int]@,
                a < self.adj@.len(),
                j <= la.len(),
                out@ == first_occurrences(la.take(j as int), any_entry()),
                forall|x: usize| seen@.contains(x) <==> out@.contains(x),
            decreases la.len() - j,
        {
            let ei = self.adj[a][j];
            proof {
                assert(la.take(j + 1) =~= la.take(j as int).push(ei));
                lemma_first_occ_step(la.take(j as int), ei, any_entry());
            }
            let ghost o0 = out@;
            if seen.insert(ei) {
                out.push(ei);
                proof {
                    lemma_push_contains(o0, ei);
                }
            }
            j += 1;
        }
        assert(la.take(la.len() as int) =~= la);
        let mut j: usize = 0;
        while j < self.adj[b].len()
            invariant
                lb == self.adj@[b as int]@,
                b < self.adj@.len(),
                j <= lb.len(),
                out@ == first_occurrences(la + lb.take(j as int), any_entry()),
                forall|x: usize| seen@.contains(x) <==> out@.contains(x),
            decreases lb.len() - j,
        {
            let ei = self.adj[b][j];
            proof {
                assert(la + lb.take(j + 1) =~= (la + lb.take(j as int)).push(ei));
                lemma_first_occ_step(la + lb.take(j as int), ei, any_entry());
            }
            let ghost o0 = out@;
            if seen.insert(ei) {
                out.push(ei);
                proof {
                    lemma_push_contains(o0, ei);
                }
            }
            j += 1;
        }
        assert(la + lb.take(lb.len() as int) =~= la + lb);
        out
    }

    /// The edges with both endpoints among `node_set`, found through the
    /// incidence lists of the nodes in order, each once.
    pub fn local_edge_indices(&self, node_set: &[NodeId]) -> (r: Vec<usize>)
        requires
            forall|i: int| 0 <= i < node_set@.len() ==> node_set@[i] < self.n_nodes(),
            forall|v: int, j: int|
                0 <= v < self.n_nodes() && 0 <= j < self.adj_view()[v].len() ==> #[trigger] self.adj_view()[v][j] < self.edges@.len(),
        ensures
            r@ == first_occurrences(concat_lists(self.adj_view(), node_set@), inside_edge(self.edges@, node_set@)),
    {
        let ghost p = inside_edge(self.edges@, node_set@);
        let ghost adjv = self.adj_view();
        let mut set: HashSet<usize> = HashSet::new();
        let mut i: usize = 0;
        while i < node_set.len()
            invariant
                i <= node_set@.len(),
                forall|x: usize| set@.contains(x) <==> exists|q: int| 0 <= q < i && #[trigger] node_set@[q] == x,
            decreases node_set@.len() - i,
        {
            set.insert(node_set[i]);
            proof {
                assert forall|x: usize| set@.contains(x) <==> exists|q: int| 0 <= q < i + 1 && #[trigger] node_set@[q] == x by {
                    if x == node_set@[i as int] {
                        assert(node_set@[i as int] == x);
                    }
                }
            }
            i += 1;
        }
        let mut seen: HashSet<usize> = HashSet::new();
        let mut out: Vec<usize> = Vec::new();
        let mut k: usize = 0;
        while k < node_set.len()
            invariant
                k <= node_set@.len(),
                p == inside_edge(self.edges@, node_set@),
                adjv == self.adj_view(),
                forall|i: int| 0 <= i < node_set@.len() ==> node_set@[i] < self.n_nodes(),
                forall|v: int, j: int|
                    0 <= v < self.n_nodes() && 0 <= j < adjv[v].len() ==> #[trigger] adjv[v][j] < self.edges@.len(),
                forall|x: usize| set@.contains(x) <==> node_set@.contains(x),
                out@ == first_occurrences(concat_lists(adjv, node_set@.take(k as int)), p),
                forall|x: usize| seen@.contains(x) <==> out@.contains(x),
            decreases node_set@.len() - k,
        {
            let n = node_set[k];
            let ghost before = concat_lists(adjv, node_set@.take(k as int));
            assert(adjv[n as int] == self.adj@[n as int]@);
            let mut j: usize = 0;
            while j < self.adj[n].len()
                invariant
                    k < node_set@.len(),
                    n == node_set@[k as int],
                    n < self.n_nodes(),
                    p == inside_edge(self.edges@, node_set@),
                    adjv == self.adj_view(),
                    adjv[n as int] == self.adj@[n as int]@,
                    forall|v: int, jj: int|
                        0 <= v < self.n_nodes() && 0 <= jj < adjv[v].len() ==> #[trigger] adjv[v][jj] < self.edges@.len(),
                    j <= adjv[n as int].len(),
                    forall|x: usize| set@.contains(x) <==> node_set@.contains(x),
                    out@ == first_occurrences(before + adjv[n as int].take(j as int), p),
                    forall|x: usize| seen@.contains(x) <==> out@.contains(x),
                decreases adjv[n as int].len() - j,
            {
                let ei = self.adj[n][j];
                assert(adjv[n as int][j as int] == ei);
                let e = self.edges[ei];
                proof {
                    assert(before + adjv[n as int].take(j + 1) =~= (before + adjv[n as int].take(j as int)).push(ei));
                    lemma_first_occ_step(before + adjv[n as int].take(j as int), ei, p);
                }
                let ghost o0 = out@;
                if set.contains(&e.from) && set.contains(&e.to) && seen.insert(ei) {
                    out.push(ei);
                    proof {
                        lemma_push_contains(o0, ei);
                    }
                }
                j += 1;
            }
            proof {
                assert(adjv[n as int].take(adjv[n as int].len() as int) =~= adjv[n as int]);
                assert(node_set@.take(k + 1).drop_last() =~= node_set@.take(k as int));
            }
            k += 1;
        }
        assert(node_set@.take(node_set@.len() as int) =~= node_set@);
        out
    }

    /// The nodes at most `depth` steps from the seeds, each once, in the order
    /// in which a level-by-level search finds them.
    pub fn neighbourhood(&self, seeds: &[NodeId], depth: usize) -> (r: Vec<NodeId>)
        requires
            self.wf(),
            forall|i: int| 0 <= i < seeds@.len() ==> seeds@[i] < self.n_nodes(),
            forall|v: int, j: int|
                0 <= v < self.n_nodes() && 0 <= j < self.adj_view()[v].len() ==> #[trigger] self.adj_view()[v][j] < self.edges@.len(),
        ensures
            forall|x: usize| r@.contains(x) <==> within_hops(self.adj_view(), self.edges@, seeds@, depth as nat).contains(x),
            forall|i: int, j: int| 0 <= i < j < r@.len() ==> r@[i] != r@[j],
    {
        let ghost adjv = self.adj_view();
        let ghost es = self.edges@;
        let mut set: HashSet<NodeId> = HashSet::new();
        let mut order: Vec<NodeId> = Vec::new();
        let mut i: usize = 0;
        while i < seeds.len()
            invariant
                i <= seeds@.len(),
                forall|x: usize| set@.contains(x) <==> exists|q: int| 0 <= q < i && #[trigger] seeds@[q] == x,
                forall|x: usize| order@.contains(x) <==> set@.contains(x),
                forall|a: int, b: int| 0 <= a < b < order@.len() ==> order@[a] != order@[b],
            decreases seeds@.len() - i,
        {
            let s0 = seeds[i];
            let ghost o0 = order@;
            if set.insert(s0) {
                order.push(s0);
                proof { lemma_push_contains(o0, s0); }
            }
            proof {
                assert forall|x: usize| set@.contains(x) <==> exists|q: int| 0 <= q < i + 1 && #[trigger] seeds@[q] == x by {
                    if x == seeds@[i as int] {
                        assert(seeds@[i as int] == x);
                    }
                }
            }
            i += 1;
        }
        let mut frontier: Vec<NodeId> = Vec::new();
        let mut i: usize = 0;
        while i < seeds.len()
            invariant
                i <= seeds@.len(),
                frontier@ == seeds@.take(i as int),
            decreases seeds@.len() - i,
        {
            frontier.push(seeds[i]);
            i += 1;
        }
        proof {
            assert(seeds@.take(seeds@.len() as int) =~= seeds@);
            assert(set@ =~= within_hops(adjv, es, seeds@, 0));
        }
        let ghost mut prev: Set<usize> = Set::empty();
        let mut level: usize = 0;
        while level < depth
            invariant
                adjv == self.adj_view(),
                es == self.edges@,
                self.wf(),
                level <= depth,
                forall|v: int, j: int|
                    0 <= v < self.n_nodes() && 0 <= j < adjv[v].len() ==> #[trigger] adjv[v][j] < es.len(),
                forall|q: int| 0 <= q < frontier@.len() ==> frontier@[q] < self.n_nodes(),
                set@ == within_hops(adjv, es, seeds@, level as nat),
                set@ == prev.union(frontier@.to_set()),
                forall|f: usize, u: usize| prev.contains(f) && #[trigger] step_from(adjv, es, f, u) ==> set@.contains(u),
                forall|x: usize| order@.contains(x) <==> set@.contains(x),
                forall|a: int, b: int| 0 <= a < b < order@.len() ==> order@[a] != order@[b],
            decreases depth - level,
        {
            let ghost s0 = set@;
            let mut next: Vec<NodeId> = Vec::new();
            let mut a: usize = 0;
            while a < frontier.len()
                invariant
                    adjv == self.adj_view(),
                    es == self.edges@,
                    self.wf(),
                    a <= frontier@.len(),
                    forall|v: int, j: int|
                        0 <= v < self.n_nodes() && 0 <= j < adjv[v].len() ==> #[trigger] adjv[v][j] < es.len(),
                    forall|q: int| 0 <= q < frontier@.len() ==> frontier@[q] < self.n_nodes(),
                    forall|u: usize| #[trigger] set@.contains(u) <==> s0.contains(u) || exists|fa: int|
                        0 <= fa < a && #[trigger] step_from(adjv, es, frontier@[fa], u),
                    forall|q: int| 0 <= q < next@.len() ==> next@[q] < self.n_nodes(),
                    forall|u: usize| next@.contains(u) <==> set@.contains(u) && !s0.contains(u),
                    forall|x: usize| order@.contains(x) <==> set@.contains(x),
                    forall|x: int, y: int| 0 <= x < y < order@.len() ==> order@[x] != order@[y],
                decreases frontier@.len() - a,
            {
                let f = frontier[a];
                assert(adjv[f as int] == self.adj@[f as int]@);
                let mut j: usize = 0;
                while j < self.adj[f].len()
                    invariant
                        adjv == self.adj_view(),
                        es == self.edges@,
                        self.wf(),
                        a < frontier@.len(),
                        f == frontier@[a as int],
                        f < self.n_nodes(),
                        adjv[f as int] == self.adj@[f as int]@,
                        j <= adjv[f as int].len(),
                        forall|v: int, jj: int|
                            0 <= v < self.n_nodes() && 0 <= jj < adjv[v].len() ==> #[trigger] adjv[v][jj] < es.len(),
                        forall|u: usize| #[trigger] set@.contains(u) <==> s0.contains(u) || (exists|fa: int|
                            0 <= fa < a && #[trigger] step_from(adjv, es, frontier@[fa], u)) || exists|jj: int|
                            0 <= jj < j && u == other_end(es[#[trigger] adjv[f as int][jj] as int], f),
                        forall|q: int| 0 <= q < next@.len() ==> next@[q] < self.n_nodes(),
                        forall|u: usize| next@.contains(u) <==> set@.contains(u) && !s0.contains(u),
                        forall|x: usize| order@.contains(x) <==> set@.contains(x),
                        forall|x: int, y: int| 0 <= x < y < order@.len() ==> order@[x] != order@[y],
                    decreases adjv[f as int].len() - j,
                {
                    let ei = self.adj[f][j];
                    assert(adjv[f as int][j as int] == ei);
                    let e = self.edges[ei];
                    let other = if e.from == f { e.to } else { e.from };
                    assert(other == other_end(es[adjv[f as int][j as int] as int], f));
                    let ghost o0 = order@;
                    let ghost n0 = next@;
                    if !set.contains(&other) {
                        set.insert(other);
                        next.push(other);
                        order.push(other);
                        proof {
                            lemma_push_contains(o0, other);
                            lemma_push_contains(n0, other);
                            assert forall|x: int, y: int| 0 <= x < y < order@.len() implies order@[x] != order@[y] by {
                                if y == o0.len() {
                                    assert(o0.contains(order@[x]));
                                }
                            }
                        }
                    }
                    proof {
                        assert forall|u: usize| #[trigger] set@.contains(u) <==> s0.contains(u) || (exists|fa: int|
                            0 <= fa < a && #[trigger] step_from(adjv, es, frontier@[fa], u)) || exists|jj: int|
                            0 <= jj < j + 1 && u == other_end(es[#[trigger] adjv[f as int][jj] as int], f) by {
                            if u == other {
                                assert(u == other_end(es[adjv[f as int][j as int] as int], f));
                            }
                        }
                    }
                    j += 1;
                }
                proof {
                    assert forall|u: usize| #[trigger] set@.contains(u) <==> s0.contains(u) || exists|fa: int|
                        0 <= fa < a + 1 && #[trigger] step_from(adjv, es, frontier@[fa], u) by {
                        if exists|jj: int| 0 <= jj < adjv[f as int].len() && u == other_end(es[#[trigger] adjv[f as int][jj] as int], f) {
                            assert(step_from(adjv, es, frontier@[a as int], u));
                        }
                        if exists|fa: int| 0 <= fa < a + 1 && #[trigger] step_from(adjv, es, frontier@[fa], u) {
                            let fa = choose|fa: int| 0 <= fa < a + 1 && #[trigger] step_from(adjv, es, frontier@[fa], u);
                            if fa == a {
                                let jj = choose|jj: int| 0 <= jj < adjv[f as int].len() && u == other_end(es[#[trigger] adjv[f as int][jj] as int], f);
                            }
                        }
                    }
                    assert forall|q: int| 0 <= q < next@.len() implies next@[q] < self.n_nodes() by {
                    }
                }
                a += 1;
            }
            proof {
                let w = within_hops(adjv, es, seeds@, (level + 1) as nat);
                assert(w == s0.union(Set::new(|u: usize| exists|f: usize| s0.contains(f) && #[trigger] step_from(adjv, es, f, u))));
                assert forall|u: usize| set@.contains(u) <==> w.contains(u) by {
                    if set@.contains(u) && !s0.contains(u) {
                        let fa = choose|fa: int| 0 <= fa < frontier@.len() && #[trigger] step_from(adjv, es, frontier@[fa], u);
                        assert(frontier@.to_set().contains(frontier@[fa]));
                        assert(s0.contains(frontier@[fa]));
                    }
                    if w.contains(u) && !s0.contains(u) {
                        let f2 = choose|f2: usize| s0.contains(f2) && #[trigger] step_from(adjv, es, f2, u);
                        if prev.contains(f2) {
                        } else {
                            assert(frontier@.to_set().contains(f2));
                            let fa = choose|fa: int| 0 <= fa < frontier@.len() && frontier@[fa] == f2;
                            assert(step_from(adjv, es, frontier@[fa], u));
                        }
                    }
                }
                assert(set@ =~= w);
                assert(set@ =~= s0.union(next@.to_set()));
                assert forall|f2: usize, u: usize| s0.contains(f2) && #[trigger] step_from(adjv, es, f2, u) implies set@.contains(u) by {
                    assert(w.contains(u));
                }
            }
            proof { prev = s0; }
            frontier = next;
            level += 1;
        }
        order
    }

    /// Tries `count` times to add an exclusion edge (weight −1) between two
    /// distinct nodes drawn at random, skipping draws of one node twice and of
    /// pairs already linked; returns how many edges were added. Nothing is
    /// added when there are fewer than two nodes.
    pub fn inject_exclusion_edges(&mut self, count: usize) -> (added: usize)
        requires
            old(self).wf(),
        ensures
            final(self).wf(),
            old(self).linked() ==> final(self).linked(),
            final(self).n_nodes() == old(self).n_nodes(),
            added <= count,
            old(self).n_nodes() < 2 ==> added == 0,
            final(self).edges@.len() == old(self).edges@.len() + added,
            final(self).edges@.take(old(self).edges@.len() as int) == old(self).edges@,
            forall|i: int|
                old(self).edges@.len() <= i < final(self).edges@.len() ==> (#[trigger] final(self).edges@[i]).weight == -1
                    && final(self).edges@[i].from != final(self).edges@[i].to,
            final(self).adj_view() == add_incidences(
                old(self).adj_view(),
                final(self).edges@.skip(old(self).edges@.len() as int),
                old(self).edges@.len() as int,
            ),
    {
        let n = self.adj.len();
        let mut added: usize = 0;
        let mut i: usize = 0;
        while i < count
            invariant
                i <= count,
                added <= i,
                n == self.n_nodes(),
                n == old(self).n_nodes(),
                self.wf(),
                old(self).linked() ==> self.linked(),
                n < 2 ==> added == 0,
                self.edges@.len() == old(self).edges@.len() + added,
                self.edges@.take(old(self).edges@.len() as int) == old(self).edges@,
                forall|t: int|
                    old(self).edges@.len() <= t < self.edges@.len() ==> (#[trigger] self.edges@[t]).weight == -1
                        && self.edges@[t].from != self.edges@[t].to,
                self.adj_view() == add_incidences(
                    old(self).adj_view(),
                    self.edges@.skip(old(self).edges@.len() as int),
                    old(self).edges@.len() as int,
                ),
            decreases count - i,
        {
            if n >= 2 {
                let a = random_index(n);
                let b = random_index(n);
                let ghost e0 = self.edges@;
                let ghost a0 = self.adj_view();
                if self.add_exclusion(a, b) {
                    proof {
                        let l0 = old(self).edges@.len() as int;
                        assert(self.edges@.take(l0) =~= e0.take(l0));
                        let nw = self.edges@.skip(l0);
                        assert(nw.drop_last() =~= e0.skip(l0));
                        assert(nw.last() == Edge { from: a, to: b, weight: -1i8 });
                        assert(l0 + nw.len() - 1 == e0.len());
                    }
                    added += 1;
                }
            }
            i += 1;
        }
        added
    }

    /// Adds an exclusion edge (weight −1) between `a` and `b` when they are
    /// distinct and not linked yet; returns whether it did.
    pub fn add_exclusion(&mut self, a: NodeId, b: NodeId) -> (added: bool)
        requires
            old(self).wf(),
            a < old(self).n_nodes(),
            b < old(self).n_nodes(),
        ensures
            added == (a != b && first_join(old(self).edges@, a, b, 0) is None),
            final(self).wf(),
            old(self).linked() ==> final(self).linked(),
            final(self).n_nodes() == old(self).n_nodes(),
            added ==> final(self).edges@ == old(self).edges@.push(Edge { from: a, to: b, weight: -1i8 }) && final(self).adj_view()
                == add_incidence(old(self).adj_view(), a, b, old(self).edges@.len() as usize),
            !added ==> final(self).edges@ == old(self).edges@ && final(self).adj_view() == old(self).adj_view(),
    {
        if a == b {
            return false;
        }
        let k = key_of(a, b);
        proof {
            lemma_map_lookup(self.edges@, self.edge_map@, a, b);
        }
        if self.edge_map.contains_key(&k) {
            return false;
        }
        self.add_edge(a, b, -1);
        true
    }

    /// The position of the first edge between `from` and `to`, if any.
    pub fn find_edge(&self, from: NodeId, to: NodeId) -> (p: Option<usize>)
        ensures
            match first_join(self.edges@, from, to, 0) {
                Some(i) => p is Some && p->0 as int == i,
                None => p is None,
            },
    {
        let mut i: usize = 0;
        while i < self.edges.len()
            invariant
                i <= self.edges@.len(),
                first_join(self.edges@, from, to, 0) == first_join(self.edges@, from, to, i as int),
            decreases self.edges@.len() - i,
        {
            let e = &self.edges[i];
            if (e.from == from && e.to == to) || (e.from == to && e.to == from) {
                return Some(i);
            }
            i += 1;
        }
        None
    }
}

// ───────────────────────── laws ─────────────────────────

/// An edge's weight reads the same from either end.
pub proof fn lemma_weight_symmetric(edges: Seq<Edge>, a: usize, b: usize)
    ensures
        weight_between(edges, a, b) == weight_between(edges, b, a),
{
    lemma_first_join_symmetric(edges, a, b, 0);
}

proof fn lemma_first_join_symmetric(edges: Seq<Edge>, a: usize, b: usize, i: int)
    ensures
        first_join(edges, a, b, i) == first_join(edges, b, a, i),
    decreases edges.len() - i,
{
    if 0 <= i < edges.len() {
        lemma_first_join_symmetric(edges, a, b, i + 1);
    }
}

/// After adding an edge between an unlinked pair, the pair reads the new
/// weight from both ends and every other pair reads as before.
pub proof fn lemma_add_then_read(edges: Seq<Edge>, from: usize, to: usize, weight: i8, a: usize, b: usize)
    requires
        first_join(edges, from, to, 0) is None,
    ensures
        weight_between(edges.push(Edge { from, to, weight }), from, to) == Some(weight),
        weight_between(edges.push(Edge { from, to, weight }), to, from) == Some(weight),
        !joins(Edge { from, to, weight }, a, b) ==> weight_between(edges.push(Edge { from, to, weight }), a, b)
            == weight_between(edges, a, b),
{
    let e1 = edges.push(Edge { from, to, weight });
    lemma_first_join(edges, from, to, 0);
    lemma_first_join(e1, from, to, 0);
    lemma_first_join(e1, to, from, 0);
    lemma_first_join_symmetric(edges, from, to, 0);
    lemma_first_join(edges, to, from, 0);
    assert(joins(e1[edges.len() as int], from, to));
    assert(joins(e1[edges.len() as int], to, from));
    if let Some(j) = first_join(e1, from, to, 0) {
        if j < edges.len() {
            assert(e1[j] == edges[j]);
        }
    }
    if let Some(j) = first_join(e1, to, from, 0) {
        if j < edges.len() {
            assert(e1[j] == edges[j]);
        }
    }
    if !joins(Edge { from, to, weight }, a, b) {
        lemma_first_join_prefix(edges, Edge { from, to, weight }, a, b, 0);
        lemma_first_join(edges, a, b, 0);
        if let Some(j) = first_join(edges, a, b, 0) {
            assert(e1[j] == edges[j]);
        }
    }
}

proof fn lemma_first_join_prefix(edges: Seq<Edge>, e: Edge, a: usize, b: usize, i: int)
    requires
        !joins(e, a, b),
        0 <= i <= edges.len(),
    ensures
        first_join(edges.push(e), a, b, i) == first_join(edges, a, b, i),
    decreases edges.len() - i,
{
    if i < edges.len() {
        assert(edges.push(e)[i] == edges[i]);
        lemma_first_join_prefix(edges, e, a, b, i + 1);
    } else {
        assert(edges.push(e)[i] == e);
        assert(first_join(edges.push(e), a, b, i + 1) is None);
    }
}

/// Once the edge between a pair is removed, the pair reads as unlinked.
pub proof fn lemma_remove_then_read(edges: Seq<Edge>, from: usize, to: usize)
    requires
        distinct_pairs(edges),
        first_join(edges, from, to, 0) is Some,
    ensures
        weight_between(swap_removed(edges, first_join(edges, from, to, 0)->0), from, to) is None,
{
    let i = first_join(edges, from, to, 0)->0;
    lemma_first_join(edges, from, to, 0);
    let r = swap_removed(edges, i);
    lemma_first_join(r, from, to, 0);
    if let Some(t) = first_join(r, from, to, 0) {
        let ot = if t == i { edges.len() - 1 } else { t };
        assert(r[t] == edges[ot]);
        assert(ot != i);
        if ot < i {
            assert(!joins(edges[ot], from, to));
        } else {
            assert(!joins(edges[ot], edges[i].from, edges[i].to));
        }
    }
}

/// Dropping an entry that a list does not hold leaves the list as it was.
proof fn lemma_without_absent(l: Seq<usize>, idx: usize)
    requires
        !l.contains(idx),
    ensures
        without(l, idx) == l,
    decreases l.len(),
{
    if l.len() > 0 {
        assert(!l.drop_last().contains(idx)) by {
            if l.drop_last().contains(idx) {
                let j = choose|j: int| 0 <= j < l.drop_last().len() && l.drop_last()[j] == idx;
                assert(l[j] == idx);
            }
        }
        lemma_without_absent(l.drop_last(), idx);
        assert(l.drop_last().push(l.last()) =~= l);
    }
}

/// Adding an edge between an unlinked pair and then removing the edge between
/// that pair gives back the edges and the incidence lists as they were.
pub proof fn lemma_add_then_remove(edges: Seq<Edge>, adj: Seq<Seq<usize>>, from: usize, to: usize, weight: i8)
    requires
        edges.len() <= usize::MAX,
        incidence_ok(edges, adj),
        from < adj.len(),
        to < adj.len(),
        first_join(edges, from, to, 0) is None,
    ensures
        ({
            let e1 = edges.push(Edge { from, to, weight });
            let a1 = add_incidence(adj, from, to, edges.len() as usize);
            &&& first_join(e1, from, to, 0) == Some(edges.len() as int)
            &&& swap_removed(e1, edges.len() as int) == edges
            &&& unlist(a1, from, to, edges.len() as usize) == adj
        }),
{
    let n = edges.len() as usize;
    let e1 = edges.push(Edge { from, to, weight });
    lemma_first_join(edges, from, to, 0);
    lemma_first_join(e1, from, to, 0);
    assert(e1[n as int] == Edge { from, to, weight });
    assert(joins(e1[n as int], from, to));
    if let Some(j) = first_join(e1, from, to, 0) {
        if j < n {
            assert(e1[j] == edges[j]);
        }
    }
    assert(swap_removed(e1, n as int) =~= edges);
    assert forall|v: int| 0 <= v < adj.len() implies !(#[trigger] adj[v]).contains(n) by {
        if adj[v].contains(n) {
            let j = choose|j: int| 0 <= j < adj[v].len() && adj[v][j] == n;
            assert(adj[v][j] < edges.len());
        }
    }
    let a1 = adj.update(from as int, adj[from as int].push(n));
    let a2 = a1.update(to as int, a1[to as int].push(n));
    lemma_without_absent(adj[from as int], n);
    lemma_without_absent(adj[to as int], n);
    assert(adj[from as int].push(n).drop_last() =~= adj[from as int]);
    assert(adj[to as int].push(n).drop_last() =~= adj[to as int]);
    assert(without(adj[from as int].push(n), n) == without(adj[from as int], n));
    assert(without(adj[to as int].push(n), n) == without(adj[to as int], n));
    if from == to {
        assert(adj[from as int].push(n).push(n).drop_last() =~= adj[from as int].push(n));
        assert(without(adj[from as int].push(n).push(n), n) == without(adj[from as int].push(n), n));
    }
    assert(unlist(a2, from, to, n) =~= adj);
}

/// A positive decay brings a nonzero weight strictly closer to zero, so
/// repeated inhibition removes any edge.
pub proof fn lemma_decay_shrinks(w: i8, decay: i8)
    requires
        decay > 0,
        w != 0,
        decay_fits(w, decay),
    ensures
        (if decayed(w, decay) >= 0 { decayed(w, decay) as int } else { -decayed(w, decay) }) < (if w >= 0 { w as int } else { -w }),
        decayed(w, decay) == 0 || (decayed(w, decay) > 0) == (w > 0),
{
}


/// A decay of `decay ≥ 0` moves a weight exactly `decay` toward zero, stopping
/// at zero: the weight's size drops by `decay` or to nothing, its sign never
/// flips, and a decay at least the weight's size removes the edge.
pub proof fn lemma_decay_exact(w: i8, decay: i8)
    requires
        decay >= 0,
        decay_fits(w, decay),
    ensures
        ({
            let size: int = if w >= 0 { w as int } else { -(w as int) };
            let nw = decayed(w, decay);
            let nsize: int = if nw >= 0 { nw as int } else { -(nw as int) };
            &&& nsize == if size > decay { size - decay } else { 0 }
            &&& nw == 0 || (nw > 0) == (w > 0)
            &&& (decay >= size <==> nw == 0)
        }),
        w > 0 ==> decayed(w, decay) as int == if w - decay > 0 { w - decay } else { 0 },
        w < 0 ==> decayed(w, decay) as int == if w + decay < 0 { w + decay } else { 0 },
{
}

} // verus!
