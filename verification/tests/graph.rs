use tso_engine::topology::{Decay, Topology};
use tso_engine::tso_core::{action_from_idx, select_independent_edges, Action, ConflictType, Edge, CRITIC_DEPTH};

fn chain() -> Topology {
    let mut t = Topology::new();
    for i in 0..4 {
        assert_eq!(t.add_node(), i);
    }
    t.add_edge(0, 1, 1);
    t.add_edge(1, 2, -1);
    t.add_edge(2, 3, 1);
    t
}

#[test]
fn conflict_types_and_indices() {
    assert_eq!(ConflictType::from_weight(-1), ConflictType::Exclusion);
    assert_eq!(ConflictType::from_weight(1), ConflictType::Implication);
    assert_eq!(ConflictType::from_weight(2), ConflictType::Implication);
    assert_eq!(ConflictType::from_weight(0), ConflictType::Implication);
    assert_eq!(ConflictType::Exclusion.index(), 0);
    assert_eq!(ConflictType::Implication.index(), 1);
    assert_eq!(Action::Invert(3).index(), 0);
    assert_eq!(Action::Align(1, 2).index(), 1);
    assert_eq!(Action::Repel(1, 2).index(), 2);
    assert_eq!(CRITIC_DEPTH, 1);
}

#[test]
fn actions_from_indices() {
    assert_eq!(action_from_idx(0, 4, 5), Action::Invert(5));
    assert_eq!(action_from_idx(1, 4, 5), Action::Align(4, 5));
    assert_eq!(action_from_idx(2, 4, 5), Action::Repel(4, 5));
    assert_eq!(action_from_idx(9, 4, 5), Action::Repel(4, 5));
    for i in 0..5 {
        assert_eq!(action_from_idx(i, 0, 1).index(), i.min(2));
    }
}

#[test]
fn independent_edges_share_no_node() {
    let edges = vec![
        Edge { from: 0, to: 1, weight: 1 },
        Edge { from: 1, to: 2, weight: -1 },
        Edge { from: 2, to: 3, weight: 1 },
        Edge { from: 4, to: 0, weight: 2 },
    ];
    assert_eq!(select_independent_edges(&[0, 1, 2, 3], &edges), vec![0, 2]);
    assert_eq!(select_independent_edges(&[1, 0, 3], &edges), vec![1, 3]);
    assert_eq!(select_independent_edges(&[], &edges), Vec::<usize>::new());
}

#[test]
fn add_edge_ignores_linked_pairs() {
    let mut t = chain();
    t.add_edge(1, 0, 2);
    assert_eq!(t.edges.len(), 3);
    assert_eq!(t.edge_weight(0, 1), Some(1));
    assert_eq!(t.edge_weight(1, 0), Some(1));
    assert_eq!(t.edge_weight(2, 1), Some(-1));
    assert_eq!(t.edge_weight(0, 3), None);
    assert_eq!(t.find_edge(2, 1), Some(1));
    assert_eq!(t.find_edge(3, 0), None);
}

#[test]
fn remove_edge_swaps_last_in() {
    let mut t = chain();
    assert_eq!(t.remove_edge(1, 0), Some(Edge { from: 0, to: 1, weight: 1 }));
    assert_eq!(t.edges, vec![Edge { from: 2, to: 3, weight: 1 }, Edge { from: 1, to: 2, weight: -1 }]);
    assert_eq!(t.edge_weight(0, 1), None);
    assert_eq!(t.edge_weight(3, 2), Some(1));
    assert_eq!(t.remove_edge(0, 1), None);
    assert_eq!(t.adj[0], Vec::<usize>::new());
    assert_eq!(t.adj[1], vec![1]);
}

#[test]
fn decay_weakens_then_removes() {
    let mut t = chain();
    t.add_edge(0, 3, 2);
    assert_eq!(t.decay_edge_weight(3, 0, 1), Decay::Kept(1));
    assert_eq!(t.edge_weight(0, 3), Some(1));
    assert_eq!(t.decay_edge_weight(0, 3, 1), Decay::Removed(Edge { from: 0, to: 3, weight: 1 }));
    assert_eq!(t.edge_weight(0, 3), None);
    assert_eq!(t.decay_edge_weight(1, 2, 5), Decay::Removed(Edge { from: 1, to: 2, weight: -1 }));
    assert_eq!(t.decay_edge_weight(1, 2, 1), Decay::Absent);
}

#[test]
fn set_edge_weight_updates_lookup() {
    let mut t = chain();
    t.set_edge_weight(2, -1);
    assert_eq!(t.edge_weight(3, 2), Some(-1));
    assert_eq!(t.edges[2], Edge { from: 2, to: 3, weight: -1 });
}

#[test]
fn retain_edges_counts_and_rebuilds() {
    let mut t = chain();
    assert_eq!(t.retain_edges(&[true, false, true], false), (1, 0));
    assert_eq!(t.edges, vec![Edge { from: 0, to: 1, weight: 1 }, Edge { from: 2, to: 3, weight: 1 }]);
    assert_eq!(t.edge_weight(1, 2), None);
    assert_eq!(t.edge_weight(3, 2), Some(1));
    assert_eq!(t.adj, vec![vec![0], vec![0], vec![1], vec![1]]);
    assert_eq!(t.retain_edges(&[false, true], true), (0, 1));
    assert_eq!(t.adj, vec![vec![], vec![], vec![0], vec![0]]);
    assert_eq!(t.retain_edges(&[true], false), (0, 0));
    assert_eq!(t.edges.len(), 1);
}

#[test]
fn clear_edges_keeps_nodes() {
    let mut t = chain();
    t.clear_edges();
    assert!(t.edges.is_empty());
    assert_eq!(t.adj.len(), 4);
    assert_eq!(t.edge_weight(0, 1), None);
}

#[test]
fn incident_and_local_edges() {
    let t = chain();
    assert_eq!(t.incident_edges(1, 2), vec![0, 1, 2]);
    assert_eq!(t.incident_edges(0, 0), vec![0]);
    assert_eq!(t.local_edge_indices(&[0, 1, 2]), vec![0, 1]);
    assert_eq!(t.local_edge_indices(&[3, 2]), vec![2]);
    assert_eq!(t.local_edge_indices(&[0, 3]), Vec::<usize>::new());
}

#[test]
fn neighbourhood_by_depth() {
    let t = chain();
    let mut n0 = t.neighbourhood(&[0], 0);
    n0.sort();
    assert_eq!(n0, vec![0]);
    let mut n1 = t.neighbourhood(&[0], 1);
    n1.sort();
    assert_eq!(n1, vec![0, 1]);
    let mut n2 = t.neighbourhood(&[0, 0], 2);
    n2.sort();
    assert_eq!(n2, vec![0, 1, 2]);
    let mut all = t.neighbourhood(&[3], 9);
    all.sort();
    assert_eq!(all, vec![0, 1, 2, 3]);
}

#[test]
fn injected_edges_are_new_exclusions() {
    let mut t = chain();
    let added = t.inject_exclusion_edges(10);
    assert!(added <= 10);
    assert_eq!(t.edges.len(), 3 + added);
    for e in &t.edges[3..] {
        assert_eq!(e.weight, -1);
        assert_ne!(e.from, e.to);
    }
    // a pair is never linked twice
    for i in 0..t.edges.len() {
        for j in i + 1..t.edges.len() {
            let (a, b) = (t.edges[i], t.edges[j]);
            assert!(!((a.from == b.from && a.to == b.to) || (a.from == b.to && a.to == b.from)));
        }
    }
    // each new edge is listed, in order, at both of its endpoints
    let mut expected = chain().adj.clone();
    for (i, e) in t.edges.iter().enumerate().skip(3) {
        expected[e.from].push(i);
        expected[e.to].push(i);
    }
    assert_eq!(t.adj, expected);
    let mut lone = Topology::new();
    lone.add_node();
    assert_eq!(lone.inject_exclusion_edges(5), 0);
}

#[test]
fn add_then_remove_restores_edges_and_lists() {
    let mut t = chain();
    let edges_before = t.edges.clone();
    let adj_before = t.adj.clone();
    t.add_edge(3, 0, -1);
    assert_eq!(t.edges.len(), 4);
    assert_eq!(t.adj[3], vec![2, 3]);
    assert_eq!(t.remove_edge(3, 0), Some(Edge { from: 3, to: 0, weight: -1 }));
    assert_eq!(t.edges, edges_before);
    assert_eq!(t.adj, adj_before);
    assert_eq!(t.edge_weight(0, 3), None);
}

#[test]
fn add_exclusion_only_between_unlinked_distinct_nodes() {
    let mut t = chain();
    assert!(!t.add_exclusion(2, 2));
    assert!(!t.add_exclusion(1, 0));
    assert_eq!(t.edges.len(), 3);
    assert!(t.add_exclusion(0, 3));
    assert_eq!(t.edges[3], Edge { from: 0, to: 3, weight: -1 });
    assert_eq!(t.edge_weight(3, 0), Some(-1));
    assert_eq!(t.adj[0], vec![0, 3]);
    assert_eq!(t.adj[3], vec![2, 3]);
    assert!(!t.add_exclusion(3, 0));
}
