use pagerank::{Edge, Link, Topology};

#[test]
fn new_graph_is_empty() {
    let g = Topology::new();
    assert_eq!(g.node_count(), 0);
    assert_eq!(g.edge_count(), 0);
    assert!(g.node_keys().is_empty());
    let none: Vec<f64> = Vec::new();
    assert!(g.report(&none).is_empty());
}

#[test]
fn first_link_creates_both_nodes_and_one_edge() {
    let mut g = Topology::new();
    let l = g.add_link(7, 9);
    assert_eq!(l, Link { source: 0, target: 1, edge: 0 });
    assert_eq!(g.node_keys(), vec![7, 9]);
    assert_eq!(g.edge_count(), 1);
    assert_eq!(g.edge(0), Edge { source: 0, target: 1 });
}

#[test]
fn repeated_link_lands_on_the_same_slot() {
    let mut g = Topology::new();
    let a = g.add_link(1, 2);
    let b = g.add_link(1, 2);
    assert_eq!(a, b);
    assert_eq!(g.node_count(), 2);
    assert_eq!(g.edge_count(), 1);
}

#[test]
fn duplicate_pairs_aggregate_in_fixture() {
    let mut g = Topology::new();
    for &(s, t) in &[(1, 2), (1, 3), (2, 3), (2, 4), (3, 1), (1, 2), (1, 3)] {
        g.add_link(s, t);
    }
    assert_eq!(g.node_keys(), vec![1, 2, 3, 4]);
    assert_eq!(g.edge_count(), 5);
    assert_eq!(g.find_edge(1, 2), Some(0));
    assert_eq!(g.find_edge(1, 3), Some(1));
    assert_eq!(g.find_edge(3, 1), Some(4));
    assert_eq!(g.find_edge(2, 1), None);
}

#[test]
fn reverse_pair_is_a_separate_edge() {
    let mut g = Topology::new();
    let a = g.add_link(1, 2);
    let b = g.add_link(2, 1);
    assert_ne!(a.edge, b.edge);
    assert_eq!(g.edge(b.edge), Edge { source: 1, target: 0 });
}

#[test]
fn self_loop_creates_one_node() {
    let mut g = Topology::new();
    let l = g.add_link(5, 5);
    assert_eq!(l, Link { source: 0, target: 0, edge: 0 });
    assert_eq!(g.node_count(), 1);
}

#[test]
fn target_only_node_has_a_number() {
    let mut g = Topology::new();
    g.add_link(10, 20);
    assert_eq!(g.find(20), Some(1));
    assert_eq!(g.find(10), Some(0));
    assert_eq!(g.find(30), None);
    assert_eq!(g.node_key(1), 20);
}

#[test]
fn extreme_keys_stay_distinct() {
    let mut g = Topology::new();
    let a = g.add_link(u32::MAX, 0);
    let b = g.add_link(0, u32::MAX);
    let c = g.add_link(u32::MAX, u32::MAX);
    assert_eq!(g.node_count(), 2);
    assert_eq!(g.edge_count(), 3);
    assert_ne!(a.edge, b.edge);
    assert_ne!(b.edge, c.edge);
    assert_eq!(g.find_edge(u32::MAX, u32::MAX), Some(c.edge));
}

#[test]
fn report_pairs_each_node_once_in_number_order() {
    let mut g = Topology::new();
    g.add_link(3, 1);
    g.add_link(1, 4);
    let r = g.report(&vec![0.5, 0.25, 0.25]);
    assert_eq!(r, vec![(3, 0.5), (1, 0.25), (4, 0.25)]);
}
