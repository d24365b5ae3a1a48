use vstd::prelude::*;

use crate::topology::{valid_model, with_edge, with_node};

verus! {

/// Linking the same ordered pair twice leaves the same nodes and edge slots as
/// linking it once: a repeated link adds no node and no parallel edge, so both
/// observations accumulate into the one slot of the pair.
pub proof fn lemma_link_twice(nodes: Seq<u32>, edges: Seq<(u32, u32)>, s: u32, t: u32)
    ensures
        with_node(with_node(with_node(with_node(nodes, s), t), s), t) == with_node(
            with_node(nodes, s),
            t,
        ),
        with_edge(with_edge(edges, s, t), s, t) == with_edge(edges, s, t),
{
    let once = with_node(with_node(nodes, s), t);
    assert(with_node(nodes, s).contains(s)) by {
        if !nodes.contains(s) {
            assert(nodes.push(s)[nodes.len() as int] == s);
        }
    }
    assert(once.contains(s)) by {
        let m = choose|m: int| 0 <= m < with_node(nodes, s).len() && with_node(nodes, s)[m] == s;
        assert(once[m] == s);
    }
    assert(once.contains(t)) by {
        if !with_node(nodes, s).contains(t) {
            assert(once[with_node(nodes, s).len() as int] == t);
        }
    }
    assert(with_edge(edges, s, t).contains((s, t))) by {
        if !edges.contains((s, t)) {
            assert(edges.push((s, t))[edges.len() as int] == (s, t));
        }
    }
}

/// Linking keeps a consistent model consistent: node keys stay distinct, each
/// ordered pair keeps at most one slot, and every edge endpoint is a node.
pub proof fn lemma_link_keeps_valid(nodes: Seq<u32>, edges: Seq<(u32, u32)>, s: u32, t: u32)
    requires
        valid_model(nodes, edges),
    ensures
        valid_model(with_node(with_node(nodes, s), t), with_edge(edges, s, t)),
{
    let n1 = with_node(nodes, s);
    let n2 = with_node(n1, t);
    let e1 = with_edge(edges, s, t);
    assert(n1.no_duplicates());
    assert(n2.no_duplicates());
    assert(e1.no_duplicates());
    assert(forall|k: u32| nodes.contains(k) ==> n1.contains(k)) by {
        assert forall|k: u32| nodes.contains(k) implies n1.contains(k) by {
            let m = choose|m: int| 0 <= m < nodes.len() && nodes[m] == k;
            assert(n1[m] == k);
        }
    }
    assert(forall|k: u32| n1.contains(k) ==> n2.contains(k)) by {
        assert forall|k: u32| n1.contains(k) implies n2.contains(k) by {
            let m = choose|m: int| 0 <= m < n1.len() && n1[m] == k;
            assert(n2[m] == k);
        }
    }
    assert(n1.contains(s)) by {
        if !nodes.contains(s) {
            assert(n1[nodes.len() as int] == s);
        }
    }
    assert(n2.contains(t)) by {
        if !n1.contains(t) {
            assert(n2[n1.len() as int] == t);
        }
    }
    assert forall|j: int| 0 <= j < e1.len() implies n2.contains((#[trigger] e1[j]).0) && n2.contains(
        e1[j].1,
    ) by {
        if j < edges.len() {
            assert(e1[j] == edges[j]);
            assert(nodes.contains(edges[j].0) && nodes.contains(edges[j].1));
        }
    }
}

} // verus!
