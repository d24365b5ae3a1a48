use std::collections::HashMap;
use vstd::prelude::*;

verus! {

broadcast use vstd::std_specs::hash::group_hash_axioms;

/// The node sequence after `k` is referenced: unchanged if `k` is already a node,
/// else `k` appended.
pub open spec fn with_node(nodes: Seq<u32>, k: u32) -> Seq<u32> {
    if nodes.contains(k) {
        nodes
    } else {
        nodes.push(k)
    }
}

/// The edge sequence after the pair `(s, t)` is linked: one slot per ordered pair.
pub open spec fn with_edge(edges: Seq<(u32, u32)>, s: u32, t: u32) -> Seq<(u32, u32)> {
    if edges.contains((s, t)) {
        edges
    } else {
        edges.push((s, t))
    }
}

/// A consistent model: node keys are distinct, each ordered pair has at most one
/// slot, and every endpoint of an edge is a node.
pub open spec fn valid_model(nodes: Seq<u32>, edges: Seq<(u32, u32)>) -> bool {
    &&& nodes.no_duplicates()
    &&& edges.no_duplicates()
    &&& forall|j: int|
        0 <= j < edges.len() ==> nodes.contains((#[trigger] edges[j]).0) && nodes.contains(
            edges[j].1,
        )
}

/// Code of an ordered pair of node keys, one-to-one.
pub open spec fn pair_code(s: u32, t: u32) -> u64 {
    (s as u64 * 0x1_0000_0000 + t as u64) as u64
}

/// Distinct key pairs have distinct codes.
proof fn lemma_pair_code_injective(s1: u32, t1: u32, s2: u32, t2: u32)
    ensures
        pair_code(s1, t1) == pair_code(s2, t2) ==> s1 == s2 && t1 == t2,
{
    assert(pair_code(s1, t1) == pair_code(s2, t2) ==> s1 == s2 && t1 == t2) by (nonlinear_arith)
        requires
            pair_code(s1, t1) == s1 as int * 0x1_0000_0000 + t1 as int,
            pair_code(s2, t2) == s2 as int * 0x1_0000_0000 + t2 as int,
            0 <= t1 < 0x1_0000_0000,
            0 <= t2 < 0x1_0000_0000,
    ;
}

/// An edge slot, by the dense numbers of its endpoints.
#[derive(Clone, Copy, Debug, PartialEq, Eq, Structural)]
pub struct Edge {
    pub source: usize,
    pub target: usize,
}

/// Where one observed link lands: the numbers of its two nodes and of its edge slot.
#[derive(Clone, Copy, Debug, PartialEq, Eq, Structural)]
pub struct Link {
    pub source: usize,
    pub target: usize,
    pub edge: usize,
}

/// Nodes and edge slots of a directed graph built from observed links.
pub struct Topology {
    /// Node key by node number.
    keys: Vec<u32>,
    /// Node number by node key.
    index: HashMap<u32, usize>,
    /// Endpoints by edge slot.
    ends: Vec<Edge>,
    /// Edge slot by the code of its key pair.
    slots: HashMap<u64, usize>,
}

impl Topology {
    /// Node keys by dense number.
    pub closed spec fn nodes(&self) -> Seq<u32> {
        self.keys@
    }

    /// Key pair of each edge slot, by slot number.
    pub closed spec fn edges(&self) -> Seq<(u32, u32)> {
        self.ends@.map_values(|e: Edge| (self.keys@[e.source as int], self.keys@[e.target as int]))
    }

    /// The two lookups invert the two vectors, and every endpoint is a node number.
    pub closed spec fn wf(&self) -> bool {
        &&& forall|i: int|
            0 <= i < self.keys@.len() ==> #[trigger] self.index@.contains_key(self.keys@[i])
                && self.index@[self.keys@[i]] == i
        &&& forall|k: u32|
            #[trigger] self.index@.contains_key(k) ==> self.index@[k] < self.keys@.len()
                && self.keys@[self.index@[k] as int] == k
        &&& forall|j: int|
            0 <= j < self.ends@.len() ==> (#[trigger] self.ends@[j]).source < self.keys@.len()
                && self.ends@[j].target < self.keys@.len()
        &&& forall|j: int|
            0 <= j < self.ends@.len() ==> #[trigger] self.slots@.contains_key(
                pair_code(self.keys@[self.ends@[j].source as int], self.keys@[self.ends@[j].target as int]),
            ) && self.slots@[pair_code(
                self.keys@[self.ends@[j].source as int],
                self.keys@[self.ends@[j].target as int],
            )] == j
        &&& forall|c: u64|
            #[trigger] self.slots@.contains_key(c) ==> self.slots@[c] < self.ends@.len()
                && pair_code(
                self.keys@[self.ends@[self.slots@[c] as int].source as int],
                self.keys@[self.ends@[self.slots@[c] as int].target as int],
            ) == c
    }

    /// An empty graph: no nodes, no edges.
    pub fn new() -> (r: Topology)
        ensures
            r.wf(),
            r.nodes() == Seq::<u32>::empty(),
            r.edges() == Seq::<(u32, u32)>::empty(),
    {
        let r = Topology {
            keys: Vec::new(),
            index: HashMap::new(),
            ends: Vec::new(),
            slots: HashMap::new(),
        };
        assert(r.edges() =~= Seq::<(u32, u32)>::empty());
        r
    }

    /// Dense number of node `key`, creating the node if it is new.
    fn intern(&mut self, key: u32) -> (r: usize)
        requires
            old(self).wf(),
        ensures
            final(self).wf(),
            final(self).nodes() == with_node(old(self).nodes(), key),
            final(self).ends@ == old(self).ends@,
            final(self).slots@ == old(self).slots@,
            r < final(self).nodes().len(),
            final(self).nodes()[r as int] == key,
            forall|i: int| 0 <= i < old(self).nodes().len() ==> final(self).nodes()[i] == old(self).nodes()[i],
    {
        match self.index.get(&key) {
            Some(i) => {
                let i = *i;
                proof {
                    assert(self.keys@.contains(key));
                }
                i
            },
            None => {
                let i = self.keys.len();
                proof {
                    assert(!self.keys@.contains(key)) by {
                        if self.keys@.contains(key) {
                            let m = choose|m: int| 0 <= m < self.keys@.len() && self.keys@[m] == key;
                            assert(self.index@.contains_key(self.keys@[m]));
                        }
                    }
                }
                self.keys.push(key);
                self.index.insert(key, i);
                proof {
                    assert forall|j: int| 0 <= j < self.ends@.len() implies #[trigger] self.slots@.contains_key(
                        pair_code(self.keys@[self.ends@[j].source as int], self.keys@[self.ends@[j].target as int]),
                    ) && self.slots@[pair_code(
                        self.keys@[self.ends@[j].source as int],
                        self.keys@[self.ends@[j].target as int],
                    )] == j by {
                        let e = old(self).ends@[j];
                        assert(e.source < old(self).keys@.len() && e.target < old(self).keys@.len());
                        assert(self.keys@[e.source as int] == old(self).keys@[e.source as int]);
                        assert(self.keys@[e.target as int] == old(self).keys@[e.target as int]);
                        assert(old(self).slots@.contains_key(
                            pair_code(old(self).keys@[e.source as int], old(self).keys@[e.target as int]),
                        ));
                    }
                }
                i
            },
        }
    }

    /// Records one observation of the link `source -> target`: creates either node
    /// if it is new, and the pair's edge slot if the pair is new. Linking a pair
    /// again lands on the slot it already has.
    pub fn add_link(&mut self, source: u32, target: u32) -> (r: Link)
        requires
            old(self).wf(),
        ensures
            final(self).wf(),
            final(self).nodes() == with_node(with_node(old(self).nodes(), source), target),
            final(self).edges() == with_edge(old(self).edges(), source, target),
            r.source < final(self).nodes().len(),
            final(self).nodes()[r.source as int] == source,
            r.target < final(self).nodes().len(),
            final(self).nodes()[r.target as int] == target,
            r.edge < final(self).edges().len(),
            final(self).edges()[r.edge as int] == (source, target),
    {
        let ghost old_edges = self.edges();
        let s = self.intern(source);
        let t = self.intern(target);
        assert(self.edges() =~= old_edges) by {
            assert forall|j: int| 0 <= j < self.ends@.len() implies self.edges()[j] == old_edges[j] by {
                let e = self.ends@[j];
                assert(e.source < old(self).keys@.len() && e.target < old(self).keys@.len());
            }
        }
        let code = source as u64 * 0x1_0000_0000u64 + target as u64;
        assert(code == pair_code(source, target));
        match self.slots.get(&code) {
            Some(e) => {
                let e = *e;
                proof {
                    let ee = self.ends@[e as int];
                    lemma_pair_code_injective(
                        self.keys@[ee.source as int],
                        self.keys@[ee.target as int],
                        source,
                        target,
                    );
                    assert(self.edges()[e as int] == (source, target));
                    assert(self.edges().contains((source, target)));
                }
                Link { source: s, target: t, edge: e }
            },
            None => {
                proof {
                    if self.edges().contains((source, target)) {
                        let j = choose|j: int| 0 <= j < self.edges().len() && self.edges()[j] == (source, target);
                        assert(self.slots@.contains_key(
                            pair_code(self.keys@[self.ends@[j].source as int], self.keys@[self.ends@[j].target as int]),
                        ));
                    }
                }
                let e = self.ends.len();
                self.ends.push(Edge { source: s, target: t });
                self.slots.insert(code, e);
                proof {
                    assert(self.edges() =~= old_edges.push((source, target)));
                    assert forall|j: int| 0 <= j < self.ends@.len() implies #[trigger] self.slots@.contains_key(
                        pair_code(self.keys@[self.ends@[j].source as int], self.keys@[self.ends@[j].target as int]),
                    ) && self.slots@[pair_code(
                        self.keys@[self.ends@[j].source as int],
                        self.keys@[self.ends@[j].target as int],
                    )] == j by {
                        if j < e {
                            let c = pair_code(self.keys@[self.ends@[j].source as int], self.keys@[self.ends@[j].target as int]);
                            assert(c != code);
                        }
                    }
                    assert forall|c: u64| #[trigger] self.slots@.contains_key(c) implies self.slots@[c] < self.ends@.len()
                        && pair_code(
                        self.keys@[self.ends@[self.slots@[c] as int].source as int],
                        self.keys@[self.ends@[self.slots@[c] as int].target as int],
                    ) == c by {
                        if c != code {
                            assert(old(self).slots@.contains_key(c));
                        }
                    }
                }
                Link { source: s, target: t, edge: e }
            },
        }
    }

    /// The model of a well-formed graph is consistent: every edge endpoint is a node.
    pub proof fn lemma_valid(&self)
        requires
            self.wf(),
        ensures
            valid_model(self.nodes(), self.edges()),
    {
        assert forall|a: int, b: int|
            0 <= a < b < self.keys@.len() implies self.keys@[a] != self.keys@[b] by {
            assert(self.index@.contains_key(self.keys@[a]));
            assert(self.index@.contains_key(self.keys@[b]));
        }
        assert forall|a: int, b: int|
            0 <= a < b < self.ends@.len() implies self.edges()[a] != self.edges()[b] by {
            let ea = self.ends@[a];
            let eb = self.ends@[b];
            assert(self.slots@.contains_key(
                pair_code(self.keys@[self.ends@[a].source as int], self.keys@[self.ends@[a].target as int]),
            ));
            assert(self.slots@.contains_key(
                pair_code(self.keys@[self.ends@[b].source as int], self.keys@[self.ends@[b].target as int]),
            ));
            assert(self.edges()[a] == (self.keys@[ea.source as int], self.keys@[ea.target as int]));
            assert(self.edges()[b] == (self.keys@[eb.source as int], self.keys@[eb.target as int]));
        }
        assert forall|j: int| 0 <= j < self.edges().len() implies self.nodes().contains(
            (#[trigger] self.edges()[j]).0,
        ) && self.nodes().contains(self.edges()[j].1) by {
            let e = self.ends@[j];
            assert(self.nodes()[e.source as int] == self.edges()[j].0);
            assert(self.nodes()[e.target as int] == self.edges()[j].1);
        }
    }

    /// Number of nodes.
    pub fn node_count(&self) -> (r: usize)
        requires
            self.wf(),
        ensures
            r == self.nodes().len(),
    {
        self.keys.len()
    }

    /// Number of edge slots, one per distinct ordered pair linked so far.
    pub fn edge_count(&self) -> (r: usize)
        requires
            self.wf(),
        ensures
            r == self.edges().len(),
    {
        self.ends.len()
    }

    /// Key of the node numbered `i`.
    pub fn node_key(&self, i: usize) -> (r: u32)
        requires
            self.wf(),
            i < self.nodes().len(),
        ensures
            r == self.nodes()[i as int],
    {
        self.keys[i]
    }

    /// Endpoints of the edge slot `j`, as node numbers.
    pub fn edge(&self, j: usize) -> (r: Edge)
        requires
            self.wf(),
            j < self.edges().len(),
        ensures
            r.source < self.nodes().len(),
            r.target < self.nodes().len(),
            (self.nodes()[r.source as int], self.nodes()[r.target as int]) == self.edges()[j as int],
    {
        self.ends[j]
    }

    /// Number of the node `key`, if it is a node.
    pub fn find(&self, key: u32) -> (r: Option<usize>)
        requires
            self.wf(),
        ensures
            r.is_some() <==> self.nodes().contains(key),
            r matches Some(i) ==> i < self.nodes().len() && self.nodes()[i as int] == key,
    {
        match self.index.get(&key) {
            Some(i) => Some(*i),
            None => {
                proof {
                    if self.keys@.contains(key) {
                        let m = choose|m: int| 0 <= m < self.keys@.len() && self.keys@[m] == key;
                        assert(self.index@.contains_key(self.keys@[m]));
                    }
                }
                None
            },
        }
    }

    /// Number of the edge slot of the pair `source -> target`, if that pair was linked.
    pub fn find_edge(&self, source: u32, target: u32) -> (r: Option<usize>)
        requires
            self.wf(),
        ensures
            r.is_some() <==> self.edges().contains((source, target)),
            r matches Some(j) ==> j < self.edges().len() && self.edges()[j as int] == (source, target),
    {
        let code = source as u64 * 0x1_0000_0000u64 + target as u64;
        assert(code == pair_code(source, target));
        match self.slots.get(&code) {
            Some(e) => {
                let e = *e;
                proof {
                    let ee = self.ends@[e as int];
                    lemma_pair_code_injective(
                        self.keys@[ee.source as int],
                        self.keys@[ee.target as int],
                        source,
                        target,
                    );
                    assert(self.edges()[e as int] == (source, target));
                }
                Some(e)
            },
            None => {
                proof {
                    if self.edges().contains((source, target)) {
                        let j = choose|j: int| 0 <= j < self.edges().len() && self.edges()[j] == (source, target);
                        assert(self.slots@.contains_key(
                            pair_code(self.keys@[self.ends@[j].source as int], self.keys@[self.ends@[j].target as int]),
                        ));
                    }
                }
                None
            },
        }
    }

    /// All node keys, each once, by node number: the order in which results are reported.
    pub fn node_keys(&self) -> (r: Vec<u32>)
        requires
            self.wf(),
        ensures
            r@ == self.nodes(),
    {
        self.keys.clone()
    }

    /// Pairs each node key with the value at its node number, each node once and in
    /// node-number order: the report of a per-node quantity such as a rank.
    pub fn report<R: Copy>(&self, values: &Vec<R>) -> (r: Vec<(u32, R)>)
        requires
            self.wf(),
            values@.len() == self.nodes().len(),
        ensures
            r@.len() == self.nodes().len(),
            forall|i: int| 0 <= i < r@.len() ==> #[trigger] r@[i] == (self.nodes()[i], values@[i]),
    {
        let mut r: Vec<(u32, R)> = Vec::new();
        let mut i: usize = 0;
        while i < self.keys.len()
            invariant
                self.wf(),
                values@.len() == self.keys@.len(),
                i <= self.keys@.len(),
                r@.len() == i,
                forall|m: int| 0 <= m < i ==> #[trigger] r@[m] == (self.keys@[m], values@[m]),
            decreases self.keys@.len() - i,
        {
            r.push((self.keys[i], values[i]));
            i = i + 1;
        }
        r
    }
}

} // verus!
