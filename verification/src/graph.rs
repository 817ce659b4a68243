//! The model of a store: a map from identifiers to vertices, over which the
//! store and all that works on it state what they do.

use vstd::prelude::*;
use vstd::set_lib::{lemma_int_range, lemma_len_subset, set_int_range};
use crate::error::StoreError;

verus! {

/// An edge as a vertex holds it: the label and the vertex it leads to.
pub struct Link {
    pub label: Seq<char>,
    pub to: u32,
}

/// What one vertex holds: its outgoing edges, oldest first, and its payload.
pub struct Node {
    pub edges: Seq<Link>,
    pub data: Option<Seq<u8>>,
}

/// The model of a store: its vertices by identifier, and a bound above every
/// identifier in use.
pub struct Graph {
    pub nodes: Map<u32, Node>,
    pub next: nat,
}

impl Node {
    /// A vertex without edges or payload.
    pub open spec fn empty() -> Node {
        Node { edges: Seq::empty(), data: None }
    }

    /// An edge under `label` leaves this vertex.
    pub open spec fn has(self, label: Seq<char>) -> bool {
        exists|i: int| 0 <= i < self.edges.len() && (#[trigger] self.edges[i]).label == label
    }

    /// The place of an edge under `label` among the edges.
    pub open spec fn find(self, label: Seq<char>) -> int {
        choose|i: int| 0 <= i < self.edges.len() && (#[trigger] self.edges[i]).label == label
    }

    /// The vertex that the edge under `label` leads to.
    pub open spec fn kid(self, label: Seq<char>) -> Option<u32> {
        if self.has(label) {
            Some(self.edges[self.find(label)].to)
        } else {
            None
        }
    }

    /// No two edges share a label.
    pub open spec fn wf(self) -> bool {
        forall|i: int, j: int|
            0 <= i < j < self.edges.len() ==> (#[trigger] self.edges[i]).label != (
            #[trigger] self.edges[j]).label
    }

    /// With distinct labels, the edge under a label is the only one.
    pub proof fn lemma_find(self, i: int)
        requires
            self.wf(),
            0 <= i < self.edges.len(),
        ensures
            self.has(self.edges[i].label),
            self.find(self.edges[i].label) == i,
            self.kid(self.edges[i].label) == Some(self.edges[i].to),
    {
        let label = self.edges[i].label;
        let j = self.find(label);
        assert(0 <= j < self.edges.len() && self.edges[j].label == label);
        if j < i {
            assert(self.edges[j].label != self.edges[i].label);
        } else if i < j {
            assert(self.edges[i].label != self.edges[j].label);
        }
    }
}

/// `label` followed by `k` slashes.
pub open spec fn slashed(label: Seq<char>, k: nat) -> Seq<char> {
    label + Seq::new(k, |i: int| '/')
}

impl Node {
    /// `k` is the least number of slashes, one at least, that makes `label` a
    /// label without an edge here.
    pub open spec fn first_free(self, label: Seq<char>, k: nat) -> bool {
        &&& k >= 1
        &&& !self.has(slashed(label, k))
        &&& forall|j: nat| 1 <= j < k ==> self.has(#[trigger] slashed(label, j))
    }

    /// `label` followed by the fewest slashes that make it new among the
    /// labels here.
    pub open spec fn fresh(self, label: Seq<char>) -> Seq<char> {
        slashed(label, choose|k: nat| self.first_free(label, k))
    }

    proof fn lemma_slots(self, label: Seq<char>, k: nat) -> (s: Set<int>)
        requires
            forall|j: nat| 1 <= j <= k ==> self.has(#[trigger] slashed(label, j)),
        ensures
            s.finite(),
            s.len() == k,
            forall|x: int|
                s.contains(x) ==> 0 <= x < self.edges.len() && label.len() < self.edges[x].label.len()
                    <= label.len() + k,
        decreases k,
    {
        if k == 0 {
            Set::empty()
        } else {
            let s0 = self.lemma_slots(label, (k - 1) as nat);
            assert(self.has(slashed(label, k)));
            let x = self.find(slashed(label, k));
            assert(self.edges[x].label.len() == label.len() + k);
            s0.insert(x)
        }
    }

    /// As many edges are here as there are taken labels made from `label`.
    pub proof fn lemma_taken_bound(self, label: Seq<char>, k: nat)
        requires
            forall|j: nat| 1 <= j <= k ==> self.has(#[trigger] slashed(label, j)),
        ensures
            k <= self.edges.len(),
    {
        let s = self.lemma_slots(label, k);
        lemma_int_range(0, self.edges.len() as int);
        lemma_len_subset(s, set_int_range(0, self.edges.len() as int));
    }

    /// The least free number of slashes is the one that `fresh` takes.
    pub proof fn lemma_fresh(self, label: Seq<char>, k: nat)
        requires
            self.first_free(label, k),
        ensures
            self.fresh(label) == slashed(label, k),
    {
        let c = choose|c: nat| self.first_free(label, c);
        if c < k {
            assert(self.has(slashed(label, c)));
        } else if k < c {
            assert(self.has(slashed(label, k)));
        }
    }

    proof fn lemma_search(self, label: Seq<char>, k: nat) -> (c: nat)
        requires
            k >= 1,
            forall|j: nat| 1 <= j < k ==> self.has(#[trigger] slashed(label, j)),
        ensures
            self.first_free(label, c),
        decreases self.edges.len() + 1 - k,
    {
        if self.has(slashed(label, k)) {
            self.lemma_taken_bound(label, k);
            self.lemma_search(label, k + 1)
        } else {
            k
        }
    }

    /// No edge here has the label that `fresh` makes.
    pub proof fn lemma_fresh_is_free(self, label: Seq<char>)
        ensures
            !self.has(self.fresh(label)),
    {
        let c = self.lemma_search(label, 1);
        self.lemma_fresh(label, c);
    }
}

impl Graph {
    /// The graph without vertices.
    pub open spec fn empty() -> Graph {
        Graph { nodes: Map::empty(), next: 0 }
    }

    /// `v` is a vertex of the graph.
    pub open spec fn contains(self, v: u32) -> bool {
        self.nodes.contains_key(v)
    }

    /// The number of vertices.
    pub open spec fn len(self) -> nat {
        self.nodes.dom().len()
    }

    /// Finitely many vertices, each below the bound; distinct labels on every
    /// vertex; every edge leads to a vertex of the graph.
    pub open spec fn wf(self) -> bool {
        &&& self.nodes.dom().finite()
        &&& self.next <= 0x1_0000_0000
        &&& forall|v: u32| #[trigger]
            self.nodes.contains_key(v) ==> v < self.next && self.nodes[v].wf()
        &&& forall|v: u32, i: int|
            self.nodes.contains_key(v) && 0 <= i < self.nodes[v].edges.len()
                ==> self.nodes.contains_key((#[trigger] self.nodes[v].edges[i]).to)
    }

    /// The graph with `v` added as a vertex without edges or payload.
    pub open spec fn add(self, v: u32) -> Result<Graph, StoreError> {
        if self.contains(v) {
            Err(StoreError::Present(v))
        } else {
            Ok(
                Graph {
                    nodes: self.nodes.insert(v, Node::empty()),
                    next: if v >= self.next {
                        (v + 1) as nat
                    } else {
                        self.next
                    },
                },
            )
        }
    }

    /// The graph with one more edge, from `v1` to `v2` under `label`, behind the
    /// edges that `v1` has.
    pub open spec fn bind(self, v1: u32, v2: u32, label: Seq<char>) -> Result<Graph, StoreError> {
        if !self.contains(v1) {
            Err(StoreError::Absent(v1))
        } else if !self.contains(v2) {
            Err(StoreError::Absent(v2))
        } else if self.nodes[v1].has(label) {
            Err(StoreError::Taken(v1))
        } else {
            Ok(
                Graph {
                    nodes: self.nodes.insert(
                        v1,
                        Node {
                            edges: self.nodes[v1].edges.push(Link { label, to: v2 }),
                            data: self.nodes[v1].data,
                        },
                    ),
                    next: self.next,
                },
            )
        }
    }

    /// The graph with `data` as the payload of `v`, in place of any it had.
    pub open spec fn put(self, v: u32, data: Seq<u8>) -> Result<Graph, StoreError> {
        if !self.contains(v) {
            Err(StoreError::Absent(v))
        } else {
            Ok(
                Graph {
                    nodes: self.nodes.insert(
                        v,
                        Node { edges: self.nodes[v].edges, data: Some(data) },
                    ),
                    next: self.next,
                },
            )
        }
    }

    /// What `v` holds; nothing where the graph has no such vertex.
    pub open spec fn node(self, v: u32) -> Node {
        if self.contains(v) {
            self.nodes[v]
        } else {
            Node::empty()
        }
    }

    /// The payload of `v`.
    pub open spec fn data(self, v: u32) -> Option<Seq<u8>> {
        self.node(v).data
    }

    /// The edges of `v`, oldest first.
    pub open spec fn edges(self, v: u32) -> Seq<Link> {
        self.node(v).edges
    }

    /// The vertex that the edge of `v` under `label` leads to.
    pub open spec fn kid(self, v: u32, label: Seq<char>) -> Option<u32> {
        self.node(v).kid(label)
    }

    /// A label that `v` does not use yet, made from `label`.
    pub open spec fn fresh(self, v: u32, label: Seq<char>) -> Seq<char> {
        self.node(v).fresh(label)
    }

    /// The least identifier above all that are in use.
    pub open spec fn next_id(self) -> Result<u32, StoreError> {
        if self.next <= u32::MAX {
            Ok(self.next as u32)
        } else {
            Err(StoreError::Exhausted)
        }
    }

    pub proof fn lemma_add_wf(self, v: u32)
        requires
            self.wf(),
            self.add(v) is Ok,
        ensures
            self.add(v)->Ok_0.wf(),
            self.add(v)->Ok_0.len() == self.len() + 1,
    {
        let g = self.add(v)->Ok_0;
        assert forall|w: u32, i: int|
            g.nodes.contains_key(w) && 0 <= i < g.nodes[w].edges.len() implies g.nodes.contains_key(
            (#[trigger] g.nodes[w].edges[i]).to) by {
            assert(w != v);
            assert(self.nodes.contains_key(self.nodes[w].edges[i].to));
        }
    }

    pub proof fn lemma_bind_wf(self, v1: u32, v2: u32, label: Seq<char>)
        requires
            self.wf(),
            self.bind(v1, v2, label) is Ok,
        ensures
            self.bind(v1, v2, label)->Ok_0.wf(),
            self.bind(v1, v2, label)->Ok_0.nodes.dom() == self.nodes.dom(),
    {
        let g = self.bind(v1, v2, label)->Ok_0;
        let old_edges = self.nodes[v1].edges;
        let new_edges = g.nodes[v1].edges;
        assert(g.nodes.dom() =~= self.nodes.dom());
        assert forall|i: int, j: int| 0 <= i < j < new_edges.len() implies (
        #[trigger] new_edges[i]).label != (#[trigger] new_edges[j]).label by {
            if j < old_edges.len() {
                assert(old_edges[i].label != old_edges[j].label);
            } else {
                assert(old_edges[i].label != label);
            }
        }
        assert forall|w: u32, i: int|
            g.nodes.contains_key(w) && 0 <= i < g.nodes[w].edges.len() implies g.nodes.contains_key(
            (#[trigger] g.nodes[w].edges[i]).to) by {
            if w == v1 && i == old_edges.len() {
            } else {
                assert(self.nodes.contains_key(self.nodes[w].edges[i].to));
            }
        }
    }

    pub proof fn lemma_put_wf(self, v: u32, data: Seq<u8>)
        requires
            self.wf(),
            self.put(v, data) is Ok,
        ensures
            self.put(v, data)->Ok_0.wf(),
            self.put(v, data)->Ok_0.nodes.dom() == self.nodes.dom(),
    {
        let g = self.put(v, data)->Ok_0;
        assert(g.nodes.dom() =~= self.nodes.dom());
        assert forall|w: u32, i: int|
            g.nodes.contains_key(w) && 0 <= i < g.nodes[w].edges.len() implies g.nodes.contains_key(
            (#[trigger] g.nodes[w].edges[i]).to) by {
            assert(self.nodes.contains_key(self.nodes[w].edges[i].to));
        }
    }
}

} // verus!
