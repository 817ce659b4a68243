//! The store.

use vstd::prelude::*;
use std::collections::HashMap;
use vstd::std_specs::hash::spec_hash_map_iter;
use vstd::std_specs::iter::IteratorSpec;
use crate::error::StoreError;
use crate::graph::{Graph, Link, Node};

verus! {

struct Edge {
    label: String,
    to: u32,
}

struct Vertex {
    edges: Vec<Edge>,
    data: Option<Vec<u8>>,
}

/// A graph of vertices, labelled edges and payloads, kept in memory.
pub struct Sodg {
    vertices: HashMap<u32, Vertex>,
    next_v: u64,
}

impl View for Edge {
    type V = Link;

    closed spec fn view(&self) -> Link {
        Link { label: self.label@, to: self.to }
    }
}

impl View for Vertex {
    type V = Node;

    closed spec fn view(&self) -> Node {
        Node {
            edges: self.edges@.map_values(|e: Edge| e@),
            data: match self.data {
                Some(d) => Some(d@),
                None => None,
            },
        }
    }
}

impl View for Sodg {
    type V = Graph;

    closed spec fn view(&self) -> Graph {
        Graph { nodes: self.vertices@.map_values(|v: Vertex| v@), next: self.next_v as nat }
    }
}

impl Clone for Edge {
    fn clone(&self) -> (c: Self)
        ensures
            c@ == self@,
    {
        Edge { label: self.label.clone(), to: self.to }
    }
}

impl Clone for Vertex {
    fn clone(&self) -> (c: Self)
        ensures
            c@ == self@,
    {
        let mut edges: Vec<Edge> = Vec::new();
        let mut i: usize = 0;
        while i < self.edges.len()
            invariant
                i <= self.edges.len(),
                edges@.len() == i,
                forall|j: int| 0 <= j < i ==> (#[trigger] edges@[j])@ == self.edges@[j]@,
            decreases self.edges.len() - i,
        {
            edges.push(self.edges[i].clone());
            i += 1;
        }
        let data = match &self.data {
            Some(d) => Some(d.clone()),
            None => None,
        };
        let c = Vertex { edges, data };
        assert(c@.edges =~= self@.edges);
        c
    }
}

impl Sodg {
    /// The store keeps its model well formed.
    pub open spec fn wf(&self) -> bool {
        self@.wf()
    }

    /// A graph without vertices.
    pub fn empty() -> (g: Sodg)
        ensures
            g.wf(),
            g@ == Graph::empty(),
    {
        let g = Sodg { vertices: HashMap::new(), next_v: 0 };
        assert(g@.nodes =~= Map::<u32, Node>::empty());
        g
    }

    /// A graph of its own that holds what this one holds.
    pub(crate) fn copy(&self) -> (c: Sodg)
        ensures
            c@ == self@,
    {
        let mut vertices: HashMap<u32, Vertex> = HashMap::new();
        for pair in it: self.vertices.iter()
            invariant
                it.seq() == spec_hash_map_iter(&self.vertices).remaining(),
                forall|k: u32| #[trigger]
                    vertices@.contains_key(k) ==> self.vertices@.contains_key(k) && vertices@[k]@
                        == self.vertices@[k]@,
                forall|j: int|
                    0 <= j < it.index() ==> vertices@.contains_key(*(#[trigger] it.seq()[j]).0),
        {
            let (k, v) = pair;
            vertices.insert(*k, v.clone());
        }
        let c = Sodg { vertices, next_v: self.next_v };
        proof {
            let all = spec_hash_map_iter(&self.vertices).remaining();
            assert forall|k: u32| self.vertices@.contains_key(k) implies c.vertices@.contains_key(
                k,
            ) by {
                assert(all.contains((&k, &self.vertices@[k])));
                let j = choose|j: int| 0 <= j < all.len() && all[j] == (&k, &self.vertices@[k]);
                assert(*all[j].0 == k);
            }
            assert(c@.nodes =~= self@.nodes);
        }
        c
    }

    /// The number of vertices.
    pub fn len(&self) -> (n: usize)
        requires
            self.wf(),
        ensures
            n == self@.len(),
    {
        assert(self@.nodes.dom() =~= self.vertices@.dom());
        self.vertices.len()
    }

    /// Whether the graph has no vertex.
    pub fn is_empty(&self) -> (b: bool)
        requires
            self.wf(),
        ensures
            b == (self@.len() == 0),
    {
        self.len() == 0
    }

    /// Whether `v` is a vertex of the graph.
    pub fn contains(&self, v: u32) -> (b: bool)
        ensures
            b == self@.contains(v),
    {
        self.vertices.contains_key(&v)
    }

    /// The least identifier above all that are in use, for a vertex to add.
    pub fn next_id(&self) -> (r: Result<u32, StoreError>)
        requires
            self.wf(),
        ensures
            r == self@.next_id(),
    {
        if self.next_v <= u32::MAX as u64 {
            Ok(self.next_v as u32)
        } else {
            Err(StoreError::Exhausted)
        }
    }

    /// Adds `v` as a vertex without edges or payload; refuses one that is in
    /// the graph already.
    pub fn add(&mut self, v: u32) -> (r: Result<(), StoreError>)
        requires
            old(self).wf(),
        ensures
            final(self).wf(),
            match old(self)@.add(v) {
                Ok(g) => r is Ok && final(self)@ == g,
                Err(e) => r == Err::<(), StoreError>(e) && final(self)@ == old(self)@,
            },
    {
        if self.vertices.contains_key(&v) {
            return Err(StoreError::Present(v));
        }
        let vtx = Vertex { edges: Vec::new(), data: None };
        assert(vtx@.edges =~= Seq::<Link>::empty());
        self.vertices.insert(v, vtx);
        if v as u64 >= self.next_v {
            self.next_v = v as u64 + 1;
        }
        proof {
            let g = old(self)@.add(v)->Ok_0;
            old(self)@.lemma_add_wf(v);
            assert(self@.nodes =~= g.nodes);
        }
        Ok(())
    }

    /// Makes an edge from `v1` to `v2` under the label `a`; refuses a vertex
    /// that the graph does not have, and a label that `v1` uses already.
    pub fn bind(&mut self, v1: u32, v2: u32, a: &str) -> (r: Result<(), StoreError>)
        requires
            old(self).wf(),
        ensures
            final(self).wf(),
            match old(self)@.bind(v1, v2, a@) {
                Ok(g) => r is Ok && final(self)@ == g,
                Err(e) => r == Err::<(), StoreError>(e) && final(self)@ == old(self)@,
            },
    {
        if !self.vertices.contains_key(&v1) {
            return Err(StoreError::Absent(v1));
        }
        if !self.vertices.contains_key(&v2) {
            return Err(StoreError::Absent(v2));
        }
        if self.kid(v1, a).is_some() {
            return Err(StoreError::Taken(v1));
        }
        let label = a.to_owned();
        match self.vertices.remove(&v1) {
            Some(mut vtx) => {
                let ghost before = vtx@;
                vtx.edges.push(Edge { label, to: v2 });
                proof {
                    assert(vtx@.edges =~= before.edges.push(Link { label: a@, to: v2 }));
                }
                self.vertices.insert(v1, vtx);
            },
            None => {},
        }
        proof {
            let g = old(self)@.bind(v1, v2, a@)->Ok_0;
            old(self)@.lemma_bind_wf(v1, v2, a@);
            assert(self@.nodes =~= g.nodes);
        }
        Ok(())
    }

    /// Makes `data` the payload of `v`, in place of any it had.
    pub fn put(&mut self, v: u32, data: Vec<u8>) -> (r: Result<(), StoreError>)
        requires
            old(self).wf(),
        ensures
            final(self).wf(),
            match old(self)@.put(v, data@) {
                Ok(g) => r is Ok && final(self)@ == g,
                Err(e) => r == Err::<(), StoreError>(e) && final(self)@ == old(self)@,
            },
    {
        match self.vertices.remove(&v) {
            Some(mut vtx) => {
                vtx.data = Some(data);
                self.vertices.insert(v, vtx);
                proof {
                    let g = old(self)@.put(v, data@)->Ok_0;
                    old(self)@.lemma_put_wf(v, data@);
                    assert(self@.nodes =~= g.nodes);
                }
                Ok(())
            },
            None => {
                proof {
                    assert(self.vertices@ =~= old(self).vertices@);
                }
                Err(StoreError::Absent(v))
            },
        }
    }

    /// A copy of the payload of `v`, if it has one.
    pub fn data(&self, v: u32) -> (r: Result<Option<Vec<u8>>, StoreError>)
        ensures
            match r {
                Ok(Some(d)) => self@.contains(v) && self@.data(v) == Some(d@),
                Ok(None) => self@.contains(v) && self@.data(v) is None,
                Err(e) => !self@.contains(v) && e == StoreError::Absent(v),
            },
    {
        match self.vertices.get(&v) {
            Some(vtx) => match &vtx.data {
                Some(d) => Ok(Some(d.clone())),
                None => Ok(None),
            },
            None => Err(StoreError::Absent(v)),
        }
    }

    /// Whether `v` holds a payload.
    pub fn is_full(&self, v: u32) -> (r: Result<bool, StoreError>)
        ensures
            match r {
                Ok(b) => self@.contains(v) && b == (self@.data(v) is Some),
                Err(e) => !self@.contains(v) && e == StoreError::Absent(v),
            },
    {
        match self.vertices.get(&v) {
            Some(vtx) => Ok(vtx.data.is_some()),
            None => Err(StoreError::Absent(v)),
        }
    }

    /// The vertex that the edge of `v` under the label `a` leads to.
    pub fn kid(&self, v: u32, a: &str) -> (r: Option<u32>)
        requires
            self.wf(),
        ensures
            r == self@.kid(v, a@),
    {
        match self.vertices.get(&v) {
            Some(vtx) => {
                let key = a.to_owned();
                let mut i: usize = 0;
                while i < vtx.edges.len()
                    invariant
                        i <= vtx.edges.len(),
                        key@ == a@,
                        self.wf(),
                        self@.contains(v),
                        self@.nodes[v] == vtx@,
                        forall|j: int| 0 <= j < i ==> (#[trigger] vtx@.edges[j]).label != a@,
                    decreases vtx.edges.len() - i,
                {
                    if vtx.edges[i].label == key {
                        proof {
                            assert(vtx@.edges[i as int].label == a@);
                            assert(self@.nodes[v] == vtx@);
                            vtx@.lemma_find(i as int);
                        }
                        return Some(vtx.edges[i].to);
                    }
                    i += 1;
                }
                assert(!vtx@.has(a@));
                None
            },
            None => None,
        }
    }

    /// The edges of `v`, oldest first, each as its label and the vertex it
    /// leads to.
    pub fn kids(&self, v: u32) -> (r: Result<Vec<(String, u32)>, StoreError>)
        ensures
            match r {
                Ok(kids) => {
                    &&& self@.contains(v)
                    &&& kids@.len() == self@.edges(v).len()
                    &&& forall|i: int|
                        0 <= i < kids@.len() ==> (#[trigger] kids@[i]).0@ == self@.edges(v)[i].label
                            && kids@[i].1 == self@.edges(v)[i].to
                },
                Err(e) => !self@.contains(v) && e == StoreError::Absent(v),
            },
    {
        match self.vertices.get(&v) {
            Some(vtx) => {
                let mut kids: Vec<(String, u32)> = Vec::new();
                let mut i: usize = 0;
                while i < vtx.edges.len()
                    invariant
                        i <= vtx.edges.len(),
                        kids@.len() == i,
                        forall|j: int|
                            0 <= j < i ==> (#[trigger] kids@[j]).0@ == vtx@.edges[j].label
                                && kids@[j].1 == vtx@.edges[j].to,
                    decreases vtx.edges.len() - i,
                {
                    kids.push((vtx.edges[i].label.clone(), vtx.edges[i].to));
                    i += 1;
                }
                Ok(kids)
            },
            None => Err(StoreError::Absent(v)),
        }
    }
}

} // verus!
