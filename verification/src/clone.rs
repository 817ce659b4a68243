//! Copies of a graph.

use vstd::prelude::*;
use crate::graph::Graph;
use crate::store::Sodg;

verus! {

impl Clone for Sodg {
    /// A graph of its own with the same vertices, edges, payloads and bound on
    /// the identifiers.
    fn clone(&self) -> (c: Self)
        ensures
            c@ == self@,
    {
        self.copy()
    }
}

/// A copy and the graph it was made from are two values: a vertex added to
/// the one is a vertex of it alone, and the other keeps the vertices it had.
pub proof fn lemma_clone_independent(g: Graph, c: Graph, v: u32)
    requires
        g.wf(),
        c == g,
        !g.contains(v),
    ensures
        c.add(v) is Ok,
        c.add(v)->Ok_0.len() == g.len() + 1,
        c.add(v)->Ok_0.contains(v) && !g.contains(v),
        g.add(v) is Ok,
        g.add(v)->Ok_0.len() == c.len() + 1,
{
    c.lemma_add_wf(v);
}

} // verus!
