//! Merging a copy of a rooted tree into the tree changes nothing.

use vstd::prelude::*;
use crate::graph::Graph;
use crate::grows::{lemma_merge_rec_grows, records};
use crate::merge::{lemma_pending_drops, merge_kids, merge_rec, merging, pending, settle, verdict};
use crate::reach::lemma_merge_covers;
use crate::twin::in_place;

verus! {

/// No vertex of `g` has two edges leading to it.
pub open spec fn single_entry(g: Graph) -> bool {
    forall|u: u32, i: int, w: u32, j: int|
        #![trigger g.nodes[u].edges[i], g.nodes[w].edges[j]]
        g.nodes.contains_key(u) && 0 <= i < g.nodes[u].edges.len() && g.nodes.contains_key(w) && 0
            <= j < g.nodes[w].edges.len() && g.nodes[u].edges[i].to == g.nodes[w].edges[j].to ==> u
            == w && i == j
}

/// Every edge of `g` that leads to `v` comes from a vertex that was visited.
pub open spec fn entered_from_visited(g: Graph, v: u32, mapped: Map<u32, u32>) -> bool {
    forall|u: u32, k: int|
        #![trigger g.nodes[u].edges[k]]
        g.nodes.contains_key(u) && 0 <= k < g.nodes[u].edges.len() && g.nodes[u].edges[k].to == v
            ==> mapped.contains_key(u)
}

/// No edge of `g` leads from a vertex that was not visited to one that was.
pub open spec fn untouched(g: Graph, mapped: Map<u32, u32>) -> bool {
    forall|u: u32, k: int|
        #![trigger g.nodes[u].edges[k]]
        g.nodes.contains_key(u) && !mapped.contains_key(u) && 0 <= k < g.nodes[u].edges.len()
            ==> !mapped.contains_key(g.nodes[u].edges[k].to)
}

/// The edges of `v` from the `i`-th on lead to vertices that were not visited.
pub open spec fn ahead(g: Graph, v: u32, i: int, mapped: Map<u32, u32>) -> bool {
    forall|j: int|
        i <= j < g.nodes[v].edges.len() ==> !mapped.contains_key((#[trigger] g.nodes[v].edges[j]).to)
}

/// An edge to a vertex visited since `mapped` comes from a vertex that is
/// visited now; where it comes from one that was visited before, it comes
/// from `v` and is one of its edges from the `lo`-th to the `hi`-th.
pub open spec fn entered(
    g: Graph,
    mapped: Map<u32, u32>,
    after: Map<u32, u32>,
    v: u32,
    lo: int,
    hi: int,
) -> bool {
    forall|u: u32, k: int|
        #![trigger g.nodes[u].edges[k]]
        g.nodes.contains_key(u) && 0 <= k < g.nodes[u].edges.len() && after.contains_key(
            g.nodes[u].edges[k].to,
        ) && !mapped.contains_key(g.nodes[u].edges[k].to) ==> after.contains_key(u) && (
        mapped.contains_key(u) ==> u == v && lo <= k <= hi)
}

/// A rooted tree: the graph has the root, no edge leads to it, no vertex has
/// two edges leading to it, and the root reaches every vertex.
pub open spec fn is_tree(g: Graph, root: u32) -> bool {
    &&& g.contains(root)
    &&& single_entry(g)
    &&& entered_from_visited(g, root, Map::empty())
    &&& g.reach(root) == g.nodes.dom()
}

proof fn lemma_merge_rec_tree(g: Graph, v: u32, mapped: Map<u32, u32>, parent: u32, slot: int)
    requires
        g.wf(),
        single_entry(g),
        g.contains(v),
        !mapped.contains_key(v),
        in_place(mapped),
        untouched(g, mapped),
        entered_from_visited(g, v, mapped),
        forall|u: u32, k: int|
            #![trigger g.nodes[u].edges[k]]
            g.nodes.contains_key(u) && 0 <= k < g.nodes[u].edges.len() && g.nodes[u].edges[k].to
                == v ==> u == parent && k == slot,
    ensures
        ({
            let m = merge_rec(g, g, v, v, mapped);
            &&& m.fault is None
            &&& m.graph == g
            &&& in_place(m.mapped)
            &&& records(mapped, m.mapped)
            &&& untouched(g, m.mapped)
            &&& entered(g, mapped, m.mapped, parent, slot, slot)
        }),
    decreases pending(g, mapped), 0int,
{
    lemma_pending_drops(g, mapped, v, v);
    let seen = mapped.insert(v, v);
    assert(g.nodes.contains_key(v));
    let after_put = match g.nodes[v].data {
        Some(d) => g.put(v, d)->Ok_0,
        None => g,
    };
    assert(after_put.nodes =~= g.nodes);
    assert(after_put == g);
    assert forall|u: u32, k: int|
        #![trigger g.nodes[u].edges[k]]
        g.nodes.contains_key(u) && !seen.contains_key(u) && 0 <= k < g.nodes[u].edges.len() implies !seen.contains_key(
        g.nodes[u].edges[k].to,
    ) by {
        assert(!mapped.contains_key(u));
    }
    assert forall|j: int| 0 <= j < g.nodes[v].edges.len() implies !seen.contains_key(
        (#[trigger] g.nodes[v].edges[j]).to,
    ) by {}
    lemma_merge_kids_tree(g, v, 0, seen);
    let m = merge_kids(g, g, v, v, 0, seen);
    assert(m == merge_rec(g, g, v, v, mapped));
    assert forall|k: u32| #[trigger] mapped.contains_key(k) implies m.mapped.contains_key(k)
        && m.mapped[k] == mapped[k] by {
        assert(seen.contains_key(k));
    }
    assert forall|u: u32, k: int|
        #![trigger g.nodes[u].edges[k]]
        g.nodes.contains_key(u) && 0 <= k < g.nodes[u].edges.len() && m.mapped.contains_key(
            g.nodes[u].edges[k].to,
        ) && !mapped.contains_key(g.nodes[u].edges[k].to) implies m.mapped.contains_key(u) && (
    mapped.contains_key(u) ==> u == parent && slot <= k <= slot) by {
        let t = g.nodes[u].edges[k].to;
        if t == v {
            assert(mapped.contains_key(u));
            assert(seen.contains_key(u));
        } else {
            assert(!seen.contains_key(t));
            if mapped.contains_key(u) {
                assert(seen.contains_key(u));
            }
        }
    }
}

proof fn lemma_merge_kids_tree(g: Graph, v: u32, i: nat, mapped: Map<u32, u32>)
    requires
        g.wf(),
        single_entry(g),
        g.contains(v),
        mapped.contains_key(v),
        in_place(mapped),
        untouched(g, mapped),
        ahead(g, v, i as int, mapped),
    ensures
        ({
            let n = merge_kids(g, g, v, v, i, mapped);
            &&& n.fault is None
            &&& n.graph == g
            &&& in_place(n.mapped)
            &&& records(mapped, n.mapped)
            &&& untouched(g, n.mapped)
            &&& entered(g, mapped, n.mapped, v, i as int, g.nodes[v].edges.len() as int)
        }),
    decreases pending(g, mapped), 1 + g.edges(v).len() - i,
{
    assert(g.nodes.contains_key(v));
    if i < g.edges(v).len() {
        let link = g.nodes[v].edges[i as int];
        let to = link.to;
        assert(g.nodes.contains_key(to));
        assert(!mapped.contains_key(to));
        g.nodes[v].lemma_find(i as int);
        let s = settle(g, v, link, mapped);
        assert(s.graph == g);
        assert(s.chosen == Ok::<u32, crate::error::StoreError>(to));
        assert forall|u: u32, k: int|
            #![trigger g.nodes[u].edges[k]]
            g.nodes.contains_key(u) && 0 <= k < g.nodes[u].edges.len() && g.nodes[u].edges[k].to
                == to implies u == v && k == i by {
            assert(g.nodes[u].edges[k].to == g.nodes[v].edges[i as int].to);
        }
        lemma_merge_rec_tree(g, to, mapped, v, i as int);
        lemma_merge_rec_grows(g, g, to, to, mapped);
        let m = merge_rec(g, g, to, to, mapped);
        assert(m.mapped.contains_key(v));
        assert forall|j: int| i + 1 <= j < g.nodes[v].edges.len() implies !m.mapped.contains_key(
            (#[trigger] g.nodes[v].edges[j]).to,
        ) by {
            let w = g.nodes[v].edges[j].to;
            assert(!mapped.contains_key(w));
            if m.mapped.contains_key(w) {
                assert(j == i);
            }
        }
        lemma_merge_kids_tree(g, v, i + 1, m.mapped);
        let n = merge_kids(g, g, v, v, i + 1, m.mapped);
        assert(n == merge_kids(g, g, v, v, i, mapped));
        assert forall|k: u32| #[trigger] mapped.contains_key(k) implies n.mapped.contains_key(k)
            && n.mapped[k] == mapped[k] by {
            assert(m.mapped.contains_key(k));
        }
        assert forall|u: u32, k: int|
            #![trigger g.nodes[u].edges[k]]
            g.nodes.contains_key(u) && 0 <= k < g.nodes[u].edges.len() && n.mapped.contains_key(
                g.nodes[u].edges[k].to,
            ) && !mapped.contains_key(g.nodes[u].edges[k].to) implies n.mapped.contains_key(u) && (
        mapped.contains_key(u) ==> u == v && i <= k <= g.nodes[v].edges.len()) by {
            let t = g.nodes[u].edges[k].to;
            if m.mapped.contains_key(t) {
                assert(m.mapped.contains_key(u));
            } else {
                if mapped.contains_key(u) {
                    assert(m.mapped.contains_key(u));
                }
            }
        }
    }
}

/// Merging a copy of a rooted tree into the tree, root on root, goes through
/// and leaves the tree as it was: the same vertices, edges and payloads.
pub proof fn lemma_merge_tree(g: Graph, copy: Graph, root: u32)
    requires
        g.wf(),
        copy == g,
        is_tree(g, root),
    ensures
        merging(g, copy, root, root).graph == g,
        merging(g, copy, root, root).graph.len() == g.len(),
        verdict(merging(g, copy, root, root), copy) is Ok,
{
    let none = Map::<u32, u32>::empty();
    assert forall|u: u32, k: int|
        #![trigger g.nodes[u].edges[k]]
        g.nodes.contains_key(u) && 0 <= k < g.nodes[u].edges.len() && g.nodes[u].edges[k].to
            == root implies u == root && k == 0 by {
        assert(none.contains_key(u));
    }
    lemma_merge_rec_tree(g, root, none, root, 0);
    lemma_merge_covers(g, copy, root, root);
}

} // verus!
