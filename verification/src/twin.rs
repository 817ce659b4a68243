//! Merging a copy of a graph into the graph adds no vertex.

use vstd::prelude::*;
use crate::error::StoreError;
use crate::graph::Graph;
use crate::grows::{keeps, lemma_merge_rec_grows, lemma_settle_grows};
use crate::merge::{merge_kids, merge_rec, merging, pending, settle, Merged};

verus! {

/// `dst` has the vertices of `src` and no other, each with the edges it has
/// in `src` before any other.
pub open spec fn covers(dst: Graph, src: Graph) -> bool {
    &&& dst.nodes.dom() == src.nodes.dom()
    &&& forall|v: u32| #[trigger]
        src.nodes.contains_key(v) ==> keeps(src.nodes[v], dst.nodes[v])
}

/// Every vertex visited was laid on the vertex of the same identifier.
pub open spec fn in_place(mapped: Map<u32, u32>) -> bool {
    forall|k: u32| #[trigger] mapped.contains_key(k) ==> mapped[k] == k
}

/// A merge of a graph into one that covers it went through, and left it so.
pub open spec fn folded(src: Graph, m: Merged) -> bool {
    &&& m.fault is None
    &&& m.graph.wf()
    &&& covers(m.graph, src)
    &&& in_place(m.mapped)
}

proof fn lemma_settle_twin(dst: Graph, src: Graph, v: u32, i: int, mapped: Map<u32, u32>)
    requires
        dst.wf(),
        src.wf(),
        covers(dst, src),
        in_place(mapped),
        src.contains(v),
        0 <= i < src.edges(v).len(),
    ensures
        settle(dst, v, src.edges(v)[i], mapped).chosen == Ok::<u32, StoreError>(src.edges(v)[i].to),
        settle(dst, v, src.edges(v)[i], mapped).graph.wf(),
        covers(settle(dst, v, src.edges(v)[i], mapped).graph, src),
{
    let link = src.edges(v)[i];
    assert(src.nodes.contains_key(v));
    assert(link == src.nodes[v].edges[i]);
    assert(src.nodes.contains_key(link.to));
    assert(dst.nodes.dom().contains(v));
    assert(dst.nodes.dom().contains(link.to));
    assert(keeps(src.nodes[v], dst.nodes[v]));
    lemma_settle_grows(dst, v, link, mapped);
    if mapped.contains_key(link.to) {
        let name = dst.fresh(v, link.label);
        dst.nodes[v].lemma_fresh_is_free(link.label);
        assert(dst.bind(v, link.to, name) is Ok);
        let g = dst.bind(v, link.to, name)->Ok_0;
        dst.lemma_bind_wf(v, link.to, name);
        assert forall|w: u32| #[trigger] src.nodes.contains_key(w) implies keeps(
            src.nodes[w],
            g.nodes[w],
        ) by {
            assert(keeps(src.nodes[w], dst.nodes[w]));
        }
    } else {
        assert(dst.nodes[v].edges[i] == link);
        dst.nodes[v].lemma_find(i);
    }
}

/// Merging a vertex of a graph into the same vertex of a graph that covers it
/// adds no vertex.
pub proof fn lemma_merge_rec_twin(dst: Graph, src: Graph, v: u32, mapped: Map<u32, u32>)
    requires
        dst.wf(),
        src.wf(),
        covers(dst, src),
        in_place(mapped),
        src.contains(v),
    ensures
        folded(src, merge_rec(dst, src, v, v, mapped)),
    decreases pending(src, mapped), 0int,
{
    if !mapped.contains_key(v) {
        crate::merge::lemma_pending_drops(src, mapped, v, v);
        let seen = mapped.insert(v, v);
        assert(dst.nodes.dom().contains(v));
        match src.nodes[v].data {
            Some(d) => {
                let g = dst.put(v, d)->Ok_0;
                dst.lemma_put_wf(v, d);
                assert forall|w: u32| #[trigger] src.nodes.contains_key(w) implies keeps(
                    src.nodes[w],
                    g.nodes[w],
                ) by {
                    assert(keeps(src.nodes[w], dst.nodes[w]));
                }
                lemma_merge_kids_twin(g, src, v, 0, seen);
            },
            None => {
                lemma_merge_kids_twin(dst, src, v, 0, seen);
            },
        }
    }
}

/// Following the edges of a vertex of a graph into the same vertex of a graph
/// that covers it adds no vertex.
pub proof fn lemma_merge_kids_twin(dst: Graph, src: Graph, v: u32, i: nat, mapped: Map<u32, u32>)
    requires
        dst.wf(),
        src.wf(),
        covers(dst, src),
        in_place(mapped),
        src.contains(v),
    ensures
        folded(src, merge_kids(dst, src, v, v, i, mapped)),
    decreases pending(src, mapped), 1 + src.edges(v).len() - i,
{
    if i < src.edges(v).len() {
        let link = src.edges(v)[i as int];
        let s = settle(dst, v, link, mapped);
        lemma_settle_twin(dst, src, v, i as int, mapped);
        assert(src.nodes.contains_key(v));
        assert(src.nodes.contains_key(src.nodes[v].edges[i as int].to));
        let m = merge_rec(s.graph, src, link.to, link.to, mapped);
        lemma_merge_rec_twin(s.graph, src, link.to, mapped);
        lemma_merge_rec_grows(s.graph, src, link.to, link.to, mapped);
        lemma_merge_kids_twin(m.graph, src, v, i + 1, m.mapped);
    }
}

/// Merging a copy of a graph into the graph, at the same vertex of both,
/// leaves the graph with the vertices it had and no other: with as many, then.
/// It holds of every graph, a rooted tree or one with cycles, and no refusal of
/// the store ends such a merge where the graph has the vertex.
pub proof fn lemma_merge_twin(g: Graph, copy: Graph, root: u32)
    requires
        g.wf(),
        copy == g,
    ensures
        merging(g, copy, root, root).graph.nodes.dom() == g.nodes.dom(),
        merging(g, copy, root, root).graph.len() == g.len(),
        g.contains(root) ==> merging(g, copy, root, root).fault is None,
        !g.contains(root) ==> merging(g, copy, root, root).graph == g,
{
    if g.contains(root) {
        assert forall|v: u32| #[trigger] g.nodes.contains_key(v) implies keeps(
            g.nodes[v],
            g.nodes[v],
        ) by {}
        lemma_merge_rec_twin(g, copy, root, Map::empty());
    }
}

} // verus!
