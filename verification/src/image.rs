//! A merge copies every edge it follows.

use vstd::prelude::*;
use crate::graph::{slashed, Graph, Link};
use crate::grows::{
    extends, lemma_extends_trans, lemma_merge_kids_grows, lemma_merge_rec_grows,
    lemma_settle_grows, records,
};
use crate::merge::{lemma_pending_drops, merge_kids, merge_rec, merging, pending, settle};

verus! {

/// `g` has an edge from `from` to `to` under `label`, or under `label` with
/// slashes behind it.
pub open spec fn joined(g: Graph, from: u32, label: Seq<char>, to: u32) -> bool {
    exists|j: int, k: nat|
        #![trigger g.edges(from)[j], slashed(label, k)]
        0 <= j < g.edges(from).len() && g.edges(from)[j].to == to && g.edges(from)[j].label
            == slashed(label, k)
}

/// The edge `link` that leaves the vertex `r` of the source has its copy in
/// `g`: both ends were visited, and the vertex that `r` was laid on has an
/// edge to the vertex that the target was laid on, under the label of `link`
/// or under that label with slashes behind it.
pub open spec fn copied(g: Graph, mapped: Map<u32, u32>, r: u32, link: Link) -> bool {
    &&& mapped.contains_key(r)
    &&& mapped.contains_key(link.to)
    &&& joined(g, mapped[r], link.label, mapped[link.to])
}

/// Every edge of the vertices visited since `mapped` has its copy in `g`.
pub open spec fn mirrored(src: Graph, g: Graph, mapped: Map<u32, u32>, after: Map<u32, u32>) -> bool {
    forall|r: u32, i: int|
        after.contains_key(r) && !mapped.contains_key(r) && 0 <= i < src.edges(r).len() ==> copied(
            g,
            after,
            r,
            #[trigger] src.edges(r)[i],
        )
}

/// An edge stays where a graph only grows.
pub proof fn lemma_joined_stays(a: Graph, b: Graph, from: u32, label: Seq<char>, to: u32)
    requires
        extends(a, b),
        joined(a, from, label, to),
    ensures
        joined(b, from, label, to),
{
    let (j, k) = choose|j: int, k: nat|
        #![trigger a.edges(from)[j], slashed(label, k)]
        0 <= j < a.edges(from).len() && a.edges(from)[j].to == to && a.edges(from)[j].label
            == slashed(label, k);
    assert(a.nodes.contains_key(from));
    assert(b.nodes[from].edges[j] == a.nodes[from].edges[j]);
    assert(b.edges(from)[j].to == to && b.edges(from)[j].label == slashed(label, k));
}

/// A copy stays a copy where the graph only grows and the visits are kept.
pub proof fn lemma_copied_stays(
    a: Graph,
    b: Graph,
    before: Map<u32, u32>,
    after: Map<u32, u32>,
    r: u32,
    link: Link,
)
    requires
        extends(a, b),
        records(before, after),
        copied(a, before, r, link),
    ensures
        copied(b, after, r, link),
{
    assert(after.contains_key(r) && after[r] == before[r]);
    assert(after.contains_key(link.to) && after[link.to] == before[link.to]);
    lemma_joined_stays(a, b, before[r], link.label, before[link.to]);
}

/// The vertex that was chosen for the target of an edge has the edge's copy
/// leading to it.
pub proof fn lemma_settle_joins(dst: Graph, left: u32, link: Link, mapped: Map<u32, u32>)
    requires
        dst.wf(),
        settle(dst, left, link, mapped).chosen is Ok,
    ensures
        joined(
            settle(dst, left, link, mapped).graph,
            left,
            link.label,
            settle(dst, left, link, mapped).chosen->Ok_0,
        ),
        mapped.contains_key(link.to) ==> settle(dst, left, link, mapped).chosen->Ok_0
            == mapped[link.to],
{
    let s = settle(dst, left, link, mapped);
    let t = s.chosen->Ok_0;
    if mapped.contains_key(link.to) {
        let k = choose|k: nat| dst.node(left).first_free(link.label, k);
        let j = dst.edges(left).len() as int;
        assert(s.graph.edges(left)[j].to == t && s.graph.edges(left)[j].label == slashed(
            link.label,
            k,
        ));
    } else if dst.kid(left, link.label) is Some {
        let j = dst.node(left).find(link.label);
        assert(slashed(link.label, 0) =~= link.label);
        assert(s.graph.edges(left)[j].to == t && s.graph.edges(left)[j].label == slashed(
            link.label,
            0,
        ));
    } else {
        let id = dst.next_id()->Ok_0;
        let grown = dst.add(id)->Ok_0;
        let j = grown.edges(left).len() as int;
        assert(slashed(link.label, 0) =~= link.label);
        assert(s.graph.edges(left)[j].to == t && s.graph.edges(left)[j].label == slashed(
            link.label,
            0,
        ));
    }
}

/// A vertex that is visited for the first time is laid on the vertex that the
/// merge was given for it.
pub proof fn lemma_merge_rec_lays(dst: Graph, src: Graph, left: u32, right: u32, mapped: Map<u32, u32>)
    requires
        dst.wf(),
        src.wf(),
        merge_rec(dst, src, left, right, mapped).fault is None,
    ensures
        merge_rec(dst, src, left, right, mapped).mapped.contains_key(right),
        merge_rec(dst, src, left, right, mapped).mapped[right] == (if mapped.contains_key(right) {
            mapped[right]
        } else {
            left
        }),
{
    if !mapped.contains_key(right) {
        let seen = mapped.insert(right, left);
        let g = match src.nodes[right].data {
            Some(d) => dst.put(left, d)->Ok_0,
            None => dst,
        };
        if src.nodes[right].data is Some {
            dst.lemma_put_wf(left, src.nodes[right].data->Some_0);
        }
        lemma_merge_kids_grows(g, src, left, right, 0, seen);
        assert(seen.contains_key(right));
    }
}

/// A merge of a vertex that the store did not stop has copied every edge of
/// the vertices it visited.
pub proof fn lemma_merge_rec_mirrors(
    dst: Graph,
    src: Graph,
    left: u32,
    right: u32,
    mapped: Map<u32, u32>,
)
    requires
        dst.wf(),
        src.wf(),
    ensures
        merge_rec(dst, src, left, right, mapped).fault is None ==> mirrored(
            src,
            merge_rec(dst, src, left, right, mapped).graph,
            mapped,
            merge_rec(dst, src, left, right, mapped).mapped,
        ),
    decreases pending(src, mapped), 0int,
{
    let m = merge_rec(dst, src, left, right, mapped);
    if !mapped.contains_key(right) && src.contains(right) && m.fault is None {
        lemma_pending_drops(src, mapped, left, right);
        let seen = mapped.insert(right, left);
        let g = match src.nodes[right].data {
            Some(d) => dst.put(left, d)->Ok_0,
            None => dst,
        };
        if src.nodes[right].data is Some {
            dst.lemma_put_wf(left, src.nodes[right].data->Some_0);
        }
        assert(m == merge_kids(g, src, left, right, 0, seen));
        lemma_merge_kids_mirrors(g, src, left, right, 0, seen);
        assert forall|r: u32, i: int|
            m.mapped.contains_key(r) && !mapped.contains_key(r) && 0 <= i < src.edges(
                r,
            ).len() implies copied(m.graph, m.mapped, r, #[trigger] src.edges(r)[i]) by {
            if r != right {
                assert(!seen.contains_key(r));
            }
        }
    }
}

/// Following the edges of a visited vertex from the `i`-th on, where the
/// store did not stop it, has copied those edges and every edge of the
/// vertices it visited.
pub proof fn lemma_merge_kids_mirrors(
    dst: Graph,
    src: Graph,
    left: u32,
    right: u32,
    i: nat,
    mapped: Map<u32, u32>,
)
    requires
        dst.wf(),
        src.wf(),
        mapped.contains_key(right),
        mapped[right] == left,
    ensures
        merge_kids(dst, src, left, right, i, mapped).fault is None ==> {
            &&& mirrored(
                src,
                merge_kids(dst, src, left, right, i, mapped).graph,
                mapped,
                merge_kids(dst, src, left, right, i, mapped).mapped,
            )
            &&& forall|j: int|
                i <= j < src.edges(right).len() ==> copied(
                    merge_kids(dst, src, left, right, i, mapped).graph,
                    merge_kids(dst, src, left, right, i, mapped).mapped,
                    right,
                    #[trigger] src.edges(right)[j],
                )
        },
    decreases pending(src, mapped), 1 + src.edges(right).len() - i,
{
    let n = merge_kids(dst, src, left, right, i, mapped);
    if i < src.edges(right).len() && n.fault is None {
        let link = src.edges(right)[i as int];
        let s = settle(dst, left, link, mapped);
        lemma_settle_grows(dst, left, link, mapped);
        lemma_settle_joins(dst, left, link, mapped);
        let t = s.chosen->Ok_0;
        let m = merge_rec(s.graph, src, t, link.to, mapped);
        lemma_merge_rec_grows(s.graph, src, t, link.to, mapped);
        lemma_merge_rec_lays(s.graph, src, t, link.to, mapped);
        lemma_merge_rec_mirrors(s.graph, src, t, link.to, mapped);
        assert(n == merge_kids(m.graph, src, left, right, i + 1, m.mapped));
        lemma_merge_kids_grows(m.graph, src, left, right, i + 1, m.mapped);
        lemma_merge_kids_mirrors(m.graph, src, left, right, i + 1, m.mapped);
        lemma_extends_trans(s.graph, m.graph, n.graph);
        assert(m.mapped.contains_key(right) && m.mapped[right] == left);
        assert(n.mapped.contains_key(right) && n.mapped[right] == left);
        assert(n.mapped.contains_key(link.to) && n.mapped[link.to] == t) by {
            assert(m.mapped.contains_key(link.to) && m.mapped[link.to] == t);
        }
        lemma_joined_stays(s.graph, n.graph, left, link.label, t);
        assert(copied(n.graph, n.mapped, right, link));
        assert forall|r: u32, k: int|
            n.mapped.contains_key(r) && !mapped.contains_key(r) && 0 <= k < src.edges(
                r,
            ).len() implies copied(n.graph, n.mapped, r, #[trigger] src.edges(r)[k]) by {
            if m.mapped.contains_key(r) {
                assert(copied(m.graph, m.mapped, r, src.edges(r)[k]));
                lemma_copied_stays(m.graph, n.graph, m.mapped, n.mapped, r, src.edges(r)[k]);
            }
        }
    }
}

/// A merge that the store did not stop has copied every edge of every vertex
/// it visited: the vertex that the edge's origin was laid on has an edge to
/// the vertex that its target was laid on, under the same label, or under
/// that label with slashes behind it where the target was visited before.
pub proof fn lemma_merge_copies(dst: Graph, src: Graph, left: u32, right: u32, r: u32, i: int)
    requires
        dst.wf(),
        src.wf(),
        merging(dst, src, left, right).fault is None,
        merging(dst, src, left, right).mapped.contains_key(r),
        0 <= i < src.edges(r).len(),
    ensures
        copied(
            merging(dst, src, left, right).graph,
            merging(dst, src, left, right).mapped,
            r,
            src.edges(r)[i],
        ),
{
    let none = Map::<u32, u32>::empty();
    lemma_merge_rec_mirrors(dst, src, left, right, none);
    assert(!none.contains_key(r));
}

} // verus!
