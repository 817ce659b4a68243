//! A merge deletes nothing.

use vstd::prelude::*;
use vstd::set_lib::lemma_len_subset;
use crate::graph::{Graph, Link, Node};
use crate::merge::{merge_kids, merge_rec, merging, pending, settle, Merged};

verus! {

/// `b` has the edges of `a` as its first edges, in the same order.
pub open spec fn keeps(a: Node, b: Node) -> bool {
    &&& a.edges.len() <= b.edges.len()
    &&& forall|i: int| 0 <= i < a.edges.len() ==> #[trigger] b.edges[i] == a.edges[i]
}

/// `b` has every vertex of `a`, each with the edges it has in `a` before any
/// other, and a bound on the identifiers that is no lower.
pub open spec fn extends(a: Graph, b: Graph) -> bool {
    &&& a.next <= b.next
    &&& forall|v: u32| #[trigger]
        a.nodes.contains_key(v) ==> b.nodes.contains_key(v) && keeps(a.nodes[v], b.nodes[v])
}

/// `b` records every visit that `a` records.
pub open spec fn records(a: Map<u32, u32>, b: Map<u32, u32>) -> bool {
    forall|k: u32| #[trigger] a.contains_key(k) ==> b.contains_key(k) && b[k] == a[k]
}

pub proof fn lemma_extends_trans(a: Graph, b: Graph, c: Graph)
    requires
        extends(a, b),
        extends(b, c),
    ensures
        extends(a, c),
{
    assert forall|v: u32| #[trigger] a.nodes.contains_key(v) implies c.nodes.contains_key(v)
        && keeps(a.nodes[v], c.nodes[v]) by {
        assert(b.nodes.contains_key(v));
        assert forall|i: int| 0 <= i < a.nodes[v].edges.len() implies #[trigger] c.nodes[v].edges[i]
            == a.nodes[v].edges[i] by {
            assert(b.nodes[v].edges[i] == a.nodes[v].edges[i]);
        }
    }
}

/// An edge added to a vertex leaves the graph with all it had.
pub proof fn lemma_bind_extends(g: Graph, v1: u32, v2: u32, label: Seq<char>)
    requires
        g.wf(),
        g.bind(v1, v2, label) is Ok,
    ensures
        g.bind(v1, v2, label)->Ok_0.wf(),
        extends(g, g.bind(v1, v2, label)->Ok_0),
{
    g.lemma_bind_wf(v1, v2, label);
}

/// Settling an edge leaves the destination well formed, with all it had.
pub proof fn lemma_settle_grows(dst: Graph, left: u32, link: Link, mapped: Map<u32, u32>)
    requires
        dst.wf(),
    ensures
        settle(dst, left, link, mapped).graph.wf(),
        extends(dst, settle(dst, left, link, mapped).graph),
{
    if mapped.contains_key(link.to) {
        let name = dst.fresh(left, link.label);
        if dst.bind(left, mapped[link.to], name) is Ok {
            lemma_bind_extends(dst, left, mapped[link.to], name);
        }
    } else if dst.kid(left, link.label) is None && dst.next_id() is Ok {
        let id = dst.next_id()->Ok_0;
        if dst.add(id) is Ok {
            let grown = dst.add(id)->Ok_0;
            dst.lemma_add_wf(id);
            assert(extends(dst, grown));
            if grown.bind(left, id, link.label) is Ok {
                lemma_bind_extends(grown, left, id, link.label);
                lemma_extends_trans(dst, grown, grown.bind(left, id, link.label)->Ok_0);
            }
        }
    }
}

/// A payload put on a vertex leaves the graph with all its vertices and edges.
pub proof fn lemma_put_extends(g: Graph, v: u32, data: Seq<u8>)
    requires
        g.wf(),
        g.put(v, data) is Ok,
    ensures
        g.put(v, data)->Ok_0.wf(),
        extends(g, g.put(v, data)->Ok_0),
{
    g.lemma_put_wf(v, data);
}

/// What holds of a merge however far it came: the destination is well formed
/// and has all the vertices and edges it had, every visit recorded before is
/// still recorded, and no more vertices are pending than before.
pub open spec fn grown(dst: Graph, src: Graph, mapped: Map<u32, u32>, m: Merged) -> bool {
    &&& m.graph.wf()
    &&& extends(dst, m.graph)
    &&& records(mapped, m.mapped)
    &&& pending(src, m.mapped) <= pending(src, mapped)
}

/// Merging a vertex only adds to the destination and to the visits.
pub proof fn lemma_merge_rec_grows(
    dst: Graph,
    src: Graph,
    left: u32,
    right: u32,
    mapped: Map<u32, u32>,
)
    requires
        dst.wf(),
        src.wf(),
    ensures
        grown(dst, src, mapped, merge_rec(dst, src, left, right, mapped)),
    decreases pending(src, mapped), 0int,
{
    if mapped.contains_key(right) {
    } else if !src.contains(right) {
        crate::merge::lemma_pending_same(src, mapped, left, right);
    } else {
        crate::merge::lemma_pending_drops(src, mapped, left, right);
        let seen = mapped.insert(right, left);
        let put = match src.nodes[right].data {
            Some(d) => dst.put(left, d),
            None => Ok(dst),
        };
        match put {
            Ok(g) => {
                if src.nodes[right].data is Some {
                    lemma_put_extends(dst, left, src.nodes[right].data->Some_0);
                }
                let n = merge_kids(g, src, left, right, 0, seen);
                lemma_merge_kids_grows(g, src, left, right, 0, seen);
                lemma_extends_trans(dst, g, n.graph);
                assert forall|k: u32| #[trigger] mapped.contains_key(k) implies n.mapped.contains_key(
                    k,
                ) && n.mapped[k] == mapped[k] by {
                    assert(seen.contains_key(k));
                }
            },
            Err(e) => {},
        }
    }
}

/// Following the edges of a vertex only adds to the destination and to the
/// visits.
pub proof fn lemma_merge_kids_grows(
    dst: Graph,
    src: Graph,
    left: u32,
    right: u32,
    i: nat,
    mapped: Map<u32, u32>,
)
    requires
        dst.wf(),
        src.wf(),
    ensures
        grown(dst, src, mapped, merge_kids(dst, src, left, right, i, mapped)),
    decreases pending(src, mapped), 1 + src.edges(right).len() - i,
{
    if i < src.edges(right).len() {
        let link = src.edges(right)[i as int];
        let s = settle(dst, left, link, mapped);
        lemma_settle_grows(dst, left, link, mapped);
        match s.chosen {
            Err(e) => {},
            Ok(t) => {
                let m = merge_rec(s.graph, src, t, link.to, mapped);
                lemma_merge_rec_grows(s.graph, src, t, link.to, mapped);
                lemma_extends_trans(dst, s.graph, m.graph);
                if m.fault is None {
                    let n = merge_kids(m.graph, src, left, right, i + 1, m.mapped);
                    lemma_merge_kids_grows(m.graph, src, left, right, i + 1, m.mapped);
                    lemma_extends_trans(dst, m.graph, n.graph);
                    assert forall|k: u32| #[trigger] mapped.contains_key(k) implies n.mapped.contains_key(
                        k,
                    ) && n.mapped[k] == mapped[k] by {
                        assert(m.mapped.contains_key(k));
                    }
                }
            },
        }
    }
}

/// An edge of a graph leads where it led in every well-formed graph that has
/// all the graph had.
pub proof fn lemma_extends_kid(a: Graph, b: Graph, v: u32, label: Seq<char>)
    requires
        b.wf(),
        extends(a, b),
        a.kid(v, label) is Some,
    ensures
        b.kid(v, label) == a.kid(v, label),
{
    assert(a.nodes.contains_key(v));
    let i = a.nodes[v].find(label);
    assert(b.nodes[v].edges[i] == a.nodes[v].edges[i]);
    b.nodes[v].lemma_find(i);
}

/// A merge deletes nothing: whether it completes or not, the destination is
/// well formed afterwards and has every vertex it had, each with the edges it
/// had before any new one. So an edge that the destination had leads where it
/// led.
pub proof fn lemma_merge_grows(dst: Graph, src: Graph, left: u32, right: u32)
    requires
        dst.wf(),
        src.wf(),
    ensures
        merging(dst, src, left, right).graph.wf(),
        extends(dst, merging(dst, src, left, right).graph),
        dst.len() <= merging(dst, src, left, right).graph.len(),
        forall|v: u32, label: Seq<char>|
            (#[trigger] dst.kid(v, label)) is Some ==> merging(dst, src, left, right).graph.kid(
                v,
                label,
            ) == dst.kid(v, label),
{
    lemma_merge_rec_grows(dst, src, left, right, Map::empty());
    let g = merging(dst, src, left, right).graph;
    assert forall|v: u32, label: Seq<char>| (#[trigger] dst.kid(v, label)) is Some implies g.kid(
        v,
        label,
    ) == dst.kid(v, label) by {
        lemma_extends_kid(dst, g, v, label);
    }
    assert forall|v: u32| dst.nodes.dom().contains(v) implies g.nodes.dom().contains(v) by {
        assert(dst.nodes.contains_key(v));
    }
    lemma_len_subset(dst.nodes.dom(), g.nodes.dom());
}

} // verus!
