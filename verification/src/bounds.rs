//! How many vertices a merge adds, and which.

use vstd::prelude::*;
use crate::graph::{Graph, Link};
use crate::grows::{extends, lemma_merge_rec_grows, lemma_settle_grows};
use crate::merge::{lemma_pending_drops, merge_kids, merge_rec, merging, pending, settle, Merged};

verus! {

/// Every vertex that `b` has and `a` has not lies at or above the bound of
/// `a`.
pub open spec fn above(a: Graph, b: Graph) -> bool {
    forall|v: u32| #[trigger] b.nodes.contains_key(v) && !a.nodes.contains_key(v) ==> v >= a.next
}

/// What holds of the vertices of a merge however far it came: the new ones
/// lie at or above the bound that the destination had; and where the store
/// did not stop it, there are no more new ones than there are fewer vertices
/// pending than `before`.
pub open spec fn counted(dst: Graph, src: Graph, before: nat, m: Merged) -> bool {
    &&& above(dst, m.graph)
    &&& m.fault is None ==> m.graph.len() + pending(src, m.mapped) <= dst.len() + before
}

proof fn lemma_above_trans(a: Graph, b: Graph, c: Graph)
    requires
        extends(a, b),
        above(a, b),
        above(b, c),
    ensures
        above(a, c),
{
    assert forall|v: u32| #[trigger] c.nodes.contains_key(v) && !a.nodes.contains_key(v) implies v
        >= a.next by {
        if !b.nodes.contains_key(v) {
            assert(v >= b.next);
        }
    }
}

proof fn lemma_settle_counted(dst: Graph, src: Graph, left: u32, link: Link, mapped: Map<u32, u32>)
    requires
        dst.wf(),
        src.wf(),
        src.contains(link.to),
    ensures
        above(dst, settle(dst, left, link, mapped).graph),
        settle(dst, left, link, mapped).chosen is Ok ==> settle(dst, left, link, mapped).graph.len()
            + pending(src, mapped.insert(link.to, settle(dst, left, link, mapped).chosen->Ok_0))
            <= dst.len() + pending(src, mapped),
{
    let s = settle(dst, left, link, mapped);
    if mapped.contains_key(link.to) {
        let t = mapped[link.to];
        let name = dst.fresh(left, link.label);
        assert(mapped.insert(link.to, t).dom() =~= mapped.dom());
        if dst.bind(left, t, name) is Ok {
            dst.lemma_bind_wf(left, t, name);
        }
    } else {
        match dst.kid(left, link.label) {
            Some(t) => {
                lemma_pending_drops(src, mapped, t, link.to);
            },
            None => {
                if dst.next_id() is Ok {
                    let id = dst.next_id()->Ok_0;
                    if dst.add(id) is Ok {
                        let grown = dst.add(id)->Ok_0;
                        dst.lemma_add_wf(id);
                        lemma_pending_drops(src, mapped, id, link.to);
                        if grown.bind(left, id, link.label) is Ok {
                            grown.lemma_bind_wf(left, id, link.label);
                        }
                    }
                }
            },
        }
    }
}

/// Merging a vertex adds vertices at or above the destination's bound only,
/// and no more of them than it visits vertices beyond the one it starts at.
pub proof fn lemma_merge_rec_counted(
    dst: Graph,
    src: Graph,
    left: u32,
    right: u32,
    mapped: Map<u32, u32>,
)
    requires
        dst.wf(),
        src.wf(),
    ensures
        counted(
            dst,
            src,
            pending(src, mapped.insert(right, left)),
            merge_rec(dst, src, left, right, mapped),
        ),
    decreases pending(src, mapped), 0int,
{
    if mapped.contains_key(right) {
        assert(mapped.insert(right, left).dom() =~= mapped.dom());
    } else if src.contains(right) {
        lemma_pending_drops(src, mapped, left, right);
        let seen = mapped.insert(right, left);
        let put = match src.nodes[right].data {
            Some(d) => dst.put(left, d),
            None => Ok(dst),
        };
        if put is Ok {
            let g = put->Ok_0;
            if src.nodes[right].data is Some {
                dst.lemma_put_wf(left, src.nodes[right].data->Some_0);
            }
            assert(g.nodes.dom() == dst.nodes.dom());
            assert(g.next == dst.next);
            lemma_merge_kids_counted(g, src, left, right, 0, seen);
            let n = merge_kids(g, src, left, right, 0, seen);
            assert forall|v: u32| #[trigger]
                n.graph.nodes.contains_key(v) && !dst.nodes.contains_key(v) implies v
                >= dst.next by {
                assert(!g.nodes.dom().contains(v));
            }
        }
    }
}

/// Following the edges of a vertex adds vertices at or above the
/// destination's bound only, and no more of them than it visits vertices.
pub proof fn lemma_merge_kids_counted(
    dst: Graph,
    src: Graph,
    left: u32,
    right: u32,
    i: nat,
    mapped: Map<u32, u32>,
)
    requires
        dst.wf(),
        src.wf(),
        src.contains(right),
    ensures
        counted(dst, src, pending(src, mapped), merge_kids(dst, src, left, right, i, mapped)),
    decreases pending(src, mapped), 1 + src.edges(right).len() - i,
{
    if i < src.edges(right).len() {
        let link = src.edges(right)[i as int];
        assert(src.nodes.contains_key(right));
        assert(src.nodes.contains_key(src.nodes[right].edges[i as int].to));
        let s = settle(dst, left, link, mapped);
        lemma_settle_grows(dst, left, link, mapped);
        lemma_settle_counted(dst, src, left, link, mapped);
        match s.chosen {
            Err(e) => {},
            Ok(t) => {
                let m = merge_rec(s.graph, src, t, link.to, mapped);
                lemma_merge_rec_grows(s.graph, src, t, link.to, mapped);
                lemma_merge_rec_counted(s.graph, src, t, link.to, mapped);
                lemma_above_trans(dst, s.graph, m.graph);
                if m.fault is None {
                    let n = merge_kids(m.graph, src, left, right, i + 1, m.mapped);
                    lemma_merge_kids_counted(m.graph, src, left, right, i + 1, m.mapped);
                    crate::grows::lemma_extends_trans(dst, s.graph, m.graph);
                    lemma_above_trans(dst, m.graph, n.graph);
                }
            },
        }
    }
}

/// The vertices that a merge adds lie at or above the bound that the
/// destination had. A merge that the store did not stop has added fewer of
/// them than the source has vertices: one for each vertex it visited beyond
/// the one it started at, at most.
pub proof fn lemma_merge_counts(dst: Graph, src: Graph, left: u32, right: u32)
    requires
        dst.wf(),
        src.wf(),
    ensures
        above(dst, merging(dst, src, left, right).graph),
        merging(dst, src, left, right).fault is None ==> merging(dst, src, left, right).graph.len()
            + pending(src, merging(dst, src, left, right).mapped) + 1 <= dst.len() + src.len(),
{
    let none = Map::<u32, u32>::empty();
    lemma_merge_rec_counted(dst, src, left, right, none);
    if src.contains(right) {
        lemma_pending_drops(src, none, left, right);
        assert(src.nodes.dom().difference(none.dom()) =~= src.nodes.dom());
    }
}

} // verus!
