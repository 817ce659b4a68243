//! When a merge goes through, and what can stop it.

use vstd::prelude::*;
use crate::error::StoreError;
use crate::graph::{Graph, Link};
use crate::grows::{extends, lemma_merge_rec_grows, lemma_settle_grows};
use crate::merge::{
    lemma_pending_drops, merge_kids, merge_rec, merging, pending, settle, Merged,
};

verus! {

/// The number of identifiers: no graph has a bound above it.
pub open spec fn id_space() -> nat {
    0x1_0000_0000
}

/// Every vertex that a visit was laid on is a vertex of `dst`.
pub open spec fn placed(dst: Graph, mapped: Map<u32, u32>) -> bool {
    forall|k: u32| #[trigger] mapped.contains_key(k) ==> dst.contains(mapped[k])
}

/// What holds of a merge from vertices that both graphs have: only a lack of
/// identifiers stops it; where none does, every visit is laid on a vertex of
/// the destination, and the destination's bound has risen by no more than
/// there are fewer vertices pending than `before`; and where the identifiers
/// suffice for `before` vertices, nothing stops it.
pub open spec fn bounded(dst: Graph, src: Graph, before: nat, m: Merged) -> bool {
    &&& m.fault is None || m.fault == Some(StoreError::Exhausted)
    &&& m.fault is None ==> placed(m.graph, m.mapped) && m.graph.next + pending(src, m.mapped)
        <= dst.next + before
    &&& dst.next + before <= id_space() ==> m.fault is None
}

proof fn lemma_pending_insert(src: Graph, mapped: Map<u32, u32>, k: u32, v: u32)
    requires
        src.nodes.dom().finite(),
    ensures
        mapped.contains_key(k) ==> pending(src, mapped.insert(k, v)) == pending(src, mapped),
        !mapped.contains_key(k) && src.contains(k) ==> pending(src, mapped.insert(k, v)) + 1
            == pending(src, mapped),
{
    if mapped.contains_key(k) {
        assert(mapped.insert(k, v).dom() =~= mapped.dom());
    } else if src.contains(k) {
        lemma_pending_drops(src, mapped, v, k);
    }
}

proof fn lemma_placed_extends(a: Graph, b: Graph, mapped: Map<u32, u32>)
    requires
        placed(a, mapped),
        extends(a, b),
    ensures
        placed(b, mapped),
{
    assert forall|k: u32| #[trigger] mapped.contains_key(k) implies b.contains(mapped[k]) by {
        assert(a.nodes.contains_key(mapped[k]));
    }
}

proof fn lemma_settle_bounded(dst: Graph, src: Graph, left: u32, link: Link, mapped: Map<u32, u32>)
    requires
        dst.wf(),
        src.wf(),
        dst.contains(left),
        src.contains(link.to),
        placed(dst, mapped),
    ensures
        ({
            let s = settle(dst, left, link, mapped);
            &&& s.chosen is Ok || s.chosen == Err::<u32, StoreError>(StoreError::Exhausted)
            &&& s.chosen is Ok ==> {
                &&& s.graph.contains(s.chosen->Ok_0)
                &&& s.graph.contains(left)
                &&& s.graph.next + pending(src, mapped.insert(link.to, s.chosen->Ok_0)) <= dst.next
                    + pending(src, mapped)
            }
            &&& dst.next + pending(src, mapped) <= id_space() ==> s.chosen is Ok
        }),
{
    lemma_settle_grows(dst, left, link, mapped);
    assert(dst.nodes.contains_key(left));
    if mapped.contains_key(link.to) {
        let t = mapped[link.to];
        lemma_pending_insert(src, mapped, link.to, t);
        dst.nodes[left].lemma_fresh_is_free(link.label);
    } else {
        match dst.kid(left, link.label) {
            Some(t) => {
                lemma_pending_insert(src, mapped, link.to, t);
                let i = dst.nodes[left].find(link.label);
                assert(dst.nodes.contains_key(dst.nodes[left].edges[i].to));
            },
            None => {
                if dst.next_id() is Ok {
                    let id = dst.next_id()->Ok_0;
                    lemma_pending_insert(src, mapped, link.to, id);
                    if dst.contains(id) {
                        assert(dst.nodes.contains_key(id));
                    }
                    dst.lemma_add_wf(id);
                } else {
                    lemma_pending_insert(src, mapped, link.to, 0);
                }
            },
        }
    }
}

/// Merging a vertex into a vertex that the destination has is stopped by
/// nothing but a lack of identifiers.
pub proof fn lemma_merge_rec_bounded(
    dst: Graph,
    src: Graph,
    left: u32,
    right: u32,
    mapped: Map<u32, u32>,
)
    requires
        dst.wf(),
        src.wf(),
        dst.contains(left),
        src.contains(right),
        placed(dst, mapped),
    ensures
        bounded(
            dst,
            src,
            pending(src, mapped.insert(right, left)),
            merge_rec(dst, src, left, right, mapped),
        ),
    decreases pending(src, mapped), 0int,
{
    lemma_pending_insert(src, mapped, right, left);
    if !mapped.contains_key(right) {
        let seen = mapped.insert(right, left);
        let g = match src.nodes[right].data {
            Some(d) => dst.put(left, d)->Ok_0,
            None => dst,
        };
        if src.nodes[right].data is Some {
            dst.lemma_put_wf(left, src.nodes[right].data->Some_0);
        }
        assert(g.nodes.dom().contains(left));
        assert forall|k: u32| #[trigger] seen.contains_key(k) implies g.contains(seen[k]) by {
            if k != right {
                assert(mapped.contains_key(k));
                assert(dst.nodes.dom().contains(mapped[k]));
            }
        }
        lemma_merge_kids_bounded(g, src, left, right, 0, seen);
    }
}

/// Following the edges of a vertex into a vertex that the destination has is
/// stopped by nothing but a lack of identifiers.
pub proof fn lemma_merge_kids_bounded(
    dst: Graph,
    src: Graph,
    left: u32,
    right: u32,
    i: nat,
    mapped: Map<u32, u32>,
)
    requires
        dst.wf(),
        src.wf(),
        dst.contains(left),
        src.contains(right),
        placed(dst, mapped),
    ensures
        bounded(dst, src, pending(src, mapped), merge_kids(dst, src, left, right, i, mapped)),
    decreases pending(src, mapped), 1 + src.edges(right).len() - i,
{
    if i < src.edges(right).len() {
        let link = src.edges(right)[i as int];
        assert(src.nodes.contains_key(right));
        assert(src.nodes.contains_key(src.nodes[right].edges[i as int].to));
        let s = settle(dst, left, link, mapped);
        lemma_settle_grows(dst, left, link, mapped);
        lemma_settle_bounded(dst, src, left, link, mapped);
        match s.chosen {
            Err(e) => {},
            Ok(t) => {
                lemma_placed_extends(dst, s.graph, mapped);
                let m = merge_rec(s.graph, src, t, link.to, mapped);
                lemma_merge_rec_grows(s.graph, src, t, link.to, mapped);
                lemma_merge_rec_bounded(s.graph, src, t, link.to, mapped);
                if m.fault is None {
                    assert(s.graph.nodes.contains_key(left));
                    lemma_merge_kids_bounded(m.graph, src, left, right, i + 1, m.mapped);
                }
            },
        }
    }
}

/// When a merge goes through. From vertices that both graphs have, only a
/// lack of identifiers stops it, and nothing does where the identifiers above
/// the destination's bound are as many as the source has vertices. Without
/// the vertex of the source, the merge stops at once and leaves the
/// destination as it was.
pub proof fn lemma_merge_goes_through(dst: Graph, src: Graph, left: u32, right: u32)
    requires
        dst.wf(),
        src.wf(),
    ensures
        !src.contains(right) ==> merging(dst, src, left, right).fault == Some(
            StoreError::Absent(right),
        ) && merging(dst, src, left, right).graph == dst,
        dst.contains(left) && src.contains(right) ==> {
            ||| merging(dst, src, left, right).fault is None
            ||| merging(dst, src, left, right).fault == Some(StoreError::Exhausted)
        },
        dst.contains(left) && src.contains(right) && dst.next + src.len() <= id_space()
            ==> merging(dst, src, left, right).fault is None,
{
    if dst.contains(left) && src.contains(right) {
        let none = Map::<u32, u32>::empty();
        lemma_pending_insert(src, none, right, left);
        assert(src.nodes.dom().difference(none.dom()) =~= src.nodes.dom());
        lemma_merge_rec_bounded(dst, src, left, right, none);
    }
}

} // verus!
