//! Where the payloads of a merged graph come from.

use vstd::prelude::*;
use crate::graph::{Graph, Link};
use crate::grows::{lemma_merge_kids_grows, lemma_merge_rec_grows, lemma_settle_grows, records};
use crate::merge::{merge_kids, merge_rec, merging, pending, settle};

verus! {

/// Where the payload of the vertex `l` of `now` comes from: it is what `l`
/// held in `first`, and no vertex with a payload was laid on `l`; or it is the
/// payload of a vertex of `src` that was laid on `l`.
pub open spec fn payload_from(
    first: Graph,
    now: Graph,
    src: Graph,
    mapped: Map<u32, u32>,
    l: u32,
) -> bool {
    ||| now.data(l) == first.data(l) && forall|r: u32| #[trigger]
        mapped.contains_key(r) && mapped[r] == l ==> src.data(r) is None
    ||| exists|r: u32| #[trigger]
        mapped.contains_key(r) && mapped[r] == l && src.data(r) is Some && now.data(l)
            == src.data(r)
}

/// Every payload of `now` is one that `first` held or one of a vertex of
/// `src` laid on its vertex.
pub open spec fn payloads(first: Graph, now: Graph, src: Graph, mapped: Map<u32, u32>) -> bool {
    forall|l: u32| #[trigger] payload_from(first, now, src, mapped, l)
}

/// Settling an edge changes no payload.
pub proof fn lemma_settle_data(dst: Graph, left: u32, link: Link, mapped: Map<u32, u32>, l: u32)
    requires
        dst.wf(),
    ensures
        settle(dst, left, link, mapped).graph.data(l) == dst.data(l),
{
}

proof fn lemma_visit_payloads(
    first: Graph,
    dst: Graph,
    src: Graph,
    left: u32,
    right: u32,
    mapped: Map<u32, u32>,
)
    requires
        dst.wf(),
        src.contains(right),
        !mapped.contains_key(right),
        payloads(first, dst, src, mapped),
        src.nodes[right].data is Some ==> dst.put(left, src.nodes[right].data->Some_0) is Ok,
    ensures
        payloads(
            first,
            match src.nodes[right].data {
                Some(d) => dst.put(left, d)->Ok_0,
                None => dst,
            },
            src,
            mapped.insert(right, left),
        ),
{
    let seen = mapped.insert(right, left);
    let g = match src.nodes[right].data {
        Some(d) => dst.put(left, d)->Ok_0,
        None => dst,
    };
    assert forall|l: u32| #[trigger] payload_from(first, g, src, seen, l) by {
        assert(payload_from(first, dst, src, mapped, l));
        if l == left && src.nodes[right].data is Some {
            assert(seen.contains_key(right) && seen[right] == l && src.data(right) is Some
                && g.data(l) == src.data(right));
        } else {
            assert(g.data(l) == dst.data(l));
            if exists|r: u32| #[trigger]
                mapped.contains_key(r) && mapped[r] == l && src.data(r) is Some && dst.data(l)
                    == src.data(r) {
                let r = choose|r: u32| #[trigger]
                    mapped.contains_key(r) && mapped[r] == l && src.data(r) is Some && dst.data(l)
                        == src.data(r);
                assert(seen.contains_key(r) && seen[r] == l);
            } else {
                assert forall|r: u32| #[trigger] seen.contains_key(r) && seen[r] == l implies src.data(
                    r,
                ) is None by {
                    if r != right {
                        assert(mapped.contains_key(r));
                    }
                }
            }
        }
    }
}

/// A merge of a vertex that the store did not stop leaves every payload one
/// that was held at first or one of a vertex laid on its vertex.
pub proof fn lemma_merge_rec_payloads(
    first: Graph,
    dst: Graph,
    src: Graph,
    left: u32,
    right: u32,
    mapped: Map<u32, u32>,
)
    requires
        dst.wf(),
        src.wf(),
        payloads(first, dst, src, mapped),
    ensures
        merge_rec(dst, src, left, right, mapped).fault is None ==> payloads(
            first,
            merge_rec(dst, src, left, right, mapped).graph,
            src,
            merge_rec(dst, src, left, right, mapped).mapped,
        ),
    decreases pending(src, mapped), 0int,
{
    let m = merge_rec(dst, src, left, right, mapped);
    if !mapped.contains_key(right) && src.contains(right) && m.fault is None {
        crate::merge::lemma_pending_drops(src, mapped, left, right);
        let seen = mapped.insert(right, left);
        let g = match src.nodes[right].data {
            Some(d) => dst.put(left, d)->Ok_0,
            None => dst,
        };
        if src.nodes[right].data is Some {
            dst.lemma_put_wf(left, src.nodes[right].data->Some_0);
        }
        lemma_visit_payloads(first, dst, src, left, right, mapped);
        assert(m == merge_kids(g, src, left, right, 0, seen));
        lemma_merge_kids_payloads(first, g, src, left, right, 0, seen);
    }
}

/// Following the edges of a vertex, where the store did not stop it, leaves
/// every payload one that was held at first or one of a vertex laid on its
/// vertex.
pub proof fn lemma_merge_kids_payloads(
    first: Graph,
    dst: Graph,
    src: Graph,
    left: u32,
    right: u32,
    i: nat,
    mapped: Map<u32, u32>,
)
    requires
        dst.wf(),
        src.wf(),
        payloads(first, dst, src, mapped),
    ensures
        merge_kids(dst, src, left, right, i, mapped).fault is None ==> payloads(
            first,
            merge_kids(dst, src, left, right, i, mapped).graph,
            src,
            merge_kids(dst, src, left, right, i, mapped).mapped,
        ),
    decreases pending(src, mapped), 1 + src.edges(right).len() - i,
{
    let n = merge_kids(dst, src, left, right, i, mapped);
    if i < src.edges(right).len() && n.fault is None {
        let link = src.edges(right)[i as int];
        let s = settle(dst, left, link, mapped);
        lemma_settle_grows(dst, left, link, mapped);
        assert forall|l: u32| #[trigger] payload_from(first, s.graph, src, mapped, l) by {
            assert(payload_from(first, dst, src, mapped, l));
            lemma_settle_data(dst, left, link, mapped, l);
        }
        let t = s.chosen->Ok_0;
        let m = merge_rec(s.graph, src, t, link.to, mapped);
        lemma_merge_rec_grows(s.graph, src, t, link.to, mapped);
        lemma_merge_rec_payloads(first, s.graph, src, t, link.to, mapped);
        assert(n == merge_kids(m.graph, src, left, right, i + 1, m.mapped));
        lemma_merge_kids_payloads(first, m.graph, src, left, right, i + 1, m.mapped);
    }
}

/// After a merge that the store did not stop, the vertex that a vertex of the
/// source was laid on holds that vertex's payload, where no vertex with
/// another payload was laid on it too. The vertex that the merge started at is
/// laid on the vertex it was given.
pub proof fn lemma_merge_payload(dst: Graph, src: Graph, left: u32, right: u32, r: u32)
    requires
        dst.wf(),
        src.wf(),
        merging(dst, src, left, right).fault is None,
        merging(dst, src, left, right).mapped.contains_key(r),
        src.data(r) is Some,
        forall|o: u32| #[trigger]
            merging(dst, src, left, right).mapped.contains_key(o) && merging(
                dst,
                src,
                left,
                right,
            ).mapped[o] == merging(dst, src, left, right).mapped[r] && src.data(o) is Some
                ==> src.data(o) == src.data(r),
    ensures
        merging(dst, src, left, right).graph.data(merging(dst, src, left, right).mapped[r])
            == src.data(r),
        merging(dst, src, left, right).mapped.contains_key(right),
        merging(dst, src, left, right).mapped[right] == left,
{
    let none = Map::<u32, u32>::empty();
    let m = merging(dst, src, left, right);
    assert forall|l: u32| #[trigger] payload_from(dst, dst, src, none, l) by {}
    lemma_merge_rec_payloads(dst, dst, src, left, right, none);
    assert(payload_from(dst, m.graph, src, m.mapped, m.mapped[r]));
    let seen = none.insert(right, left);
    let g = match src.nodes[right].data {
        Some(d) => dst.put(left, d)->Ok_0,
        None => dst,
    };
    if src.nodes[right].data is Some {
        dst.lemma_put_wf(left, src.nodes[right].data->Some_0);
    }
    assert(m == merge_kids(g, src, left, right, 0, seen));
    lemma_merge_kids_grows(g, src, left, right, 0, seen);
    assert(seen.contains_key(right));
    assert(records(seen, m.mapped));
}

/// After a merge that the store did not stop, a vertex holds the payload it
/// held before, or none as before, where no vertex with a payload was laid on
/// it.
pub proof fn lemma_merge_keeps_payload(dst: Graph, src: Graph, left: u32, right: u32, l: u32)
    requires
        dst.wf(),
        src.wf(),
        merging(dst, src, left, right).fault is None,
        forall|r: u32| #[trigger]
            merging(dst, src, left, right).mapped.contains_key(r) && merging(
                dst,
                src,
                left,
                right,
            ).mapped[r] == l ==> src.data(r) is None,
    ensures
        merging(dst, src, left, right).graph.data(l) == dst.data(l),
{
    let none = Map::<u32, u32>::empty();
    let m = merging(dst, src, left, right);
    assert forall|v: u32| #[trigger] payload_from(dst, dst, src, none, v) by {}
    lemma_merge_rec_payloads(dst, dst, src, left, right, none);
    assert(payload_from(dst, m.graph, src, m.mapped, l));
}

} // verus!
