//! What a vertex reaches, and that a merge visits just that.

use vstd::prelude::*;
use vstd::set_lib::{lemma_len_subset, lemma_subset_equality};
use crate::error::MergeError;
use crate::graph::Graph;
use crate::grows::{lemma_merge_rec_grows, lemma_settle_grows, records};
use crate::merge::{merge_kids, merge_rec, merging, pending, settle, verdict};

verus! {

impl Graph {
    /// An edge leads from `a` to `b`.
    pub open spec fn links(self, a: u32, b: u32) -> bool {
        exists|i: int| 0 <= i < self.edges(a).len() && (#[trigger] self.edges(a)[i]).to == b
    }

    /// Each vertex of `p` but the last has an edge to the one behind it.
    pub open spec fn path(self, p: Seq<u32>) -> bool {
        &&& p.len() >= 1
        &&& forall|i: int| 0 <= i < p.len() - 1 ==> self.links(#[trigger] p[i], p[i + 1])
    }

    /// Edges lead from `a` to `b`, or `a` is `b`.
    pub open spec fn reaches(self, a: u32, b: u32) -> bool {
        exists|p: Seq<u32>| #[trigger] self.path(p) && p.first() == a && p.last() == b
    }

    /// The vertices of the graph that `a` reaches.
    pub open spec fn reach(self, a: u32) -> Set<u32> {
        Set::new(|b: u32| self.contains(b) && self.reaches(a, b))
    }

    pub proof fn lemma_reaches_self(self, a: u32)
        ensures
            self.reaches(a, a),
    {
        assert(self.path(seq![a]));
    }

    pub proof fn lemma_reaches_step(self, a: u32, b: u32, c: u32)
        requires
            self.links(a, b),
            self.reaches(b, c),
        ensures
            self.reaches(a, c),
    {
        let p = choose|p: Seq<u32>| #[trigger] self.path(p) && p.first() == b && p.last() == c;
        let q = seq![a] + p;
        assert forall|i: int| 0 <= i < q.len() - 1 implies self.links(#[trigger] q[i], q[i + 1]) by {
            if i > 0 {
                assert(q[i] == p[i - 1]);
                assert(q[i + 1] == p[i - 1 + 1]);
            }
        }
        assert(self.path(q));
    }

    proof fn lemma_path_stays(self, s: Set<u32>, p: Seq<u32>)
        requires
            self.path(p),
            s.contains(p.first()),
            forall|v: u32, w: u32| s.contains(v) && #[trigger] self.links(v, w) ==> s.contains(w),
        ensures
            s.contains(p.last()),
        decreases p.len(),
    {
        if p.len() > 1 {
            let q = p.drop_last();
            assert forall|i: int| 0 <= i < q.len() - 1 implies self.links(#[trigger] q[i], q[i + 1]) by {
                assert(q[i] == p[i]);
                assert(q[i + 1] == p[i + 1]);
            }
            self.lemma_path_stays(s, q);
            let k = p.len() - 2;
            assert(self.links(p[k], p[k + 1]));
        }
    }

    /// A set of vertices that holds `a`, and with a vertex every vertex that
    /// an edge leads to from it, holds what `a` reaches.
    pub proof fn lemma_closed_holds_reach(self, s: Set<u32>, a: u32, b: u32)
        requires
            s.contains(a),
            forall|v: u32, w: u32| s.contains(v) && #[trigger] self.links(v, w) ==> s.contains(w),
            self.reaches(a, b),
        ensures
            s.contains(b),
    {
        let p = choose|p: Seq<u32>| #[trigger] self.path(p) && p.first() == a && p.last() == b;
        self.lemma_path_stays(s, p);
    }
}

/// What the visits recorded since `mapped` are: vertices of `src` that
/// `right` reaches, each with every vertex its edges lead to visited as well.
pub open spec fn explored(src: Graph, right: u32, mapped: Map<u32, u32>, after: Map<u32, u32>) -> bool {
    &&& records(mapped, after)
    &&& forall|v: u32| #[trigger]
        after.contains_key(v) && !mapped.contains_key(v) ==> src.contains(v) && src.reaches(
            right,
            v,
        )
    &&& forall|v: u32, w: u32|
        after.contains_key(v) && !mapped.contains_key(v) && #[trigger] src.links(v, w)
            ==> after.contains_key(w)
}

/// A merge of a vertex that the store did not stop has visited the vertex and,
/// of the vertices not visited before, those that it reaches.
pub proof fn lemma_merge_rec_explores(
    dst: Graph,
    src: Graph,
    left: u32,
    right: u32,
    mapped: Map<u32, u32>,
)
    requires
        dst.wf(),
        src.wf(),
    ensures
        merge_rec(dst, src, left, right, mapped).fault is None ==> {
            &&& merge_rec(dst, src, left, right, mapped).mapped.contains_key(right)
            &&& explored(src, right, mapped, merge_rec(dst, src, left, right, mapped).mapped)
        },
    decreases pending(src, mapped), 0int,
{
    let m = merge_rec(dst, src, left, right, mapped);
    if !mapped.contains_key(right) && src.contains(right) && m.fault is None {
        crate::merge::lemma_pending_drops(src, mapped, left, right);
        let seen = mapped.insert(right, left);
        let g = match src.nodes[right].data {
            Some(d) => dst.put(left, d)->Ok_0,
            None => dst,
        };
        if src.nodes[right].data is Some {
            dst.lemma_put_wf(left, src.nodes[right].data->Some_0);
        }
        assert(m == merge_kids(g, src, left, right, 0, seen));
        lemma_merge_kids_explores(g, src, left, right, 0, seen);
        src.lemma_reaches_self(right);
        assert(m.mapped.contains_key(right)) by {
            assert(seen.contains_key(right));
        }
        assert forall|k: u32| #[trigger] mapped.contains_key(k) implies m.mapped.contains_key(k)
            && m.mapped[k] == mapped[k] by {
            assert(seen.contains_key(k));
        }
        assert forall|v: u32| #[trigger]
            m.mapped.contains_key(v) && !mapped.contains_key(v) implies src.contains(v)
            && src.reaches(right, v) by {
            if v != right {
                assert(!seen.contains_key(v));
            }
        }
        assert forall|v: u32, w: u32|
            m.mapped.contains_key(v) && !mapped.contains_key(v) && #[trigger] src.links(
                v,
                w,
            ) implies m.mapped.contains_key(w) by {
            if v == right {
                let j = choose|j: int|
                    0 <= j < src.edges(right).len() && (#[trigger] src.edges(right)[j]).to == w;
                assert(m.mapped.contains_key(src.edges(right)[j].to));
            } else {
                assert(!seen.contains_key(v));
            }
        }
    }
}

/// Following the edges of a visited vertex from the `i`-th on, where the
/// store did not stop it, has visited what those edges lead to and, of the
/// vertices not visited before, those that the vertex reaches.
pub proof fn lemma_merge_kids_explores(
    dst: Graph,
    src: Graph,
    left: u32,
    right: u32,
    i: nat,
    mapped: Map<u32, u32>,
)
    requires
        dst.wf(),
        src.wf(),
        src.contains(right),
    ensures
        merge_kids(dst, src, left, right, i, mapped).fault is None ==> {
            &&& explored(src, right, mapped, merge_kids(dst, src, left, right, i, mapped).mapped)
            &&& forall|j: int|
                i <= j < src.edges(right).len() ==> merge_kids(
                    dst,
                    src,
                    left,
                    right,
                    i,
                    mapped,
                ).mapped.contains_key((#[trigger] src.edges(right)[j]).to)
        },
    decreases pending(src, mapped), 1 + src.edges(right).len() - i,
{
    let n = merge_kids(dst, src, left, right, i, mapped);
    if i < src.edges(right).len() && n.fault is None {
        let link = src.edges(right)[i as int];
        let s = settle(dst, left, link, mapped);
        lemma_settle_grows(dst, left, link, mapped);
        let t = s.chosen->Ok_0;
        let m = merge_rec(s.graph, src, t, link.to, mapped);
        lemma_merge_rec_grows(s.graph, src, t, link.to, mapped);
        lemma_merge_rec_explores(s.graph, src, t, link.to, mapped);
        assert(n == merge_kids(m.graph, src, left, right, i + 1, m.mapped));
        lemma_merge_kids_explores(m.graph, src, left, right, i + 1, m.mapped);
        assert(src.links(right, link.to));
        assert forall|k: u32| #[trigger] mapped.contains_key(k) implies n.mapped.contains_key(k)
            && n.mapped[k] == mapped[k] by {
            assert(m.mapped.contains_key(k));
        }
        assert forall|v: u32| #[trigger]
            n.mapped.contains_key(v) && !mapped.contains_key(v) implies src.contains(v)
            && src.reaches(right, v) by {
            if m.mapped.contains_key(v) {
                src.lemma_reaches_step(right, link.to, v);
            }
        }
        assert forall|v: u32, w: u32|
            n.mapped.contains_key(v) && !mapped.contains_key(v) && #[trigger] src.links(
                v,
                w,
            ) implies n.mapped.contains_key(w) by {
            if m.mapped.contains_key(v) {
                assert(m.mapped.contains_key(w));
            }
        }
        assert forall|j: int| i <= j < src.edges(right).len() implies n.mapped.contains_key(
            (#[trigger] src.edges(right)[j]).to,
        ) by {
            if j == i {
                assert(m.mapped.contains_key(link.to));
            }
        }
    }
}

/// A merge that the store did not stop has visited the vertices of the source
/// that the vertex it started at reaches, and no other. So it reports a lack
/// of coverage just where that vertex leaves a vertex of the source out, and
/// with the number of vertices reached and the number the source has.
pub proof fn lemma_merge_covers(dst: Graph, src: Graph, left: u32, right: u32)
    requires
        dst.wf(),
        src.wf(),
        merging(dst, src, left, right).fault is None,
    ensures
        src.contains(right),
        merging(dst, src, left, right).mapped.dom() == src.reach(right),
        src.reach(right).subset_of(src.nodes.dom()),
        src.reach(right).len() <= src.len(),
        src.reach(right) == src.nodes.dom() <==> verdict(
            merging(dst, src, left, right),
            src,
        ) is Ok,
        src.reach(right) != src.nodes.dom() ==> verdict(merging(dst, src, left, right), src) == Err::<
            (),
            MergeError,
        >(
            MergeError::Coverage {
                merged: src.reach(right).len() as usize,
                scope: src.len() as usize,
            },
        ) && src.reach(right).len() < src.len(),
{
    let none = Map::<u32, u32>::empty();
    let m = merging(dst, src, left, right);
    lemma_merge_rec_explores(dst, src, left, right, none);
    let s = m.mapped.dom();
    assert forall|v: u32| s.contains(v) implies src.reach(right).contains(v) by {
        assert(m.mapped.contains_key(v) && !none.contains_key(v));
    }
    assert forall|v: u32| src.reach(right).contains(v) implies s.contains(v) by {
        assert forall|a: u32, b: u32| s.contains(a) && #[trigger] src.links(a, b) implies s.contains(
            b,
        ) by {
            assert(m.mapped.contains_key(a) && !none.contains_key(a));
        }
        src.lemma_closed_holds_reach(s, right, v);
    }
    assert(s =~= src.reach(right));
    lemma_len_subset(src.reach(right), src.nodes.dom());
    if src.reach(right).len() == src.len() {
        lemma_subset_equality(src.reach(right), src.nodes.dom());
    }
}

} // verus!
