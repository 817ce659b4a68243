//! Merging one graph into another.

use vstd::prelude::*;
use vstd::string::StringExecFns;
use std::collections::HashMap;
use crate::error::{MergeError, StoreError};
use crate::graph::{slashed, Graph, Link};
use crate::store::Sodg;

verus! {

/// How far a merge has come: the destination as it stands, the vertices of
/// the source that were visited, each with the vertex of the destination it
/// was laid on, and the refusal of the store that stopped the merge, if one
/// did.
pub struct Merged {
    pub graph: Graph,
    pub mapped: Map<u32, u32>,
    pub fault: Option<StoreError>,
}

/// What became of one edge of the source: the destination as it stands, and
/// the vertex of the destination that the edge's target is laid on.
pub struct Settled {
    pub graph: Graph,
    pub chosen: Result<u32, StoreError>,
}

/// The number of vertices of the source that were not visited yet.
pub open spec fn pending(src: Graph, mapped: Map<u32, u32>) -> nat {
    src.nodes.dom().difference(mapped.dom()).len()
}

/// Finds the vertex of `dst` for the target of `link`, an edge of the source
/// whose origin is laid on `left`.
///
/// A target that was visited keeps its vertex, and `left` gets an edge to it
/// under a label made from the link's, new on `left`. Else an edge that
/// `left` has under the link's label leads to the vertex. Else the vertex is a
/// new one, bound to `left` under the link's label.
pub open spec fn settle(dst: Graph, left: u32, link: Link, mapped: Map<u32, u32>) -> Settled {
    if mapped.contains_key(link.to) {
        let t = mapped[link.to];
        match dst.bind(left, t, dst.fresh(left, link.label)) {
            Ok(g) => Settled { graph: g, chosen: Ok(t) },
            Err(e) => Settled { graph: dst, chosen: Err(e) },
        }
    } else {
        match dst.kid(left, link.label) {
            Some(t) => Settled { graph: dst, chosen: Ok(t) },
            None => match dst.next_id() {
                Err(e) => Settled { graph: dst, chosen: Err(e) },
                Ok(id) => match dst.add(id) {
                    Err(e) => Settled { graph: dst, chosen: Err(e) },
                    Ok(grown) => match grown.bind(left, id, link.label) {
                        Ok(g) => Settled { graph: g, chosen: Ok(id) },
                        Err(e) => Settled { graph: grown, chosen: Err(e) },
                    },
                },
            },
        }
    }
}

/// Lays the vertex `right` of `src` on the vertex `left` of `dst`, and what
/// `right` reaches below it, unless `right` was visited before.
///
/// The visit is recorded first. Then the payload of `right`, if it has one,
/// becomes that of `left`; then the edges of `right` are followed, oldest
/// first.
pub open spec fn merge_rec(
    dst: Graph,
    src: Graph,
    left: u32,
    right: u32,
    mapped: Map<u32, u32>,
) -> Merged
    decreases pending(src, mapped), 0int,
    when src.nodes.dom().finite()
    via merge_rec_decreases
{
    if mapped.contains_key(right) {
        Merged { graph: dst, mapped, fault: None }
    } else if !src.contains(right) {
        Merged {
            graph: dst,
            mapped: mapped.insert(right, left),
            fault: Some(StoreError::Absent(right)),
        }
    } else {
        let seen = mapped.insert(right, left);
        let put = match src.nodes[right].data {
            Some(d) => dst.put(left, d),
            None => Ok(dst),
        };
        match put {
            Ok(g) => merge_kids(g, src, left, right, 0, seen),
            Err(e) => Merged { graph: dst, mapped: seen, fault: Some(e) },
        }
    }
}

/// Follows the edges of `right` from the `i`-th on: each is settled on
/// `left`, and its target is merged into the vertex that was chosen for it.
/// The first refusal of the store ends it.
///
/// A visit never makes more vertices pending (`lemma_merge_rec_grows`), so
/// the comparison of the two counts decides nothing; it is there for the
/// recursion to be well founded.
pub open spec fn merge_kids(
    dst: Graph,
    src: Graph,
    left: u32,
    right: u32,
    i: nat,
    mapped: Map<u32, u32>,
) -> Merged
    decreases pending(src, mapped), 1 + src.edges(right).len() - i,
    when src.nodes.dom().finite()
{
    if i >= src.edges(right).len() {
        Merged { graph: dst, mapped, fault: None }
    } else {
        let link = src.edges(right)[i as int];
        let s = settle(dst, left, link, mapped);
        match s.chosen {
            Err(e) => Merged { graph: s.graph, mapped, fault: Some(e) },
            Ok(t) => {
                let m = merge_rec(s.graph, src, t, link.to, mapped);
                if m.fault is Some || pending(src, m.mapped) > pending(src, mapped) {
                    m
                } else {
                    merge_kids(m.graph, src, left, right, i + 1, m.mapped)
                }
            },
        }
    }
}

#[via_fn]
proof fn merge_rec_decreases(dst: Graph, src: Graph, left: u32, right: u32, mapped: Map<u32, u32>) {
    if !mapped.contains_key(right) && src.contains(right) {
        lemma_pending_drops(src, mapped, left, right);
    }
}

/// The merge of what `src` holds from `right` on into `dst` at `left`.
pub open spec fn merging(dst: Graph, src: Graph, left: u32, right: u32) -> Merged {
    merge_rec(dst, src, left, right, Map::empty())
}

/// What a merge that came as far as `m` reports: the store's refusal, or a
/// lack of coverage where the vertices visited are not as many as `src` has.
pub open spec fn verdict(m: Merged, src: Graph) -> Result<(), MergeError> {
    match m.fault {
        Some(e) => Err(MergeError::Store(e)),
        None => if m.mapped.len() == src.len() {
            Ok(())
        } else {
            Err(MergeError::Coverage { merged: m.mapped.len() as usize, scope: src.len() as usize })
        },
    }
}

/// Visiting a vertex of the source for the first time leaves one vertex less
/// pending.
pub proof fn lemma_pending_drops(src: Graph, mapped: Map<u32, u32>, left: u32, right: u32)
    requires
        src.nodes.dom().finite(),
        src.contains(right),
        !mapped.contains_key(right),
    ensures
        pending(src, mapped.insert(right, left)) + 1 == pending(src, mapped),
{
    let before = src.nodes.dom().difference(mapped.dom());
    let after = src.nodes.dom().difference(mapped.insert(right, left).dom());
    assert(after =~= before.remove(right));
}

/// Recording a vertex that the source does not have leaves as many pending.
pub proof fn lemma_pending_same(src: Graph, mapped: Map<u32, u32>, left: u32, right: u32)
    requires
        !src.contains(right),
    ensures
        pending(src, mapped.insert(right, left)) == pending(src, mapped),
{
    let before = src.nodes.dom().difference(mapped.dom());
    let after = src.nodes.dom().difference(mapped.insert(right, left).dom());
    assert(after =~= before);
}

impl Sodg {
    /// Merges into this graph, at its vertex `left`, what `g` holds from its
    /// vertex `right` on.
    ///
    /// The vertices of `g` that `right` reaches are laid on vertices of this
    /// graph, `right` on `left`, and an edge of `g` is followed along the
    /// edge that this graph has under the same label, where it has one. The
    /// merge fails with a refusal of the store, and this graph then keeps what
    /// was done before it; or, when all is merged, with a lack of coverage
    /// where `right` does not reach every vertex of `g`.
    pub fn merge(&mut self, g: &Sodg, left: u32, right: u32) -> (r: Result<(), MergeError>)
        requires
            old(self).wf(),
            g.wf(),
        ensures
            final(self).wf(),
            final(self)@ == merging(old(self)@, g@, left, right).graph,
            r == verdict(merging(old(self)@, g@, left, right), g@),
    {
        let mut mapped: HashMap<u32, u32> = HashMap::new();
        match self.merge_rec(g, left, right, &mut mapped) {
            Err(e) => {
                return Err(MergeError::Store(e));
            },
            Ok(()) => {},
        }
        let merged = mapped.len();
        let scope = g.len();
        if merged != scope {
            return Err(MergeError::Coverage { merged, scope });
        }
        Ok(())
    }

    /// Merges the vertex `right` of `g` into the vertex `left`, and what it
    /// reaches, passing over the vertices that `mapped` holds.
    ///
    /// A vertex is recorded in `mapped` before its edges are followed, so an
    /// edge back to it ends there: with every call inside a call fewer
    /// vertices of `g` are pending, and the calls nest no deeper than `g` has
    /// vertices.
    pub fn merge_rec(
        &mut self,
        g: &Sodg,
        left: u32,
        right: u32,
        mapped: &mut HashMap<u32, u32>,
    ) -> (r: Result<(), StoreError>)
        requires
            old(self).wf(),
            g.wf(),
        ensures
            final(self).wf(),
            final(self)@ == merge_rec(old(self)@, g@, left, right, old(mapped)@).graph,
            final(mapped)@ == merge_rec(old(self)@, g@, left, right, old(mapped)@).mapped,
            match merge_rec(old(self)@, g@, left, right, old(mapped)@).fault {
                Some(e) => r == Err::<(), StoreError>(e),
                None => r is Ok,
            },
            pending(g@, final(mapped)@) <= pending(g@, old(mapped)@),
        decreases pending(g@, old(mapped)@),
    {
        let ghost start = mapped@;
        let ghost goal = merge_rec(self@, g@, left, right, start);
        if mapped.contains_key(&right) {
            return Ok(());
        }
        mapped.insert(right, left);
        let payload = match g.data(right) {
            Ok(p) => p,
            Err(e) => {
                proof {
                    lemma_pending_same(g@, start, left, right);
                }
                return Err(e);
            },
        };
        proof {
            lemma_pending_drops(g@, start, left, right);
        }
        match payload {
            Some(d) => match self.put(left, d) {
                Ok(()) => {},
                Err(e) => {
                    return Err(e);
                },
            },
            None => {},
        }
        let kids = match g.kids(right) {
            Ok(kids) => kids,
            Err(e) => {
                return Err(e);
            },
        };
        let mut i: usize = 0;
        while i < kids.len()
            invariant
                self.wf(),
                g.wf(),
                g@.contains(right),
                i <= kids@.len(),
                kids@.len() == g@.edges(right).len(),
                forall|j: int|
                    0 <= j < kids@.len() ==> (#[trigger] kids@[j]).0@ == g@.edges(right)[j].label
                        && kids@[j].1 == g@.edges(right)[j].to,
                start == old(mapped)@,
                goal == merge_rec(old(self)@, g@, left, right, old(mapped)@),
                pending(g@, mapped@) < pending(g@, start),
                merge_kids(self@, g@, left, right, i as nat, mapped@) == goal,
            decreases kids@.len() - i,
        {
            let to = kids[i].1;
            assert(g@.edges(right)[i as int] == Link { label: kids@[i as int].0@, to });
            let target = match self.settle(left, kids[i].0.as_str(), to, mapped) {
                Ok(t) => t,
                Err(e) => {
                    return Err(e);
                },
            };
            match self.merge_rec(g, target, to, mapped) {
                Ok(()) => {},
                Err(e) => {
                    return Err(e);
                },
            }
            i += 1;
        }
        Ok(())
    }

    /// Finds the vertex for the target `to` of an edge under `label` whose
    /// origin is laid on `left`.
    fn settle(&mut self, left: u32, label: &str, to: u32, mapped: &HashMap<u32, u32>) -> (r: Result<
        u32,
        StoreError,
    >)
        requires
            old(self).wf(),
        ensures
            final(self).wf(),
            final(self)@ == settle(old(self)@, left, Link { label: label@, to }, mapped@).graph,
            r == settle(old(self)@, left, Link { label: label@, to }, mapped@).chosen,
    {
        match mapped.get(&to) {
            Some(t) => {
                let t = *t;
                let name = self.fresh_label(left, label);
                match self.bind(left, t, name.as_str()) {
                    Ok(()) => Ok(t),
                    Err(e) => Err(e),
                }
            },
            None => match self.kid(left, label) {
                Some(t) => Ok(t),
                None => match self.next_id() {
                    Err(e) => Err(e),
                    Ok(id) => match self.add(id) {
                        Err(e) => Err(e),
                        Ok(()) => match self.bind(left, id, label) {
                            Ok(()) => Ok(id),
                            Err(e) => Err(e),
                        },
                    },
                },
            },
        }
    }

    /// The label `a` with the fewest slashes behind it that make it a label
    /// which `v` does not use.
    pub fn fresh_label(&self, v: u32, a: &str) -> (name: String)
        requires
            self.wf(),
        ensures
            name@ == self@.fresh(v, a@),
            !self@.node(v).has(name@),
    {
        let mut name = a.to_owned();
        name.append("/");
        let ghost mut k: nat = 1;
        proof {
            reveal_strlit("/");
            assert(name@ =~= slashed(a@, 1));
        }
        while self.kid(v, name.as_str()).is_some()
            invariant
                self.wf(),
                k >= 1,
                name@ == slashed(a@, k),
                "/"@ == seq!['/'],
                forall|j: nat| 1 <= j < k ==> self@.node(v).has(#[trigger] slashed(a@, j)),
            decreases self@.node(v).edges.len() + 1 - k,
        {
            proof {
                self@.node(v).lemma_taken_bound(a@, k);
            }
            name.append("/");
            proof {
                k = k + 1;
                assert(name@ =~= slashed(a@, k));
            }
        }
        proof {
            self@.node(v).lemma_fresh(a@, k);
        }
        name
    }
}

} // verus!
