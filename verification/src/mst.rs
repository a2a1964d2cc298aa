//! Prim's algorithm: a tree of lightest arcs that spans what the first node
//! reaches.

use crate::graph::Grf;
use crate::heap::goes_first;
use crate::heap::Edge;
use crate::heap::MinHeap;
use crate::model::lemma_bounded_set_len;
use crate::model::GrfView;
use crate::model::Hop;
use std::collections::HashSet;
use vstd::prelude::*;

verus! {

impl GrfView {
    /// The nodes of the tree that grows from the first node along the first
    /// `k` arcs of `t`: the first node, and the node that each of those arcs
    /// enters.
    pub open spec fn tree_nodes(self, t: Seq<int>, k: int) -> Set<usize>
        decreases k,
    {
        if k <= 0 {
            set![0usize]
        } else {
            self.tree_nodes(t, k - 1).insert(self.arcs[t[k - 1]].to)
        }
    }

    /// Arc `i` leaves a node of `seen` and enters a node outside it.
    pub open spec fn crossing(self, seen: Set<usize>, i: int) -> bool {
        &&& 0 <= i < self.arcs.len()
        &&& seen.contains(self.arcs[i].from)
        &&& !seen.contains(self.arcs[i].to)
    }

    /// The arc `t[k]` leaves the tree grown along the first `k` arcs of `t`; no
    /// arc that leaves that tree is lighter, and none that is as light has a
    /// lower index.
    pub open spec fn prim_step(self, t: Seq<int>, k: int) -> bool {
        &&& self.crossing(self.tree_nodes(t, k), t[k])
        &&& forall|i: int| #[trigger]
            self.crossing(self.tree_nodes(t, k), i) ==> goes_first(
                self.entry(t[k]),
                self.entry(i),
            )
    }

    /// Each arc of `t` is the lightest arc that leaves the tree grown before it,
    /// of several such the one with the least index.
    pub open spec fn prim_run(self, t: Seq<int>) -> bool {
        forall|k: int| 0 <= k < t.len() ==> #[trigger] self.prim_step(t, k)
    }

    /// No arc leaves the tree grown along `t`.
    pub open spec fn prim_complete(self, t: Seq<int>) -> bool {
        forall|i: int| !#[trigger] self.crossing(self.tree_nodes(t, t.len() as int), i)
    }

    /// The arcs of `t`, each as the identifiers of its two ends and its weight.
    pub open spec fn tree_edges(self, t: Seq<int>) -> Seq<(usize, usize, u64)> {
        Seq::new(
            t.len(),
            |k: int|
                (
                    self.nodes[self.arcs[t[k]].from as int].id,
                    self.nodes[self.arcs[t[k]].to as int].id,
                    self.arcs[t[k]].ed.wt,
                ),
        )
    }

    /// `res` lists the arcs of the tree that Prim's algorithm grows from the
    /// first node: at each step the lightest arc that leaves the tree, of
    /// several such the one with the least index, in the order in which they
    /// are taken, until no arc leaves the tree.
    pub open spec fn is_mst(self, res: Seq<(usize, usize, u64)>) -> bool {
        exists|t: Seq<int>|
            #![trigger self.prim_run(t)]
            self.prim_run(t) && self.prim_complete(t) && res == self.tree_edges(t)
    }

    /// The frontier entry that stands for arc `i`.
    pub open spec fn entry(self, i: int) -> Edge {
        Edge {
            u: self.arcs[i].from,
            v: self.arcs[i].to,
            wt: self.arcs[i].ed.wt,
            e: i as usize,
        }
    }

    /// `x` stands for an arc of the graph.
    pub open spec fn is_entry(self, x: Edge) -> bool {
        x.e < self.arcs.len() && x == self.entry(x.e as int)
    }
}

/// The tree grown along the first `k` arcs does not depend on the arcs behind
/// them.
pub proof fn lemma_tree_nodes_push(g: GrfView, t: Seq<int>, e: int, k: int)
    requires
        0 <= k <= t.len(),
    ensures
        g.tree_nodes(t.push(e), k) == g.tree_nodes(t, k),
    decreases k,
{
    if k > 0 {
        lemma_tree_nodes_push(g, t, e, k - 1);
        assert(t.push(e)[k - 1] == t[k - 1]);
    }
}

impl Grf {
    /// Puts on the frontier every arc that leaves `v` and enters a node
    /// outside `seen`.
    fn push_frontier(&self, heap: &mut MinHeap, seen: &HashSet<usize>, v: usize)
        requires
            self.wf(),
            old(heap).wf(),
            v < self@.nodes.len(),
        ensures
            final(heap).wf(),
            forall|x: Edge|
                final(heap)@.count(x) > 0 ==> old(heap)@.count(x) > 0 || (self@.is_entry(x) && x.u
                    == v && !seen@.contains(x.v)),
            forall|x: Edge| old(heap)@.count(x) > 0 ==> final(heap)@.count(x) > 0,
            forall|i: int|
                0 <= i < self@.arcs.len() && (#[trigger] self@.arcs[i]).from == v
                    && !seen@.contains(self@.arcs[i].to) ==> final(heap)@.count(self@.entry(i))
                    > 0,
    {
        broadcast use vstd::std_specs::hash::group_hash_axioms;
        broadcast use vstd::multiset::group_multiset_axioms;

        let hops: Vec<Hop> = self.hops(v);
        let mut j: usize = 0;
        while j < hops.len()
            invariant
                self.wf(),
                heap.wf(),
                j <= hops.len(),
                forall|k: int| 0 <= k < hops@.len() ==> self@.is_hop(v, #[trigger] hops@[k]),
                forall|x: Edge|
                    heap@.count(x) > 0 ==> old(heap)@.count(x) > 0 || (self@.is_entry(x) && x.u
                        == v && !seen@.contains(x.v)),
                forall|x: Edge| old(heap)@.count(x) > 0 ==> heap@.count(x) > 0,
                forall|k: int|
                    0 <= k < j && !seen@.contains((#[trigger] hops@[k]).to) ==> heap@.count(
                        self@.entry(hops@[k].edge as int),
                    ) > 0,
            decreases hops.len() - j,
        {
            let h: Hop = hops[j];
            if !seen.contains(&h.to) {
                heap.push(Edge::new(v, h.to, h.ed.wt, h.edge));
                assert(self@.is_entry(Edge { u: v, v: h.to, wt: h.ed.wt, e: h.edge }));
            }
            j += 1;
        }
        proof {
            assert forall|i: int|
                0 <= i < self@.arcs.len() && (#[trigger] self@.arcs[i]).from == v
                    && !seen@.contains(self@.arcs[i].to) implies heap@.count(self@.entry(i))
                > 0 by {
                let h = self@.hop_of(i);
                assert(hops@.contains(h));
                let k = choose|k: int| 0 <= k < hops@.len() && hops@[k] == h;
                assert(!seen@.contains(hops@[k].to));
            }
        }
    }

    /// A minimum spanning tree of what the first node reaches along the arcs,
    /// by Prim's algorithm: the arcs of the tree in the order in which they
    /// were taken, each as the identifiers of the node it leaves and of the
    /// node it enters, and its weight. Of several lightest arcs that leave the
    /// tree the one added to the graph first is taken. Only arcs that leave a
    /// node are followed from it, so for a tree of an undirected graph each
    /// arc has to be there in both directions.
    pub fn mst(&self) -> (res: Vec<(usize, usize, u64)>)
        requires
            self.wf(),
        ensures
            self@.is_mst(res@),
            self@.nodes.len() <= 1 ==> res@.len() == 0,
    {
        broadcast use vstd::std_specs::hash::group_hash_axioms;
        broadcast use vstd::multiset::group_multiset_axioms;

        let mut res: Vec<(usize, usize, u64)> = Vec::new();
        let mut seen: HashSet<usize> = HashSet::new();
        let mut heap = MinHeap::new();
        let ghost mut t: Seq<int> = Seq::empty();
        let n: usize = self.node_count();
        if n == 0 {
            proof {
                assert(res@ =~= self@.tree_edges(t));
                assert(self@.prim_run(t));
                assert(self@.prim_complete(t));
            }
            return res;
        }
        seen.insert(0);
        self.push_frontier(&mut heap, &seen, 0);
        proof {
            assert(seen@ =~= self@.tree_nodes(t, 0));
            assert(res@ =~= self@.tree_edges(t));
        }
        loop
            invariant
                self.wf(),
                heap.wf(),
                n == self@.nodes.len(),
                n > 0,
                seen@ == self@.tree_nodes(t, t.len() as int),
                seen@.finite(),
                seen@.len() == t.len() + 1,
                seen@.contains(0),
                forall|h: usize| seen@.contains(h) ==> h < n,
                self@.prim_run(t),
                res@ == self@.tree_edges(t),
                forall|x: Edge| heap@.count(x) > 0 ==> self@.is_entry(x) && seen@.contains(x.u),
                forall|i: int| #[trigger]
                    self@.crossing(seen@, i) ==> heap@.count(self@.entry(i)) > 0,
            ensures
                self@.prim_run(t),
                self@.prim_complete(t),
                res@ == self@.tree_edges(t),
                n == 1 ==> t.len() == 0,
            decreases n - t.len(), heap@.len(),
        {
            proof {
                lemma_bounded_set_len(seen@, n as nat);
            }
            let ghost before = heap@;
            let x: Edge = match heap.pop() {
                Some(x) => x,
                None => {
                    proof {
                        assert forall|i: int| !#[trigger] self@.crossing(seen@, i) by {
                            if self@.crossing(seen@, i) {
                                assert(heap@.count(self@.entry(i)) > 0);
                            }
                        }
                    }
                    break ;
                },
            };
            assert(before.count(x) > 0);
            assert(self@.is_entry(x));
            assert(seen@.contains(x.u));
            if seen.contains(&x.v) {
                proof {
                    assert forall|i: int| #[trigger] self@.crossing(seen@, i) implies heap@.count(
                        self@.entry(i),
                    ) > 0 by {
                        assert(before.count(self@.entry(i)) > 0);
                        assert(self@.entry(i) != x);
                    }
                }
                continue ;
            }
            let ghost seen0 = seen@;
            let ghost t0 = t;
            let ghost e = x.e as int;
            seen.insert(x.v);
            let from_id: usize = self.id_of(x.u);
            let to_id: usize = self.id_of(x.v);
            res.push((from_id, to_id, x.wt));
            proof {
                t = t0.push(e);
                assert(self@.crossing(seen0, e));
                assert forall|k: int| 0 <= k < t.len() implies #[trigger] self@.prim_step(
                    t,
                    k,
                ) by {
                    lemma_tree_nodes_push(self@, t0, e, k);
                    if k < t0.len() {
                        assert(self@.prim_step(t0, k));
                        assert(t[k] == t0[k]);
                    } else {
                        assert forall|i: int| #[trigger]
                            self@.crossing(seen0, i) implies goes_first(
                            self@.entry(e),
                            self@.entry(i),
                        ) by {
                            assert(before.count(self@.entry(i)) > 0);
                        }
                    }
                }
                lemma_tree_nodes_push(self@, t0, e, t0.len() as int);
                assert(seen@ =~= self@.tree_nodes(t, t.len() as int));
                assert(res@ =~= self@.tree_edges(t));
            }
            let ghost mid = heap@;
            self.push_frontier(&mut heap, &seen, x.v);
            proof {
                assert forall|i: int| #[trigger] self@.crossing(seen@, i) implies heap@.count(
                    self@.entry(i),
                ) > 0 by {
                    if self@.arcs[i].from != x.v {
                        assert(self@.crossing(seen0, i));
                        assert(before.count(self@.entry(i)) > 0);
                        assert(self@.entry(i) != x);
                        assert(mid.count(self@.entry(i)) > 0);
                    }
                }
            }
        }
        res
    }
}

} // verus!
