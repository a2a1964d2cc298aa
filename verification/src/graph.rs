//! The graph: a node and arc storage with an index from the caller's
//! identifiers to the storage's handles.

use crate::model::hops_from;
use crate::model::lemma_hops_from;
use crate::model::Ed;
use crate::model::GrfView;
use crate::model::Hop;
use crate::model::Link;
use crate::model::Nd;
use crate::model::STORE_LIMIT;
use crate::store::graph_edges;
use crate::store::graph_nodes;
use crate::store::store_add_edge;
use crate::store::store_add_node;
use crate::store::store_edge;
use crate::store::store_edge_count;
use crate::store::store_edges;
use crate::store::store_ends;
use crate::store::store_new;
use crate::store::store_node;
use crate::store::store_node_count;
use crate::store::store_set_edge;
use petgraph::graph::Graph;
use std::collections::HashMap;
use vstd::prelude::*;

verus! {

/// An arc was asked for between identifiers of which one, `id`, belongs to no
/// node of the graph.
#[derive(Clone, Copy, Debug, PartialEq, Eq, Structural)]
pub struct LookupError {
    pub id: usize,
}

/// A directed graph whose arcs carry a weight and a flow. An arc between two
/// nodes in both directions is two arcs.
pub struct Grf {
    g: Graph<Nd, Ed>,
    idx_map: HashMap<usize, usize>,
}

impl View for Grf {
    type V = GrfView;

    closed spec fn view(&self) -> GrfView {
        GrfView { nodes: graph_nodes(self.g), arcs: graph_edges(self.g), index: self.idx_map@ }
    }
}

impl Grf {
    /// The graph is well formed: see [`GrfView::wf`].
    pub open spec fn wf(&self) -> bool {
        self@.wf()
    }

    /// A graph without nodes and arcs.
    pub fn new() -> (r: Grf)
        ensures
            r.wf(),
            r@ == GrfView::empty(),
    {
        Grf { g: store_new(), idx_map: HashMap::new() }
    }

    /// The number of nodes.
    pub fn node_count(&self) -> (n: usize)
        ensures
            n == self@.nodes.len(),
    {
        store_node_count(&self.g)
    }

    /// The number of arcs.
    pub fn edge_count(&self) -> (n: usize)
        ensures
            n == self@.arcs.len(),
    {
        store_edge_count(&self.g)
    }

    /// Adds a node that bears the identifier `id` and returns its handle. The
    /// index leads `id` to the new node from now on, also where it led to an
    /// earlier node before; that node stays in the graph with its arcs.
    pub fn add_nd(&mut self, id: usize, val: i64, x: i64, y: i64) -> (h: usize)
        requires
            old(self).wf(),
            old(self)@.nodes.len() < STORE_LIMIT,
        ensures
            final(self).wf(),
            h == old(self)@.nodes.len(),
            final(self)@.nodes == old(self)@.nodes.push(Nd { id, val, x, y }),
            final(self)@.arcs == old(self)@.arcs,
            final(self)@.index == old(self)@.index.insert(id, h),
    {
        broadcast use vstd::std_specs::hash::group_hash_axioms;

        let nd = Nd { id, val, x, y };
        let h: usize = store_add_node(&mut self.g, nd);
        self.idx_map.insert(id, h);
        proof {
            let before = old(self)@;
            let after = self@;
            assert forall|i: int| 0 <= i < after.arcs.len() implies {
                &&& (#[trigger] after.arcs[i]).from < after.nodes.len()
                &&& after.arcs[i].to < after.nodes.len()
                &&& after.arcs[i].ed.flow <= after.arcs[i].ed.wt
            } by {
                assert(before.arcs[i] == after.arcs[i]);
            }
            assert forall|k: usize| #[trigger] after.index.contains_key(k) implies {
                &&& after.index[k] < after.nodes.len()
                &&& after.nodes[after.index[k] as int].id == k
            } by {
                if k != id {
                    assert(before.index.contains_key(k));
                }
            }
        }
        h
    }

    /// Adds an arc of weight `wt` and flow 0 between the nodes that the index
    /// gives for `from` and `to`. Where one of the two identifiers belongs to
    /// no node, the graph stays as it was and the error names the first such
    /// identifier.
    pub fn add_ed(&mut self, from: usize, to: usize, wt: u64) -> (r: Result<(), LookupError>)
        requires
            old(self).wf(),
            old(self)@.arcs.len() < STORE_LIMIT,
        ensures
            final(self).wf(),
            match r {
                Ok(_) => {
                    &&& old(self)@.index.contains_key(from)
                    &&& old(self)@.index.contains_key(to)
                    &&& final(self)@.nodes == old(self)@.nodes
                    &&& final(self)@.index == old(self)@.index
                    &&& final(self)@.arcs == old(self)@.arcs.push(
                        Link {
                            from: old(self)@.index[from],
                            to: old(self)@.index[to],
                            ed: Ed { wt, flow: 0 },
                        },
                    )
                },
                Err(e) => {
                    &&& final(self)@ == old(self)@
                    &&& !old(self)@.index.contains_key(e.id)
                    &&& if old(self)@.index.contains_key(from) {
                        e.id == to
                    } else {
                        e.id == from
                    }
                },
            },
    {
        broadcast use vstd::std_specs::hash::group_hash_axioms;

        let u: usize = match self.idx_map.get(&from) {
            Some(h) => *h,
            None => {
                return Err(LookupError { id: from });
            },
        };
        let v: usize = match self.idx_map.get(&to) {
            Some(h) => *h,
            None => {
                return Err(LookupError { id: to });
            },
        };
        proof {
            assert(self@.index.contains_key(from));
            assert(self@.index.contains_key(to));
        }
        let _: usize = store_add_edge(&mut self.g, u, v, Ed { wt, flow: 0 });
        proof {
            let before = old(self)@;
            let after = self@;
            assert forall|i: int| 0 <= i < after.arcs.len() implies {
                &&& (#[trigger] after.arcs[i]).from < after.nodes.len()
                &&& after.arcs[i].to < after.nodes.len()
                &&& after.arcs[i].ed.flow <= after.arcs[i].ed.wt
            } by {
                if i < before.arcs.len() {
                    assert(before.arcs[i] == after.arcs[i]);
                }
            }
        }
        Ok(())
    }

    /// The handle that the index gives for `id`, if it gives one.
    pub fn handle(&self, id: usize) -> (r: Option<usize>)
        ensures
            r == (if self@.index.contains_key(id) {
                Some(self@.index[id])
            } else {
                None
            }),
    {
        broadcast use vstd::std_specs::hash::group_hash_axioms;

        match self.idx_map.get(&id) {
            Some(h) => Some(*h),
            None => None,
        }
    }

    /// The payload of the node with handle `h`, if there is such a node.
    pub fn node(&self, h: usize) -> (r: Option<Nd>)
        requires
            self.wf(),
        ensures
            r == (if h < self@.nodes.len() {
                Some(self@.nodes[h as int])
            } else {
                None
            }),
    {
        if h < store_node_count(&self.g) {
            Some(store_node(&self.g, h))
        } else {
            None
        }
    }

    /// The arc with index `e`, if there is such an arc.
    pub fn arc(&self, e: usize) -> (r: Option<Link>)
        requires
            self.wf(),
        ensures
            r == (if e < self@.arcs.len() {
                Some(self@.arcs[e as int])
            } else {
                None
            }),
    {
        if e < store_edge_count(&self.g) {
            let ed: Ed = store_edge(&self.g, e);
            match store_ends(&self.g, e) {
                Some((from, to)) => Some(Link { from, to, ed }),
                None => None,
            }
        } else {
            None
        }
    }

    /// The identifier that the node with handle `h` bears.
    pub(crate) fn id_of(&self, h: usize) -> (id: usize)
        requires
            self.wf(),
            h < self@.nodes.len(),
        ensures
            id == self@.nodes[h as int].id,
    {
        store_node(&self.g, h).id
    }

    /// The payload of the arc with index `e`.
    pub(crate) fn payload(&self, e: usize) -> (ed: Ed)
        requires
            self.wf(),
            e < self@.arcs.len(),
        ensures
            ed == self@.arcs[e as int].ed,
    {
        store_edge(&self.g, e)
    }

    /// The arcs that leave the node with handle `a`, the one added last first.
    pub fn hops(&self, a: usize) -> (hops: Vec<Hop>)
        requires
            self.wf(),
            a < self@.nodes.len(),
        ensures
            hops@ == hops_from(self@.arcs, a),
            forall|k: int| 0 <= k < hops@.len() ==> self@.is_hop(a, #[trigger] hops@[k]),
            forall|i: int|
                0 <= i < self@.arcs.len() && (#[trigger] self@.arcs[i]).from == a
                    ==> hops@.contains(self@.hop_of(i)),
            forall|j: int, k: int|
                0 <= j < k < hops@.len() ==> (#[trigger] hops@[j]).edge > (#[trigger] hops@[k]).edge,
    {
        proof {
            lemma_hops_from(self@.arcs, a);
        }
        store_edges(&self.g, a)
    }

    /// Sets the flow of the arc with index `e`.
    pub(crate) fn set_flow(&mut self, e: usize, flow: u64)
        requires
            old(self).wf(),
            e < old(self)@.arcs.len(),
            flow <= old(self)@.arcs[e as int].ed.wt,
        ensures
            final(self).wf(),
            final(self)@.nodes == old(self)@.nodes,
            final(self)@.index == old(self)@.index,
            final(self)@.arcs == old(self)@.arcs.update(
                e as int,
                (Link {
                    from: old(self)@.arcs[e as int].from,
                    to: old(self)@.arcs[e as int].to,
                    ed: Ed { wt: old(self)@.arcs[e as int].ed.wt, flow },
                }),
            ),
    {
        let ed: Ed = store_edge(&self.g, e);
        store_set_edge(&mut self.g, e, Ed { wt: ed.wt, flow });
        proof {
            let before = old(self)@;
            let after = self@;
            assert forall|i: int| 0 <= i < after.arcs.len() implies {
                &&& (#[trigger] after.arcs[i]).from < after.nodes.len()
                &&& after.arcs[i].to < after.nodes.len()
                &&& after.arcs[i].ed.flow <= after.arcs[i].ed.wt
            } by {
                if i != e {
                    assert(before.arcs[i] == after.arcs[i]);
                } else {
                    assert(before.arcs[i].from < before.nodes.len());
                }
            }
            assert(after.nodes == before.nodes);
            assert(after.index == before.index);
            assert(after.arcs.len() == before.arcs.len());
            assert forall|k: usize| #[trigger] after.index.contains_key(k) implies {
                &&& after.index[k] < after.nodes.len()
                &&& after.nodes[after.index[k] as int].id == k
            } by {
                assert(before.index.contains_key(k));
            }
        }
    }
}

} // verus!
