//! The plain values that the graph is made of, and the mathematical model
//! that the contracts speak of.

use vstd::prelude::*;

verus! {

/// The payload of a node: the caller's identifier, a value and a position.
/// None of the algorithms reads the value or the position.
#[derive(Clone, Copy, Debug, PartialEq, Eq, Structural)]
pub struct Nd {
    pub id: usize,
    pub val: i64,
    pub x: i64,
    pub y: i64,
}

/// The payload of an arc: its weight, which is also its capacity, and the flow
/// that currently runs through it.
#[derive(Clone, Copy, Debug, PartialEq, Eq, Structural)]
pub struct Ed {
    pub wt: u64,
    pub flow: u64,
}

/// An arc as the storage holds it: the handles of its two ends and its payload.
#[derive(Clone, Copy, Debug, PartialEq, Eq, Structural)]
pub struct Link {
    pub from: usize,
    pub to: usize,
    pub ed: Ed,
}

/// One arc as seen from the node it leaves: its index, the handle of the node
/// it enters, and its payload.
#[derive(Clone, Copy, Debug, PartialEq, Eq, Structural)]
pub struct Hop {
    pub edge: usize,
    pub to: usize,
    pub ed: Ed,
}

/// The largest number of nodes, and of arcs, that the storage takes: its
/// handles are 32 bits wide and the last value is kept free.
pub const STORE_LIMIT: usize = 0xffff_ffff;

/// The arcs that leave `a`, the one added last first.
pub open spec fn hops_from(arcs: Seq<Link>, a: usize) -> Seq<Hop>
    decreases arcs.len(),
{
    if arcs.len() == 0 {
        Seq::empty()
    } else {
        let rest = hops_from(arcs.drop_last(), a);
        let last = arcs.last();
        if last.from == a {
            seq![Hop { edge: (arcs.len() - 1) as usize, to: last.to, ed: last.ed }] + rest
        } else {
            rest
        }
    }
}


/// What `hops_from` lists: each entry is an arc that leaves `a`, and every arc
/// that leaves `a` has its entry.
pub proof fn lemma_hops_from(arcs: Seq<Link>, a: usize)
    requires
        arcs.len() <= usize::MAX,
    ensures
        forall|j: int|
            0 <= j < hops_from(arcs, a).len() ==> {
                let h = #[trigger] hops_from(arcs, a)[j];
                h.edge < arcs.len() && arcs[h.edge as int] == (Link { from: a, to: h.to, ed: h.ed })
            },
        forall|i: int|
            0 <= i < arcs.len() && (#[trigger] arcs[i]).from == a ==> hops_from(arcs, a).contains(
                Hop { edge: i as usize, to: arcs[i].to, ed: arcs[i].ed },
            ),
        hops_from(arcs, a).len() <= arcs.len(),
        forall|j: int, k: int|
            0 <= j < k < hops_from(arcs, a).len() ==> (#[trigger] hops_from(arcs, a)[j]).edge > (
            #[trigger] hops_from(arcs, a)[k]).edge,
    decreases arcs.len(),
{
    if arcs.len() > 0 {
        let init = arcs.drop_last();
        let rest = hops_from(init, a);
        let last = arcs.last();
        let all = hops_from(arcs, a);
        lemma_hops_from(init, a);
        if last.from == a {
            let head = Hop { edge: (arcs.len() - 1) as usize, to: last.to, ed: last.ed };
            assert(all == seq![head] + rest);
            assert(all[0] == head);
            assert forall|j: int, k: int| 0 <= j < k < all.len() implies (#[trigger] all[j]).edge > (
            #[trigger] all[k]).edge by {
                assert(all[k] == rest[k - 1]);
                assert(rest[k - 1].edge < init.len());
                if j > 0 {
                    assert(all[j] == rest[j - 1]);
                }
            }
            assert forall|j: int| 0 <= j < all.len() implies {
                let h = #[trigger] all[j];
                h.edge < arcs.len() && arcs[h.edge as int] == (Link { from: a, to: h.to, ed: h.ed })
            } by {
                if j > 0 {
                    assert(all[j] == rest[j - 1]);
                    assert(init[rest[j - 1].edge as int] == arcs[rest[j - 1].edge as int]);
                }
            }
            assert forall|i: int| 0 <= i < arcs.len() && (#[trigger] arcs[i]).from == a implies all.contains(
                Hop { edge: i as usize, to: arcs[i].to, ed: arcs[i].ed },
            ) by {
                if i < arcs.len() - 1 {
                    assert(init[i] == arcs[i]);
                    let h = Hop { edge: i as usize, to: arcs[i].to, ed: arcs[i].ed };
                    assert(rest.contains(h));
                    let j = choose|j: int| 0 <= j < rest.len() && rest[j] == h;
                    assert(all[j + 1] == h);
                }
            }
        } else {
            assert(all == rest);
            assert forall|j: int| 0 <= j < all.len() implies {
                let h = #[trigger] all[j];
                h.edge < arcs.len() && arcs[h.edge as int] == (Link { from: a, to: h.to, ed: h.ed })
            } by {
                assert(init[rest[j].edge as int] == arcs[rest[j].edge as int]);
            }
            assert forall|i: int| 0 <= i < arcs.len() && (#[trigger] arcs[i]).from == a implies all.contains(
                Hop { edge: i as usize, to: arcs[i].to, ed: arcs[i].ed },
            ) by {
                assert(init[i] == arcs[i]);
            }
        }
    }
}

/// The graph as the contracts see it: the node payloads by handle, the arcs
/// by index, and the index from the caller's identifiers to handles.
pub struct GrfView {
    pub nodes: Seq<Nd>,
    pub arcs: Seq<Link>,
    pub index: Map<usize, usize>,
}

impl GrfView {
    /// The graph without nodes.
    pub open spec fn empty() -> GrfView {
        GrfView { nodes: Seq::empty(), arcs: Seq::empty(), index: Map::empty() }
    }

    /// Both sequences fit the storage, every arc joins two nodes of the graph
    /// and carries no more flow than its capacity, and the index leads each
    /// identifier to a node that bears it.
    pub open spec fn wf(self) -> bool {
        &&& self.nodes.len() <= STORE_LIMIT
        &&& self.arcs.len() <= STORE_LIMIT
        &&& forall|i: int|
            0 <= i < self.arcs.len() ==> {
                &&& (#[trigger] self.arcs[i]).from < self.nodes.len()
                &&& self.arcs[i].to < self.nodes.len()
                &&& self.arcs[i].ed.flow <= self.arcs[i].ed.wt
            }
        &&& forall|id: usize| #[trigger]
            self.index.contains_key(id) ==> {
                &&& self.index[id] < self.nodes.len()
                &&& self.nodes[self.index[id] as int].id == id
            }
    }

    /// `h` stands for an arc of the graph that leaves node `a`.
    pub open spec fn is_hop(self, a: usize, h: Hop) -> bool {
        h.edge < self.arcs.len() && self.arcs[h.edge as int] == (Link { from: a, to: h.to, ed: h.ed })
    }

    /// Arc `i` as seen from the node it leaves.
    pub open spec fn hop_of(self, i: int) -> Hop {
        Hop { edge: i as usize, to: self.arcs[i].to, ed: self.arcs[i].ed }
    }

    /// The same nodes, the same index and the same arcs with the same
    /// capacities: only the flows may differ.
    pub open spec fn same_shape(self, other: GrfView) -> bool {
        &&& self.nodes == other.nodes
        &&& self.index == other.index
        &&& self.arcs.len() == other.arcs.len()
        &&& forall|i: int|
            0 <= i < self.arcs.len() ==> {
                &&& (#[trigger] self.arcs[i]).from == other.arcs[i].from
                &&& self.arcs[i].to == other.arcs[i].to
                &&& self.arcs[i].ed.wt == other.arcs[i].ed.wt
            }
    }
}

impl GrfView {
    /// `p` lists the indices of arcs that lead from `a` to `b`, each entering
    /// the node that the next one leaves. The empty list leads from a node to
    /// itself.
    pub open spec fn is_path(self, p: Seq<usize>, a: usize, b: usize) -> bool {
        &&& forall|k: int| 0 <= k < p.len() ==> (#[trigger] p[k]) < self.arcs.len()
        &&& if p.len() == 0 {
            a == b
        } else {
            self.arcs[p[0] as int].from == a && self.arcs[p[p.len() - 1] as int].to == b
        }
        &&& forall|k: int|
            0 <= k < p.len() - 1 ==> self.arcs[(#[trigger] p[k]) as int].to == self.arcs[p[k
                + 1] as int].from
    }

    /// Some path leads from `a` to `b`.
    pub open spec fn reaches(self, a: usize, b: usize) -> bool {
        exists|p: Seq<usize>| #[trigger] self.is_path(p, a, b)
    }

    /// The handles of the nodes that the first node reaches, itself among
    /// them.
    pub open spec fn reached(self) -> Set<usize> {
        Set::new(|h: usize| self.reaches(0, h))
    }
}

/// A finite set of handles below `n` has at most `n` members.
pub proof fn lemma_bounded_set_len(s: Set<usize>, n: nat)
    requires
        s.finite(),
        forall|h: usize| s.contains(h) ==> h < n,
    ensures
        s.len() <= n,
    decreases n,
{
    if n == 0 {
        assert(s =~= Set::<usize>::empty());
    } else {
        let top = (n - 1) as usize;
        let rest = s.remove(top);
        assert forall|h: usize| rest.contains(h) implies h < n - 1 by {
            assert(s.contains(h));
        }
        lemma_bounded_set_len(rest, (n - 1) as nat);
    }
}

/// A path less its last arc is a path to the node that the last arc leaves.
pub proof fn lemma_path_init(g: GrfView, p: Seq<usize>, a: usize, b: usize)
    requires
        g.is_path(p, a, b),
        p.len() > 0,
    ensures
        g.is_path(p.drop_last(), a, g.arcs[p[p.len() - 1] as int].from),
        p[p.len() - 1] < g.arcs.len(),
        g.arcs[p[p.len() - 1] as int].to == b,
{
    let q = p.drop_last();
    assert forall|k: int| 0 <= k < q.len() implies (#[trigger] q[k]) < g.arcs.len() by {
        assert(q[k] == p[k]);
    }
    assert forall|k: int| 0 <= k < q.len() - 1 implies g.arcs[(#[trigger] q[k]) as int].to
        == g.arcs[q[k + 1] as int].from by {
        assert(q[k] == p[k]);
        assert(q[k + 1] == p[k + 1]);
    }
    if q.len() > 0 {
        assert(q[0] == p[0]);
        assert(q[q.len() - 1] == p[p.len() - 2]);
    }
}

} // verus!
