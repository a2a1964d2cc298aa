//! Maximum flow by shortest augmenting paths, along the arcs as they stand:
//! flow is pushed forward and never taken back.

use crate::graph::Grf;
use crate::model::GrfView;
use crate::model::Link;
use vstd::prelude::*;

verus! {

/// The flow that leaves node `v`: the sum of the flows of the arcs that leave it.
pub open spec fn flow_out(arcs: Seq<Link>, v: usize) -> int
    decreases arcs.len(),
{
    if arcs.len() == 0 {
        0
    } else {
        flow_out(arcs.drop_last(), v) + if arcs.last().from == v {
            arcs.last().ed.flow as int
        } else {
            0
        }
    }
}

/// The flow that enters node `v`: the sum of the flows of the arcs that enter it.
pub open spec fn flow_in(arcs: Seq<Link>, v: usize) -> int
    decreases arcs.len(),
{
    if arcs.len() == 0 {
        0
    } else {
        flow_in(arcs.drop_last(), v) + if arcs.last().to == v {
            arcs.last().ed.flow as int
        } else {
            0
        }
    }
}

/// The sum of the capacities of the arcs that leave node `v`.
pub open spec fn cap_out(arcs: Seq<Link>, v: usize) -> int
    decreases arcs.len(),
{
    if arcs.len() == 0 {
        0
    } else {
        cap_out(arcs.drop_last(), v) + if arcs.last().from == v {
            arcs.last().ed.wt as int
        } else {
            0
        }
    }
}

/// What all arcs together can still take.
pub open spec fn slack(arcs: Seq<Link>) -> int
    decreases arcs.len(),
{
    if arcs.len() == 0 {
        0
    } else {
        slack(arcs.drop_last()) + arcs.last().ed.wt - arcs.last().ed.flow
    }
}

/// Arc `e` with `b` more flow.
pub open spec fn pushed(arcs: Seq<Link>, e: int, b: int) -> Link {
    Link {
        from: arcs[e].from,
        to: arcs[e].to,
        ed: crate::model::Ed { wt: arcs[e].ed.wt, flow: (arcs[e].ed.flow + b) as u64 },
    }
}

/// Pushing `b` through one arc adds `b` to what leaves the node that the arc
/// leaves and to what enters the node that it enters, takes `b` from the
/// slack, and changes no other sum.
pub proof fn lemma_push_one(arcs: Seq<Link>, e: int, b: int, v: usize)
    requires
        0 <= e < arcs.len(),
        0 <= b,
        arcs[e].ed.flow + b <= u64::MAX,
    ensures
        flow_out(arcs.update(e, pushed(arcs, e, b)), v) == flow_out(arcs, v) + if arcs[e].from
            == v {
            b
        } else {
            0
        },
        flow_in(arcs.update(e, pushed(arcs, e, b)), v) == flow_in(arcs, v) + if arcs[e].to == v {
            b
        } else {
            0
        },
        cap_out(arcs.update(e, pushed(arcs, e, b)), v) == cap_out(arcs, v),
        slack(arcs.update(e, pushed(arcs, e, b))) == slack(arcs) - b,
    decreases arcs.len(),
{
    let after = arcs.update(e, pushed(arcs, e, b));
    if e == arcs.len() - 1 {
        assert(after.drop_last() =~= arcs.drop_last());
    } else {
        lemma_push_one(arcs.drop_last(), e, b, v);
        assert(after.drop_last() =~= arcs.drop_last().update(e, pushed(arcs.drop_last(), e, b)));
        assert(after.last() == arcs.last());
    }
}

/// Where no arc carries more than its capacity, no node sends out more than
/// the capacities of the arcs that leave it, and the slack is not negative.
pub proof fn lemma_flow_bounds(arcs: Seq<Link>, v: usize)
    requires
        forall|i: int| 0 <= i < arcs.len() ==> (#[trigger] arcs[i]).ed.flow <= arcs[i].ed.wt,
    ensures
        0 <= flow_out(arcs, v) <= cap_out(arcs, v),
        cap_out(arcs, v) <= arcs.len() * u64::MAX,
        0 <= flow_in(arcs, v),
        0 <= slack(arcs),
    decreases arcs.len(),
{
    if arcs.len() > 0 {
        let init = arcs.drop_last();
        assert forall|i: int| 0 <= i < init.len() implies (#[trigger] init[i]).ed.flow
            <= init[i].ed.wt by {
            assert(init[i] == arcs[i]);
        }
        lemma_flow_bounds(init, v);
        assert(arcs[arcs.len() - 1].ed.flow <= arcs[arcs.len() - 1].ed.wt);
        assert(arcs.len() * u64::MAX == init.len() * u64::MAX + u64::MAX) by (nonlinear_arith)
            requires
                arcs.len() == init.len() + 1,
        ;
    }
}

/// In a graph whose arcs carry no flow nothing enters or leaves any node, so
/// every node conserves its flow.
pub proof fn lemma_fresh_conserves(g: GrfView, v: usize)
    requires
        g.is_fresh(),
    ensures
        flow_in(g.arcs, v) == 0,
        flow_out(g.arcs, v) == 0,
        g.conserves(v),
{
    lemma_no_flow(g.arcs, v);
}

/// Arcs without flow add up to no flow.
pub proof fn lemma_no_flow(arcs: Seq<Link>, v: usize)
    requires
        forall|i: int| 0 <= i < arcs.len() ==> (#[trigger] arcs[i]).ed.flow == 0,
    ensures
        flow_in(arcs, v) == 0,
        flow_out(arcs, v) == 0,
    decreases arcs.len(),
{
    if arcs.len() > 0 {
        let init = arcs.drop_last();
        assert forall|i: int| 0 <= i < init.len() implies (#[trigger] init[i]).ed.flow == 0 by {
            assert(init[i] == arcs[i]);
        }
        lemma_no_flow(init, v);
        assert(arcs[arcs.len() - 1].ed.flow == 0);
    }
}

/// Arcs with the same ends and capacities give every node the same capacity
/// to send.
pub proof fn lemma_cap_out_same(a: Seq<Link>, b: Seq<Link>, v: usize)
    requires
        a.len() == b.len(),
        forall|i: int|
            0 <= i < a.len() ==> (#[trigger] a[i]).from == b[i].from && a[i].ed.wt == b[i].ed.wt,
    ensures
        cap_out(a, v) == cap_out(b, v),
    decreases a.len(),
{
    if a.len() > 0 {
        assert forall|i: int| 0 <= i < a.drop_last().len() implies (#[trigger] a.drop_last()[i]).from
            == b.drop_last()[i].from && a.drop_last()[i].ed.wt == b.drop_last()[i].ed.wt by {
            assert(a.drop_last()[i] == a[i]);
        }
        lemma_cap_out_same(a.drop_last(), b.drop_last(), v);
        assert(a[a.len() - 1].from == b[a.len() - 1].from);
    }
}

impl GrfView {
    /// One of the first `k` arcs of `p` leaves node `v`.
    pub open spec fn leaves(self, p: Seq<usize>, k: int, v: usize) -> bool {
        exists|j: int| 0 <= j < k && self.arcs[(#[trigger] p[j]) as int].from == v
    }

    /// One of the first `k` arcs of `p` enters node `v`.
    pub open spec fn enters(self, p: Seq<usize>, k: int, v: usize) -> bool {
        exists|j: int| 0 <= j < k && self.arcs[(#[trigger] p[j]) as int].to == v
    }

    /// What enters node `v` leaves it again.
    pub open spec fn conserves(self, v: usize) -> bool {
        flow_in(self.arcs, v) == flow_out(self.arcs, v)
    }

    /// No arc carries any flow.
    pub open spec fn is_fresh(self) -> bool {
        forall|i: int| 0 <= i < self.arcs.len() ==> (#[trigger] self.arcs[i]).ed.flow == 0
    }

    /// `i` is one of the first `k` entries of `p`.
    pub open spec fn among(p: Seq<usize>, k: int, i: int) -> bool {
        exists|j: int| 0 <= j < k && (#[trigger] p[j]) == i
    }
}

impl GrfView {
    /// `b` is the least of what the arcs of `p` can still take.
    pub open spec fn is_bottleneck(self, p: Seq<usize>, b: u64) -> bool {
        &&& forall|k: int| 0 <= k < p.len() ==> b <= self.residual((#[trigger] p[k]) as int)
        &&& exists|k: int| 0 <= k < p.len() && b == self.residual((#[trigger] p[k]) as int)
    }

    /// The graph with `b` more flow in every arc of `p`.
    pub open spec fn push_along(self, p: Seq<usize>, b: u64) -> GrfView {
        GrfView {
            nodes: self.nodes,
            index: self.index,
            arcs: Seq::new(
                self.arcs.len(),
                |i: int|
                    if p.contains(i as usize) {
                        pushed(self.arcs, i, b as int)
                    } else {
                        self.arcs[i]
                    },
            ),
        }
    }

    /// One round leads from this graph to `after` and pushes `b`: along the
    /// path from `s` to `t` that the breadth-first search finds, a shortest
    /// one among the paths whose arcs can all take more flow, `b` is the least
    /// of what its arcs can take and goes through each of them.
    pub open spec fn round(self, after: GrfView, s: usize, t: usize, b: u64) -> bool {
        exists|p: Seq<usize>|
            #![trigger self.is_augmenting(p, s, t)]
            {
                &&& p.len() > 0
                &&& self.is_augmenting(p, s, t)
                &&& self.is_simple(p, t)
                &&& self.none_shorter(s, t, p.len())
                &&& self.is_found(p, s, t)
                &&& self.is_bottleneck(p, b)
                &&& after == self.push_along(p, b)
            }
    }
}

/// The sum of what the rounds pushed.
pub open spec fn total_of(gains: Seq<u64>) -> int
    decreases gains.len(),
{
    if gains.len() == 0 {
        0
    } else {
        total_of(gains.drop_last()) + gains.last()
    }
}

/// `states` lists the graphs that a run of rounds passes through, and `gains`
/// what each round pushed.
pub open spec fn is_run(states: Seq<GrfView>, gains: Seq<u64>, s: usize, t: usize) -> bool {
    &&& states.len() == gains.len() + 1
    &&& forall|k: int|
        0 <= k < gains.len() ==> (#[trigger] states[k]).round(states[k + 1], s, t, gains[k])
}

/// Rounds lead from `before` to `after` and push `total` between them.
pub open spec fn flow_run(before: GrfView, after: GrfView, s: usize, t: usize, total: int) -> bool {
    exists|states: Seq<GrfView>, gains: Seq<u64>|
        #![trigger is_run(states, gains, s, t)]
        {
            &&& is_run(states, gains, s, t)
            &&& states[0] == before
            &&& states[states.len() - 1] == after
            &&& total == total_of(gains)
        }
}

impl Grf {
    /// The least of what the arcs of `path` can still take.
    fn bottleneck(&self, path: &Vec<usize>) -> (b: u64)
        requires
            self.wf(),
            path@.len() > 0,
            forall|k: int|
                0 <= k < path@.len() ==> (#[trigger] path@[k]) < self@.arcs.len()
                    && self@.residual(path@[k] as int) > 0,
        ensures
            b > 0,
            self@.is_bottleneck(path@, b),
    {
        let first = self.payload(path[0]);
        let mut b: u64 = first.wt - first.flow;
        let ghost mut at: int = 0;
        let mut k: usize = 1;
        while k < path.len()
            invariant
                self.wf(),
                1 <= k <= path@.len(),
                0 <= at < k,
                b == self@.residual(path@[at] as int),
                b > 0,
                forall|j: int|
                    0 <= j < path@.len() ==> (#[trigger] path@[j]) < self@.arcs.len()
                        && self@.residual(path@[j] as int) > 0,
                forall|j: int| 0 <= j < k ==> b <= self@.residual((#[trigger] path@[j]) as int),
            decreases path@.len() - k,
        {
            let ed = self.payload(path[k]);
            let r: u64 = ed.wt - ed.flow;
            if r < b {
                b = r;
                proof {
                    at = k as int;
                }
            }
            k += 1;
        }
        b
    }

    /// Pushes `b` through every arc of `path`.
    fn augment(&mut self, path: &Vec<usize>, b: u64, Ghost(s): Ghost<usize>, Ghost(t): Ghost<usize>)
        requires
            old(self).wf(),
            path@.len() > 0,
            b > 0,
            old(self)@.is_augmenting(path@, s, t),
            old(self)@.is_simple(path@, t),
            forall|k: int|
                0 <= k < path@.len() ==> b <= old(self)@.residual((#[trigger] path@[k]) as int),
        ensures
            final(self).wf(),
            final(self)@.same_shape(old(self)@),
            forall|i: int|
                0 <= i < old(self)@.arcs.len() ==> old(self)@.arcs[i].ed.flow <= (
                #[trigger] final(self)@.arcs[i]).ed.flow,
            forall|v: usize|
                v != s && v != t ==> flow_in(final(self)@.arcs, v) - flow_in(old(self)@.arcs, v)
                    == #[trigger] flow_out(final(self)@.arcs, v) - flow_out(old(self)@.arcs, v),
            flow_out(final(self)@.arcs, s) == flow_out(old(self)@.arcs, s) + b,
            flow_in(final(self)@.arcs, s) == flow_in(old(self)@.arcs, s),
            flow_in(final(self)@.arcs, t) == flow_in(old(self)@.arcs, t) + b,
            flow_out(final(self)@.arcs, t) == flow_out(old(self)@.arcs, t),
            slack(final(self)@.arcs) < slack(old(self)@.arcs),
            final(self)@ == old(self)@.push_along(path@, b),
    {
        let ghost g0 = self@;
        let mut k: usize = 0;
        while k < path.len()
            invariant
                self.wf(),
                k <= path@.len(),
                path@.len() > 0,
                b > 0,
                g0.wf(),
                g0.is_augmenting(path@, s, t),
                g0.is_simple(path@, t),
                forall|j: int| 0 <= j < path@.len() ==> b <= g0.residual((#[trigger] path@[j]) as int),
                self@.same_shape(g0),
                forall|i: int|
                    0 <= i < g0.arcs.len() ==> (#[trigger] self@.arcs[i]).ed.flow
                        == g0.arcs[i].ed.flow + if GrfView::among(path@, k as int, i) {
                        b as int
                    } else {
                        0
                    },
                forall|v: usize|
                    #[trigger] flow_out(self@.arcs, v) == flow_out(g0.arcs, v) + if g0.leaves(
                        path@,
                        k as int,
                        v,
                    ) {
                        b as int
                    } else {
                        0
                    },
                forall|v: usize|
                    #[trigger] flow_in(self@.arcs, v) == flow_in(g0.arcs, v) + if g0.enters(
                        path@,
                        k as int,
                        v,
                    ) {
                        b as int
                    } else {
                        0
                    },
                slack(self@.arcs) <= slack(g0.arcs) - if k > 0 {
                    b as int
                } else {
                    0
                },
            decreases path@.len() - k,
        {
            let e: usize = path[k];
            let ghost cur = self@;
            proof {
                assert(!GrfView::among(path@, k as int, e as int)) by {
                    if GrfView::among(path@, k as int, e as int) {
                        let j = choose|j: int| 0 <= j < k && (#[trigger] path@[j]) == e as int;
                        assert(g0.arcs[path@[j] as int].from != g0.arcs[path@[k as int] as int].from);
                    }
                }
                assert(b <= g0.residual(path@[k as int] as int));
                assert(cur.arcs[e as int].ed.flow == g0.arcs[e as int].ed.flow);
            }
            let ed = self.payload(e);
            self.set_flow(e, ed.flow + b);
            proof {
                let from = g0.arcs[e as int].from;
                let to = g0.arcs[e as int].to;
                assert(self@.arcs =~= cur.arcs.update(e as int, pushed(cur.arcs, e as int, b as int)));
                assert forall|i: int| 0 <= i < g0.arcs.len() implies (#[trigger] self@.arcs[i]).ed.flow
                    == g0.arcs[i].ed.flow + if GrfView::among(path@, k + 1, i) {
                    b as int
                } else {
                    0
                } by {
                    assert(cur.arcs[i].ed.flow == g0.arcs[i].ed.flow + if GrfView::among(
                        path@,
                        k as int,
                        i,
                    ) {
                        b as int
                    } else {
                        0
                    });
                    if i == e {
                        assert(path@[k as int] == i);
                    } else {
                        if GrfView::among(path@, k + 1, i) {
                            let j = choose|j: int| 0 <= j < k + 1 && (#[trigger] path@[j]) == i;
                            assert(j < k);
                        }
                        if GrfView::among(path@, k as int, i) {
                            let j = choose|j: int| 0 <= j < k && (#[trigger] path@[j]) == i;
                            assert(j < k + 1);
                        }
                    }
                }
                assert forall|v: usize|
                    #[trigger] flow_out(self@.arcs, v) == flow_out(g0.arcs, v) + if g0.leaves(
                        path@,
                        k + 1,
                        v,
                    ) {
                        b as int
                    } else {
                        0
                    } by {
                    lemma_push_one(cur.arcs, e as int, b as int, v);
                    assert(flow_out(cur.arcs, v) == flow_out(g0.arcs, v) + if g0.leaves(
                        path@,
                        k as int,
                        v,
                    ) {
                        b as int
                    } else {
                        0
                    });
                    if from == v {
                        assert(g0.arcs[path@[k as int] as int].from == v);
                        if g0.leaves(path@, k as int, v) {
                            let j = choose|j: int|
                                0 <= j < k && g0.arcs[(#[trigger] path@[j]) as int].from == v;
                            assert(g0.arcs[path@[j] as int].from != g0.arcs[path@[k as int] as int].from);
                        }
                    } else {
                        if g0.leaves(path@, k + 1, v) {
                            let j = choose|j: int|
                                0 <= j < k + 1 && g0.arcs[(#[trigger] path@[j]) as int].from == v;
                            assert(j < k);
                        }
                        if g0.leaves(path@, k as int, v) {
                            let j = choose|j: int|
                                0 <= j < k && g0.arcs[(#[trigger] path@[j]) as int].from == v;
                            assert(j < k + 1);
                        }
                    }
                }
                assert forall|v: usize|
                    #[trigger] flow_in(self@.arcs, v) == flow_in(g0.arcs, v) + if g0.enters(
                        path@,
                        k + 1,
                        v,
                    ) {
                        b as int
                    } else {
                        0
                    } by {
                    lemma_push_one(cur.arcs, e as int, b as int, v);
                    assert(flow_in(cur.arcs, v) == flow_in(g0.arcs, v) + if g0.enters(
                        path@,
                        k as int,
                        v,
                    ) {
                        b as int
                    } else {
                        0
                    });
                    if to == v {
                        assert(g0.arcs[path@[k as int] as int].to == v);
                        if g0.enters(path@, k as int, v) {
                            let j = choose|j: int|
                                0 <= j < k && g0.arcs[(#[trigger] path@[j]) as int].to == v;
                            assert(g0.arcs[path@[j] as int].to == g0.arcs[path@[j + 1] as int].from);
                            if k + 1 < path@.len() {
                                assert(g0.arcs[path@[k as int] as int].to == g0.arcs[path@[k
                                    + 1] as int].from);
                                assert(g0.arcs[path@[j + 1] as int].from != g0.arcs[path@[k
                                    + 1] as int].from);
                            } else {
                                assert(g0.arcs[path@[j + 1] as int].from != t);
                            }
                        }
                    } else {
                        if g0.enters(path@, k + 1, v) {
                            let j = choose|j: int|
                                0 <= j < k + 1 && g0.arcs[(#[trigger] path@[j]) as int].to == v;
                            assert(j < k);
                        }
                        if g0.enters(path@, k as int, v) {
                            let j = choose|j: int|
                                0 <= j < k && g0.arcs[(#[trigger] path@[j]) as int].to == v;
                            assert(j < k + 1);
                        }
                    }
                }
                lemma_push_one(cur.arcs, e as int, b as int, 0);
            }
            k += 1;
        }
        proof {
            let m = path@.len() as int;
            assert(self@.arcs =~= g0.push_along(path@, b).arcs) by {
                assert forall|i: int| 0 <= i < g0.arcs.len() implies self@.arcs[i] == g0.push_along(
                    path@,
                    b,
                ).arcs[i] by {
                    assert(self@.arcs[i].from == g0.arcs[i].from);
                    assert(self@.arcs[i].ed.flow == g0.arcs[i].ed.flow + if GrfView::among(
                        path@,
                        m,
                        i,
                    ) {
                        b as int
                    } else {
                        0
                    });
                    if GrfView::among(path@, m, i) {
                        let j = choose|j: int| 0 <= j < m && (#[trigger] path@[j]) == i;
                        assert(path@[j] == i as usize);
                        assert(path@.contains(i as usize));
                    }
                    if path@.contains(i as usize) {
                        let j = choose|j: int| 0 <= j < path@.len() && path@[j] == i as usize;
                        assert(path@[j] == i);
                        assert(GrfView::among(path@, m, i));
                    }
                }
            }
            assert forall|i: int| 0 <= i < g0.arcs.len() implies g0.arcs[i].ed.flow <= (
            #[trigger] self@.arcs[i]).ed.flow by {}
            assert(g0.leaves(path@, m, s)) by {
                assert(g0.arcs[path@[0] as int].from == s);
            }
            assert(g0.enters(path@, m, t)) by {
                assert(g0.arcs[path@[m - 1] as int].to == t);
            }
            assert(!g0.leaves(path@, m, t)) by {
                if g0.leaves(path@, m, t) {
                    let j = choose|j: int| 0 <= j < m && g0.arcs[(#[trigger] path@[j]) as int].from == t;
                    assert(g0.arcs[path@[j] as int].from != t);
                }
            }
            assert(!g0.enters(path@, m, s)) by {
                if g0.enters(path@, m, s) {
                    let j = choose|j: int| 0 <= j < m && g0.arcs[(#[trigger] path@[j]) as int].to == s;
                    if j < m - 1 {
                        assert(g0.arcs[path@[j] as int].to == g0.arcs[path@[j + 1] as int].from);
                        assert(g0.arcs[path@[0] as int].from != g0.arcs[path@[j + 1] as int].from);
                    } else {
                        assert(g0.arcs[path@[0] as int].from != t);
                    }
                }
            }
            assert forall|v: usize| v != s && v != t implies flow_in(self@.arcs, v) - flow_in(
                g0.arcs,
                v,
            ) == #[trigger] flow_out(self@.arcs, v) - flow_out(g0.arcs, v) by {
                assert(flow_in(self@.arcs, v) == flow_in(g0.arcs, v) + if g0.enters(path@, m, v) {
                    b as int
                } else {
                    0
                });
                if g0.leaves(path@, m, v) {
                    let j = choose|j: int| 0 <= j < m && g0.arcs[(#[trigger] path@[j]) as int].from == v;
                    assert(j > 0);
                    assert(g0.arcs[path@[j - 1] as int].to == g0.arcs[path@[j - 1 + 1] as int].from);
                    assert(g0.enters(path@, m, v));
                }
                if g0.enters(path@, m, v) {
                    let j = choose|j: int| 0 <= j < m && g0.arcs[(#[trigger] path@[j]) as int].to == v;
                    assert(j < m - 1);
                    assert(g0.arcs[path@[j] as int].to == g0.arcs[path@[j + 1] as int].from);
                    assert(g0.leaves(path@, m, v));
                }
            }
        }
    }
}

impl Grf {
    /// Pushes flow from the node that bears `s` to the node that bears `t`
    /// until no path of arcs that can take more leads from the one to the
    /// other, and returns how much was pushed. Each round takes a path found
    /// by [`Grf::find_path`] and pushes through all its arcs the least of
    /// what they can take. Flow is only ever added to an arc: no flow is
    /// taken back to make room for a better routing, so on graphs that need
    /// that the result stays under the greatest possible flow.
    pub fn max_flow(&mut self, s: usize, t: usize) -> (total: u128)
        requires
            old(self).wf(),
            old(self)@.index.contains_key(s),
            old(self)@.index.contains_key(t),
        ensures
            final(self).wf(),
            final(self)@.same_shape(old(self)@),
            forall|i: int|
                0 <= i < old(self)@.arcs.len() ==> old(self)@.arcs[i].ed.flow <= (
                #[trigger] final(self)@.arcs[i]).ed.flow,
            !final(self)@.augmentable(old(self)@.index[s], old(self)@.index[t]),
            !old(self)@.augmentable(old(self)@.index[s], old(self)@.index[t]) ==> total == 0
                && final(self)@ == old(self)@,
            old(self)@.augmentable(old(self)@.index[s], old(self)@.index[t]) ==> total > 0,
            forall|v: usize|
                v != old(self)@.index[s] && v != old(self)@.index[t] ==> flow_in(
                    final(self)@.arcs,
                    v,
                ) - flow_in(old(self)@.arcs, v) == #[trigger] flow_out(final(self)@.arcs, v)
                    - flow_out(old(self)@.arcs, v),
            old(self)@.index[s] != old(self)@.index[t] ==> {
                &&& flow_out(final(self)@.arcs, old(self)@.index[s]) == flow_out(
                    old(self)@.arcs,
                    old(self)@.index[s],
                ) + total
                &&& flow_in(final(self)@.arcs, old(self)@.index[s]) == flow_in(
                    old(self)@.arcs,
                    old(self)@.index[s],
                )
                &&& flow_in(final(self)@.arcs, old(self)@.index[t]) == flow_in(
                    old(self)@.arcs,
                    old(self)@.index[t],
                ) + total
                &&& flow_out(final(self)@.arcs, old(self)@.index[t]) == flow_out(
                    old(self)@.arcs,
                    old(self)@.index[t],
                )
            },
            total <= cap_out(old(self)@.arcs, old(self)@.index[s]),
            forall|v: usize|
                v != old(self)@.index[s] && v != old(self)@.index[t] && old(self)@.conserves(v)
                    ==> #[trigger] final(self)@.conserves(v),
            forall|i: int|
                0 <= i < final(self)@.arcs.len() ==> (#[trigger] final(self)@.arcs[i]).ed.flow
                    <= final(self)@.arcs[i].ed.wt,
            !old(self)@.reaches(old(self)@.index[s], old(self)@.index[t]) ==> total == 0
                && final(self)@ == old(self)@,
            flow_run(
                old(self)@,
                final(self)@,
                old(self)@.index[s],
                old(self)@.index[t],
                total as int,
            ),
    {
        let source: usize = match self.handle(s) {
            Some(h) => h,
            None => vstd::pervasive::unreached(),
        };
        let sink: usize = match self.handle(t) {
            Some(h) => h,
            None => vstd::pervasive::unreached(),
        };
        let ghost g0 = self@;
        let ghost mut states: Seq<GrfView> = seq![g0];
        let ghost mut gains: Seq<u64> = Seq::empty();
        let mut total: u128 = 0;
        proof {
            assert(g0.index.contains_key(s));
            assert(g0.index.contains_key(t));
            lemma_flow_bounds(g0.arcs, source);
        }
        loop
            invariant
                self.wf(),
                g0.wf(),
                g0 == old(self)@,
                source == g0.index[s],
                sink == g0.index[t],
                source < g0.nodes.len(),
                sink < g0.nodes.len(),
                self@.same_shape(g0),
                forall|i: int|
                    0 <= i < g0.arcs.len() ==> g0.arcs[i].ed.flow <= (
                    #[trigger] self@.arcs[i]).ed.flow,
                total == 0 ==> self@ == g0,
                total > 0 ==> g0.augmentable(source, sink),
                forall|v: usize|
                    v != source && v != sink ==> flow_in(self@.arcs, v) - flow_in(g0.arcs, v)
                        == #[trigger] flow_out(self@.arcs, v) - flow_out(g0.arcs, v),
                source != sink ==> {
                    &&& flow_out(self@.arcs, source) == flow_out(g0.arcs, source) + total
                    &&& flow_in(self@.arcs, source) == flow_in(g0.arcs, source)
                    &&& flow_in(self@.arcs, sink) == flow_in(g0.arcs, sink) + total
                    &&& flow_out(self@.arcs, sink) == flow_out(g0.arcs, sink)
                },
                source == sink ==> total == 0,
                total <= cap_out(g0.arcs, source),
                is_run(states, gains, source, sink),
                states[0] == g0,
                states[states.len() - 1] == self@,
                total == total_of(gains),
            ensures
                !self@.augmentable(source, sink),
                total == 0 ==> g0.augmentable(source, sink) == self@.augmentable(source, sink),
            decreases slack(self@.arcs),
        {
            let path: Vec<usize> = self.find_path(source, sink);
            if path.len() == 0 {
                break ;
            }
            let b: u64 = self.bottleneck(&path);
            let ghost cur = self@;
            proof {
                lemma_flow_bounds(cur.arcs, source);
                lemma_flow_bounds(g0.arcs, source);
                lemma_cap_out_same(cur.arcs, g0.arcs, source);
                assert(cap_out(g0.arcs, source) <= 0xffff_ffff * u64::MAX) by (nonlinear_arith)
                    requires
                        cap_out(g0.arcs, source) <= g0.arcs.len() * u64::MAX,
                        g0.arcs.len() <= 0xffff_ffff,
                ;
            }
            self.augment(&path, b, Ghost(source), Ghost(sink));
            proof {
                lemma_flow_bounds(self@.arcs, source);
                lemma_cap_out_same(self@.arcs, g0.arcs, source);
                assert forall|v: usize| v != source && v != sink implies flow_in(self@.arcs, v)
                    - flow_in(g0.arcs, v) == #[trigger] flow_out(self@.arcs, v) - flow_out(
                    g0.arcs,
                    v,
                ) by {
                    assert(flow_in(cur.arcs, v) - flow_in(g0.arcs, v) == flow_out(cur.arcs, v)
                        - flow_out(g0.arcs, v));
                    assert(flow_in(self@.arcs, v) - flow_in(cur.arcs, v) == flow_out(
                        self@.arcs,
                        v,
                    ) - flow_out(cur.arcs, v));
                }
                assert forall|i: int| 0 <= i < g0.arcs.len() implies g0.arcs[i].ed.flow <= (
                #[trigger] self@.arcs[i]).ed.flow by {
                    assert(g0.arcs[i].ed.flow <= cur.arcs[i].ed.flow);
                }
                assert(self@.same_shape(g0)) by {
                    assert forall|i: int| 0 <= i < self@.arcs.len() implies {
                        &&& (#[trigger] self@.arcs[i]).from == g0.arcs[i].from
                        &&& self@.arcs[i].to == g0.arcs[i].to
                        &&& self@.arcs[i].ed.wt == g0.arcs[i].ed.wt
                    } by {
                        assert(cur.arcs[i].from == g0.arcs[i].from);
                    }
                }
            }
            total = total + b as u128;
            proof {
                let states0 = states;
                let gains0 = gains;
                assert(cur.round(self@, source, sink, b)) by {
                    assert(cur.is_augmenting(path@, source, sink));
                }
                states = states0.push(self@);
                gains = gains0.push(b);
                assert(gains.drop_last() =~= gains0);
                assert forall|k: int| 0 <= k < gains.len() implies (#[trigger] states[k]).round(
                    states[k + 1],
                    source,
                    sink,
                    gains[k],
                ) by {
                    if k < gains0.len() {
                        assert(states0[k].round(states0[k + 1], source, sink, gains0[k]));
                    }
                }
            }
        }
        proof {
            if g0.augmentable(source, sink) {
                let p = choose|p: Seq<usize>| #[trigger] g0.is_augmenting(p, source, sink);
                assert(g0.is_path(p, source, sink));
            }
            assert forall|v: usize|
                v != source && v != sink && g0.conserves(v) implies #[trigger] self@.conserves(
                v,
            ) by {
                assert(flow_in(self@.arcs, v) - flow_in(g0.arcs, v) == flow_out(self@.arcs, v)
                    - flow_out(g0.arcs, v));
            }
        }
        total
    }
}

} // verus!
