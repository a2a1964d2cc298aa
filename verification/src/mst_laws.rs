//! What holds of every tree that [`Grf::mst`](crate::graph::Grf::mst) can
//! return: it spans what the first node reaches, and where each arc has its
//! twin in the other direction no connected set of arcs is lighter.

use crate::model::GrfView;
use vstd::prelude::*;

verus! {

/// The sum of the weights in a list of arcs given as identifiers and weight.
pub open spec fn weight_of(res: Seq<(usize, usize, u64)>) -> int
    decreases res.len(),
{
    if res.len() == 0 {
        0
    } else {
        weight_of(res.drop_last()) + res.last().2
    }
}

/// The sum of the weights of the arcs of `arcs` whose index is in `chosen` and
/// below `m`.
pub open spec fn weight_upto(arcs: Seq<crate::model::Link>, chosen: Set<int>, m: int) -> int
    decreases m,
{
    if m <= 0 {
        0
    } else {
        weight_upto(arcs, chosen, m - 1) + if chosen.contains(m - 1) {
            arcs[m - 1].ed.wt as int
        } else {
            0
        }
    }
}

impl GrfView {
    /// The sum of the weights of the arcs whose index is in `chosen`.
    pub open spec fn weight(self, chosen: Set<int>) -> int {
        weight_upto(self.arcs, chosen, self.arcs.len() as int)
    }

    /// Arc `j` runs opposite to arc `i` and weighs the same.
    pub open spec fn twin(self, i: int, j: int) -> bool {
        &&& 0 <= j < self.arcs.len()
        &&& self.arcs[j].from == self.arcs[i].to
        &&& self.arcs[j].to == self.arcs[i].from
        &&& self.arcs[j].ed.wt == self.arcs[i].ed.wt
    }

    /// Some arc runs opposite to arc `i` and weighs the same.
    pub open spec fn has_twin(self, i: int) -> bool {
        exists|j: int| #[trigger] self.twin(i, j)
    }

    /// Every arc has a twin: the graph stands for an undirected one.
    pub open spec fn symmetric(self) -> bool {
        forall|i: int| 0 <= i < self.arcs.len() ==> #[trigger] self.has_twin(i)
    }

    /// An arc of `chosen` joins `a` and `b`, in one direction or the other.
    pub open spec fn joined(self, chosen: Set<int>, a: usize, b: usize) -> bool {
        exists|i: int|
            #![trigger self.arcs[i]]
            chosen.contains(i) && 0 <= i < self.arcs.len() && ((self.arcs[i].from == a
                && self.arcs[i].to == b) || (self.arcs[i].from == b && self.arcs[i].to == a))
    }

    /// `w` lists nodes of which each is joined to the next by an arc of
    /// `chosen`.
    pub open spec fn is_walk(self, chosen: Set<int>, w: Seq<usize>) -> bool {
        &&& w.len() > 0
        &&& forall|k: int| 0 <= k < w.len() - 1 ==> #[trigger] self.joined(chosen, w[k], w[k + 1])
    }

    /// A walk along arcs of `chosen` leads from `a` to `b`.
    pub open spec fn linked(self, chosen: Set<int>, a: usize, b: usize) -> bool {
        exists|w: Seq<usize>| #[trigger]
            self.is_walk(chosen, w) && w[0] == a && w[w.len() - 1] == b
    }

    /// `chosen` is a set of arcs of the graph that connects every node with
    /// the first, the direction of the arcs left aside. Every spanning tree of
    /// the graph is such a set.
    pub open spec fn spans(self, chosen: Set<int>) -> bool {
        &&& forall|i: int| chosen.contains(i) ==> 0 <= i < self.arcs.len()
        &&& forall|h: usize| h < self.nodes.len() ==> #[trigger] self.linked(chosen, 0, h)
    }

    /// Arc `i` has one end in `side` and the other outside it.
    pub open spec fn splits(self, side: Set<usize>, i: int) -> bool {
        side.contains(self.arcs[i].from) != side.contains(self.arcs[i].to)
    }

    /// Some arc of `chosen` has one end in `side` and the other outside it.
    pub open spec fn cut_crossed(self, chosen: Set<int>, side: Set<usize>) -> bool {
        exists|i: int|
            #![trigger self.splits(side, i)]
            chosen.contains(i) && 0 <= i < self.arcs.len() && self.splits(side, i)
    }

    /// Whatever set of nodes holds the first node and lacks another, an arc of
    /// `chosen` leads out of it or into it.
    pub open spec fn cut_spans(self, chosen: Set<int>) -> bool {
        forall|side: Set<usize>, h: usize|
            #![trigger self.cut_crossed(chosen, side), side.contains(h)]
            side.contains(0) && h < self.nodes.len() && !side.contains(h) ==> self.cut_crossed(
                chosen,
                side,
            )
    }

    /// No arc of `chosen` with both ends outside `tree` has one end in `part`
    /// and the other outside it.
    pub open spec fn closed_outside(self, chosen: Set<int>, tree: Set<usize>, part: Set<usize>) -> bool {
        forall|i: int|
            #![trigger self.splits(part, i)]
            chosen.contains(i) && 0 <= i < self.arcs.len() && !tree.contains(self.arcs[i].from)
                && !tree.contains(self.arcs[i].to) ==> !self.splits(part, i)
    }

    /// `z` lies in every set that holds `v` and is closed in the sense of
    /// `closed_outside`: arcs of `chosen` outside `tree` connect it with `v`.
    pub open spec fn beside(self, chosen: Set<int>, tree: Set<usize>, v: usize, z: usize) -> bool {
        forall|part: Set<usize>|
            #![trigger self.closed_outside(chosen, tree, part)]
            self.closed_outside(chosen, tree, part) && part.contains(v) ==> part.contains(z)
    }

    /// The sum of the weights of the first `k` arcs of `t`.
    pub open spec fn trace_weight(self, t: Seq<int>, k: int) -> int
        decreases k,
    {
        if k <= 0 {
            0
        } else {
            self.trace_weight(t, k - 1) + self.arcs[t[k - 1]].ed.wt
        }
    }
}

/// Taking an arc out of a set takes its weight from the sum.
pub proof fn lemma_weight_remove(arcs: Seq<crate::model::Link>, chosen: Set<int>, i: int, m: int)
    requires
        chosen.contains(i),
        0 <= i,
    ensures
        weight_upto(arcs, chosen.remove(i), m) == weight_upto(arcs, chosen, m) - if i < m {
            arcs[i].ed.wt as int
        } else {
            0
        },
    decreases m,
{
    if m > 0 {
        lemma_weight_remove(arcs, chosen, i, m - 1);
    }
}

/// Putting a new arc into a set adds its weight to the sum.
pub proof fn lemma_weight_insert(arcs: Seq<crate::model::Link>, chosen: Set<int>, i: int, m: int)
    requires
        !chosen.contains(i),
        0 <= i,
    ensures
        weight_upto(arcs, chosen.insert(i), m) == weight_upto(arcs, chosen, m) + if i < m {
            arcs[i].ed.wt as int
        } else {
            0
        },
    decreases m,
{
    if m > 0 {
        lemma_weight_insert(arcs, chosen, i, m - 1);
    }
}

/// The empty set weighs nothing.
pub proof fn lemma_weight_empty(arcs: Seq<crate::model::Link>, m: int)
    ensures
        weight_upto(arcs, Set::<int>::empty(), m) == 0,
    decreases m,
{
    if m > 0 {
        lemma_weight_empty(arcs, m - 1);
    }
}

/// No sum of weights is negative.
pub proof fn lemma_weight_nonneg(arcs: Seq<crate::model::Link>, chosen: Set<int>, m: int)
    ensures
        weight_upto(arcs, chosen, m) >= 0,
    decreases m,
{
    if m > 0 {
        lemma_weight_nonneg(arcs, chosen, m - 1);
    }
}

/// The tree only grows, holds the first node, and along a run of Prim's
/// algorithm holds nodes of the graph only.
pub proof fn lemma_tree_nodes_grow(g: GrfView, t: Seq<int>, j: int, k: int)
    requires
        0 <= j <= k,
    ensures
        g.tree_nodes(t, j).subset_of(g.tree_nodes(t, k)),
        g.tree_nodes(t, k).contains(0),
        g.tree_nodes(t, k).finite(),
    decreases k,
{
    if k > 0 {
        if j < k {
            lemma_tree_nodes_grow(g, t, j, k - 1);
        } else {
            lemma_tree_nodes_grow(g, t, k - 1, k - 1);
        }
    }
}

/// Both ends of each arc of a run lie in the tree grown along it.
pub proof fn lemma_tree_holds_ends(g: GrfView, t: Seq<int>, j: int, k: int)
    requires
        g.prim_run(t),
        0 <= j < k <= t.len(),
    ensures
        0 <= t[j] < g.arcs.len(),
        g.tree_nodes(t, k).contains(g.arcs[t[j]].from),
        g.tree_nodes(t, k).contains(g.arcs[t[j]].to),
        !g.tree_nodes(t, j).contains(g.arcs[t[j]].to),
{
    assert(g.prim_step(t, j));
    lemma_tree_nodes_grow(g, t, j, k);
    lemma_tree_nodes_grow(g, t, j + 1, k);
    assert(g.tree_nodes(t, j + 1).contains(g.arcs[t[j]].to));
}

/// The tree grown along the first `k` arcs of a run has `k + 1` nodes.
pub proof fn lemma_tree_size(g: GrfView, t: Seq<int>, k: int)
    requires
        g.prim_run(t),
        0 <= k <= t.len(),
    ensures
        g.tree_nodes(t, k).finite(),
        g.tree_nodes(t, k).len() == k + 1,
    decreases k,
{
    if k > 0 {
        lemma_tree_size(g, t, k - 1);
        lemma_tree_holds_ends(g, t, k - 1, k);
    } else {
        assert(g.tree_nodes(t, 0) =~= Set::<usize>::empty().insert(0));
    }
}

/// The first node reaches every node of the tree grown along a run.
pub proof fn lemma_tree_is_reached(g: GrfView, t: Seq<int>, k: int, h: usize)
    requires
        g.wf(),
        g.prim_run(t),
        0 <= k <= t.len(),
        g.tree_nodes(t, k).contains(h),
    ensures
        g.reaches(0, h),
    decreases k,
{
    if k == 0 {
        assert(h == 0);
        assert(g.is_path(Seq::<usize>::empty(), 0, h));
    } else if g.tree_nodes(t, k - 1).contains(h) {
        lemma_tree_is_reached(g, t, k - 1, h);
    } else {
        let e = t[k - 1];
        assert(g.prim_step(t, k - 1));
        let u = g.arcs[e].from;
        lemma_tree_is_reached(g, t, k - 1, u);
        let p = choose|p: Seq<usize>| #[trigger] g.is_path(p, 0, u);
        let q = p.push(e as usize);
        assert(g.is_path(q, 0, h)) by {
            assert forall|j: int| 0 <= j < q.len() implies (#[trigger] q[j]) < g.arcs.len() by {
                if j < p.len() {
                    assert(q[j] == p[j]);
                }
            }
            assert forall|j: int| 0 <= j < q.len() - 1 implies g.arcs[(#[trigger] q[j]) as int].to
                == g.arcs[q[j + 1] as int].from by {
                assert(q[j] == p[j]);
                if j + 1 < p.len() {
                    assert(q[j + 1] == p[j + 1]);
                }
            }
            if p.len() > 0 {
                assert(q[0] == p[0]);
            }
        }
    }
}

/// A path that starts in a set which no arc leaves ends in that set.
pub proof fn lemma_path_stays(g: GrfView, seen: Set<usize>, p: Seq<usize>, a: usize, b: usize)
    requires
        forall|i: int| !#[trigger] g.crossing(seen, i),
        seen.contains(a),
        g.is_path(p, a, b),
    ensures
        seen.contains(b),
    decreases p.len(),
{
    if p.len() > 0 {
        let q = p.drop_last();
        let last = p[p.len() - 1];
        let mid = g.arcs[last as int].from;
        crate::model::lemma_path_init(g, p, a, b);
        lemma_path_stays(g, seen, q, a, mid);
        assert(!g.crossing(seen, last as int));
    }
}

/// The tree that a complete run of Prim's algorithm grows holds exactly the
/// nodes that the first node reaches.
pub proof fn lemma_tree_spans_reached(g: GrfView, t: Seq<int>)
    requires
        g.wf(),
        g.prim_run(t),
        g.prim_complete(t),
    ensures
        g.tree_nodes(t, t.len() as int) == g.reached(),
{
    let tree = g.tree_nodes(t, t.len() as int);
    assert forall|h: usize| tree.contains(h) <==> g.reached().contains(h) by {
        if tree.contains(h) {
            lemma_tree_is_reached(g, t, t.len() as int, h);
        }
        if g.reaches(0, h) {
            let p = choose|p: Seq<usize>| #[trigger] g.is_path(p, 0, h);
            lemma_tree_nodes_grow(g, t, 0, t.len() as int);
            lemma_path_stays(g, tree, p, 0, h);
        }
    }
    assert(tree =~= g.reached());
}

/// Edge count: where the first node reaches N nodes, itself among them, the
/// tree that `mst` returns has N - 1 arcs.
pub proof fn lemma_mst_edge_count(g: GrfView, res: Seq<(usize, usize, u64)>)
    requires
        g.wf(),
        g.nodes.len() > 0,
        g.is_mst(res),
    ensures
        g.reached().finite(),
        res.len() + 1 == g.reached().len(),
{
    let t = choose|t: Seq<int>|
        #![trigger g.prim_run(t)]
        g.prim_run(t) && g.prim_complete(t) && res == g.tree_edges(t);
    lemma_tree_spans_reached(g, t);
    lemma_tree_size(g, t, t.len() as int);
}

/// A walk that starts inside a set of nodes and is outside it after `m`
/// steps has an arc that leads out of the set.
pub proof fn lemma_walk_leaves(g: GrfView, chosen: Set<int>, side: Set<usize>, w: Seq<usize>, m: int)
    requires
        g.is_walk(chosen, w),
        0 <= m < w.len(),
        side.contains(w[0]),
        !side.contains(w[m]),
    ensures
        g.cut_crossed(chosen, side),
    decreases m,
{
    if side.contains(w[m - 1]) {
        assert(g.joined(chosen, w[m - 1], w[m - 1 + 1]));
        let i = choose|i: int|
            #![trigger g.arcs[i]]
            chosen.contains(i) && 0 <= i < g.arcs.len() && ((g.arcs[i].from == w[m - 1]
                && g.arcs[i].to == w[m]) || (g.arcs[i].from == w[m] && g.arcs[i].to == w[m - 1]));
        assert(g.splits(side, i));
    } else {
        lemma_walk_leaves(g, chosen, side, w, m - 1);
    }
}

/// A set of arcs that connects every node with the first crosses every cut
/// that parts a node from the first.
pub proof fn lemma_spans_cuts(g: GrfView, chosen: Set<int>)
    requires
        g.spans(chosen),
    ensures
        g.cut_spans(chosen),
{
    assert forall|side: Set<usize>, h: usize|
        #![trigger g.cut_crossed(chosen, side), side.contains(h)]
        side.contains(0) && h < g.nodes.len() && !side.contains(h) implies g.cut_crossed(
        chosen,
        side,
    ) by {
        assert(g.linked(chosen, 0, h));
        let w = choose|w: Seq<usize>| #[trigger]
            g.is_walk(chosen, w) && w[0] == 0 && w[w.len() - 1] == h;
        lemma_walk_leaves(g, chosen, side, w, w.len() - 1);
    }
}

/// Where no arc of `chosen` leaves or enters a set that holds the first node,
/// and `chosen` holds the first `k` arcs of a run, the set holds the tree
/// grown along them.
pub proof fn lemma_tree_in_side(g: GrfView, t: Seq<int>, chosen: Set<int>, side: Set<usize>, k: int)
    requires
        g.prim_run(t),
        0 <= k <= t.len(),
        side.contains(0),
        forall|j: int| 0 <= j < k ==> chosen.contains(#[trigger] t[j]),
        !g.cut_crossed(chosen, side),
    ensures
        g.tree_nodes(t, k).subset_of(side),
    decreases k,
{
    if k > 0 {
        lemma_tree_in_side(g, t, chosen, side, k - 1);
        assert(g.prim_step(t, k - 1));
        assert(chosen.contains(t[k - 1]));
        assert(!g.splits(side, t[k - 1]));
    }
}

/// One step of the exchange: a connected set of arcs that holds the first `k`
/// arcs of a run can take the next arc of the run in, in place of one of its
/// own, and stay connected without growing heavier.
pub proof fn lemma_exchange_step(g: GrfView, t: Seq<int>, chosen: Set<int>, k: int) -> (next: Set<int>)
    requires
        g.wf(),
        g.symmetric(),
        g.prim_run(t),
        0 <= k < t.len(),
        g.cut_spans(chosen),
        forall|i: int| chosen.contains(i) ==> 0 <= i < g.arcs.len(),
        forall|j: int| 0 <= j < k ==> chosen.contains(#[trigger] t[j]),
    ensures
        g.cut_spans(next),
        forall|i: int| next.contains(i) ==> 0 <= i < g.arcs.len(),
        forall|j: int| 0 <= j <= k ==> next.contains(#[trigger] t[j]),
        g.weight(next) <= g.weight(chosen),
{
    let e = t[k];
    let tree = g.tree_nodes(t, k);
    let m = g.arcs.len() as int;
    assert(g.prim_step(t, k));
    let u = g.arcs[e].from;
    let v = g.arcs[e].to;
    if chosen.contains(e) {
        chosen
    } else {
        let beside = Set::new(|z: usize| g.beside(chosen, tree, v, z));
        let outside = Set::new(|z: usize| !tree.contains(z));
        assert(g.closed_outside(chosen, tree, outside));
        assert forall|z: usize| beside.contains(z) implies !tree.contains(z) by {
            assert(g.beside(chosen, tree, v, z));
            assert(outside.contains(v));
            assert(outside.contains(z));
        }
        assert(g.closed_outside(chosen, tree, beside)) by {
            assert forall|i: int|
                #![trigger g.splits(beside, i)]
                chosen.contains(i) && 0 <= i < g.arcs.len() && !tree.contains(g.arcs[i].from)
                    && !tree.contains(g.arcs[i].to) implies !g.splits(beside, i) by {
                let a = g.arcs[i].from;
                let b = g.arcs[i].to;
                if beside.contains(a) {
                    assert(g.beside(chosen, tree, v, a));
                    assert forall|part: Set<usize>|
                        #![trigger g.closed_outside(chosen, tree, part)]
                        g.closed_outside(chosen, tree, part) && part.contains(
                            v,
                        ) implies part.contains(b) by {
                        assert(part.contains(a));
                        assert(!g.splits(part, i));
                    }
                    assert(g.beside(chosen, tree, v, b));
                }
                if beside.contains(b) {
                    assert(g.beside(chosen, tree, v, b));
                    assert forall|part: Set<usize>|
                        #![trigger g.closed_outside(chosen, tree, part)]
                        g.closed_outside(chosen, tree, part) && part.contains(
                            v,
                        ) implies part.contains(a) by {
                        assert(part.contains(b));
                        assert(!g.splits(part, i));
                    }
                    assert(g.beside(chosen, tree, v, a));
                }
            }
        }
        let side = Set::new(|z: usize| !beside.contains(z));
        lemma_tree_nodes_grow(g, t, 0, k);
        assert(tree.contains(0));
        assert(side.contains(0));
        assert(g.beside(chosen, tree, v, v));
        assert(beside.contains(v));
        assert(!side.contains(v));
        assert(g.cut_crossed(chosen, side));
        let away = choose|i: int|
            #![trigger g.splits(side, i)]
            chosen.contains(i) && 0 <= i < g.arcs.len() && g.splits(side, i);
        let x = if beside.contains(g.arcs[away].to) {
            g.arcs[away].from
        } else {
            g.arcs[away].to
        };
        let y = if beside.contains(g.arcs[away].to) {
            g.arcs[away].to
        } else {
            g.arcs[away].from
        };
        assert(beside.contains(y) && !beside.contains(x));
        assert(!tree.contains(y));
        assert(tree.contains(x)) by {
            if !tree.contains(x) {
                assert(!g.splits(beside, away));
            }
        }
        assert(g.arcs[e].ed.wt <= g.arcs[away].ed.wt) by {
            if g.arcs[away].from == x {
                assert(g.crossing(tree, away));
            } else {
                assert(g.has_twin(away));
                let j = choose|j: int| #[trigger] g.twin(away, j);
                assert(g.crossing(tree, j));
            }
        }
        let next = chosen.remove(away).insert(e);
        lemma_weight_remove(g.arcs, chosen, away, m);
        lemma_weight_insert(g.arcs, chosen.remove(away), e, m);
        assert forall|j: int| 0 <= j <= k implies next.contains(#[trigger] t[j]) by {
            if j < k {
                lemma_tree_holds_ends(g, t, j, k);
            }
        }
        assert forall|cut: Set<usize>, h: usize|
            #![trigger g.cut_crossed(next, cut), cut.contains(h)]
            cut.contains(0) && h < g.nodes.len() && !cut.contains(h) implies g.cut_crossed(
            next,
            cut,
        ) by {
            if !g.cut_crossed(next, cut) {
                assert(g.cut_crossed(chosen, cut));
                let f = choose|i: int|
                    #![trigger g.splits(cut, i)]
                    chosen.contains(i) && 0 <= i < g.arcs.len() && g.splits(cut, i);
                if f != away {
                    assert(next.contains(f));
                    assert(g.splits(cut, f));
                    assert(false);
                }
                assert(next.contains(e));
                assert(!g.splits(cut, e));
                lemma_tree_in_side(g, t, next, cut, k);
                assert(cut.contains(x));
                assert(cut.contains(u));
                assert(cut.contains(v));
                let part = Set::new(|z: usize| cut.contains(z) && !tree.contains(z));
                assert(g.closed_outside(chosen, tree, part)) by {
                    assert forall|i: int|
                        #![trigger g.splits(part, i)]
                        chosen.contains(i) && 0 <= i < g.arcs.len() && !tree.contains(
                            g.arcs[i].from,
                        ) && !tree.contains(g.arcs[i].to) implies !g.splits(part, i) by {
                        assert(i != away);
                        assert(next.contains(i));
                        assert(!g.splits(cut, i));
                    }
                }
                assert(g.beside(chosen, tree, v, y));
                assert(part.contains(v));
                assert(part.contains(y));
                assert(cut.contains(y));
                assert(!g.splits(cut, away));
                assert(false);
            }
        }
        next
    }
}

/// The exchange, step after step: a connected set of arcs can take the first
/// `k` arcs of a run in and stay connected without growing heavier.
pub proof fn lemma_exchange(g: GrfView, t: Seq<int>, chosen: Set<int>, k: int) -> (next: Set<int>)
    requires
        g.wf(),
        g.symmetric(),
        g.prim_run(t),
        0 <= k <= t.len(),
        g.cut_spans(chosen),
        forall|i: int| chosen.contains(i) ==> 0 <= i < g.arcs.len(),
    ensures
        g.cut_spans(next),
        forall|i: int| next.contains(i) ==> 0 <= i < g.arcs.len(),
        forall|j: int| 0 <= j < k ==> next.contains(#[trigger] t[j]),
        g.weight(next) <= g.weight(chosen),
    decreases k,
{
    if k == 0 {
        chosen
    } else {
        let mid = lemma_exchange(g, t, chosen, k - 1);
        lemma_exchange_step(g, t, mid, k - 1)
    }
}

/// A set of arcs that holds the first `k` arcs of a run weighs at least as
/// much as they do.
pub proof fn lemma_trace_weight_lower(g: GrfView, t: Seq<int>, chosen: Set<int>, k: int)
    requires
        g.prim_run(t),
        0 <= k <= t.len(),
        forall|j: int| 0 <= j < k ==> chosen.contains(#[trigger] t[j]),
    ensures
        g.trace_weight(t, k) <= g.weight(chosen),
    decreases k,
{
    if k == 0 {
        lemma_weight_nonneg(g.arcs, chosen, g.arcs.len() as int);
    } else {
        let last = t[k - 1];
        let rest = chosen.remove(last);
        lemma_tree_holds_ends(g, t, k - 1, k);
        assert forall|j: int| 0 <= j < k - 1 implies rest.contains(#[trigger] t[j]) by {
            lemma_tree_holds_ends(g, t, j, k - 1);
            assert(chosen.contains(t[j]));
        }
        lemma_trace_weight_lower(g, t, rest, k - 1);
        lemma_weight_remove(g.arcs, chosen, last, g.arcs.len() as int);
    }
}

/// The weight of the first `k` arcs does not depend on the arcs behind them.
pub proof fn lemma_trace_weight_prefix(g: GrfView, t: Seq<int>, r: Seq<int>, k: int)
    requires
        0 <= k <= t.len(),
        k <= r.len(),
        forall|j: int| 0 <= j < k ==> t[j] == r[j],
    ensures
        g.trace_weight(t, k) == g.trace_weight(r, k),
    decreases k,
{
    if k > 0 {
        lemma_trace_weight_prefix(g, t, r, k - 1);
    }
}

/// The weights in the list that stands for a run add up to the weight of the
/// run's arcs.
pub proof fn lemma_weight_of_trace(g: GrfView, t: Seq<int>)
    ensures
        weight_of(g.tree_edges(t)) == g.trace_weight(t, t.len() as int),
    decreases t.len(),
{
    if t.len() > 0 {
        let init = t.drop_last();
        lemma_weight_of_trace(g, init);
        assert(g.tree_edges(t).drop_last() =~= g.tree_edges(init));
        lemma_trace_weight_prefix(g, init, t, init.len() as int);
    }
}

/// Weight-optimality: in a graph where every arc has its twin, the tree that
/// `mst` returns weighs no more than any set of arcs that connects all the
/// nodes, and so no more than any spanning tree.
pub proof fn lemma_mst_minimal(g: GrfView, res: Seq<(usize, usize, u64)>, other: Set<int>)
    requires
        g.wf(),
        g.symmetric(),
        g.is_mst(res),
        g.spans(other),
    ensures
        weight_of(res) <= g.weight(other),
{
    let t = choose|t: Seq<int>|
        #![trigger g.prim_run(t)]
        g.prim_run(t) && g.prim_complete(t) && res == g.tree_edges(t);
    lemma_spans_cuts(g, other);
    let swapped = lemma_exchange(g, t, other, t.len() as int);
    lemma_trace_weight_lower(g, t, swapped, t.len() as int);
    lemma_weight_of_trace(g, t);
}

/// The indices of the first `k` arcs of `t`, as a set.
pub open spec fn trace_set(t: Seq<int>, k: int) -> Set<int> {
    Set::new(|i: int| exists|j: int| 0 <= j < k && #[trigger] t[j] == i)
}

/// The arcs of a run connect every node of the tree grown along it with the
/// first node.
pub proof fn lemma_tree_linked(g: GrfView, t: Seq<int>, k: int, h: usize)
    requires
        g.prim_run(t),
        0 <= k <= t.len(),
        g.tree_nodes(t, k).contains(h),
    ensures
        g.linked(trace_set(t, t.len() as int), 0, h),
    decreases k,
{
    let all = trace_set(t, t.len() as int);
    if k == 0 {
        let w = seq![0usize];
        assert(g.is_walk(all, w) && w[0] == 0 && w[w.len() - 1] == h);
    } else if g.tree_nodes(t, k - 1).contains(h) {
        lemma_tree_linked(g, t, k - 1, h);
    } else {
        let e = t[k - 1];
        assert(g.prim_step(t, k - 1));
        let u = g.arcs[e].from;
        lemma_tree_linked(g, t, k - 1, u);
        let w = choose|w: Seq<usize>| #[trigger]
            g.is_walk(all, w) && w[0] == 0 && w[w.len() - 1] == u;
        let longer = w.push(h);
        assert(all.contains(e));
        assert(g.arcs[e].from == u && g.arcs[e].to == h);
        assert(g.joined(all, u, h));
        assert forall|j: int| 0 <= j < longer.len() - 1 implies #[trigger] g.joined(
            all,
            longer[j],
            longer[j + 1],
        ) by {
            if j < w.len() - 1 {
                assert(g.joined(all, w[j], w[j + 1]));
            }
        }
        assert(g.is_walk(all, longer) && longer[0] == 0 && longer[longer.len() - 1] == h);
    }
}

/// The set of the first `k` arcs of a run weighs what they weigh together.
pub proof fn lemma_trace_set_weight(g: GrfView, t: Seq<int>, k: int)
    requires
        g.prim_run(t),
        0 <= k <= t.len(),
    ensures
        g.weight(trace_set(t, k)) == g.trace_weight(t, k),
    decreases k,
{
    if k == 0 {
        assert(trace_set(t, 0) =~= Set::<int>::empty());
        lemma_weight_empty(g.arcs, g.arcs.len() as int);
    } else {
        lemma_trace_set_weight(g, t, k - 1);
        let before = trace_set(t, k - 1);
        let last = t[k - 1];
        lemma_tree_holds_ends(g, t, k - 1, k);
        assert(!before.contains(last)) by {
            if before.contains(last) {
                let j = choose|j: int| 0 <= j < k - 1 && #[trigger] t[j] == last;
                lemma_tree_holds_ends(g, t, j, k - 1);
            }
        }
        assert(trace_set(t, k) =~= before.insert(last)) by {
            assert forall|i: int| trace_set(t, k).contains(i) <==> before.insert(last).contains(
                i,
            ) by {
                if trace_set(t, k).contains(i) {
                    let j = choose|j: int| 0 <= j < k && #[trigger] t[j] == i;
                    if j < k - 1 {
                        assert(before.contains(i));
                    }
                }
                if before.contains(i) {
                    let j = choose|j: int| 0 <= j < k - 1 && #[trigger] t[j] == i;
                    assert(0 <= j < k && t[j] == i);
                }
                if i == last {
                    assert(t[k - 1] == i);
                }
            }
        }
        lemma_weight_insert(g.arcs, before, last, g.arcs.len() as int);
    }
}

/// Where the first node reaches every node, the tree that `mst` returns is
/// itself a set of arcs that connects all the nodes: the least weight of such
/// sets is the weight of the tree.
pub proof fn lemma_mst_attains(g: GrfView, res: Seq<(usize, usize, u64)>)
    requires
        g.wf(),
        g.is_mst(res),
        forall|h: usize| h < g.nodes.len() ==> g.reaches(0, h),
    ensures
        exists|own: Set<int>| #[trigger] g.spans(own) && g.weight(own) == weight_of(res),
{
    let t = choose|t: Seq<int>|
        #![trigger g.prim_run(t)]
        g.prim_run(t) && g.prim_complete(t) && res == g.tree_edges(t);
    let own = trace_set(t, t.len() as int);
    lemma_tree_spans_reached(g, t);
    assert forall|i: int| own.contains(i) implies 0 <= i < g.arcs.len() by {
        let j = choose|j: int| 0 <= j < t.len() && #[trigger] t[j] == i;
        lemma_tree_holds_ends(g, t, j, t.len() as int);
    }
    assert forall|h: usize| h < g.nodes.len() implies #[trigger] g.linked(own, 0, h) by {
        assert(g.reaches(0, h));
        assert(g.reached().contains(h));
        lemma_tree_linked(g, t, t.len() as int, h);
    }
    lemma_trace_set_weight(g, t, t.len() as int);
    lemma_weight_of_trace(g, t);
    assert(g.spans(own) && g.weight(own) == weight_of(res));
}

/// Two runs of Prim's algorithm on one graph take the same arcs as far as
/// both go.
pub proof fn lemma_runs_agree(g: GrfView, a: Seq<int>, b: Seq<int>, k: int)
    requires
        g.wf(),
        g.prim_run(a),
        g.prim_run(b),
        0 <= k <= a.len(),
        k <= b.len(),
    ensures
        forall|j: int| 0 <= j < k ==> a[j] == b[j],
        g.tree_nodes(a, k) == g.tree_nodes(b, k),
    decreases k,
{
    if k > 0 {
        lemma_runs_agree(g, a, b, k - 1);
        assert(g.prim_step(a, k - 1));
        assert(g.prim_step(b, k - 1));
        assert(g.crossing(g.tree_nodes(a, k - 1), b[k - 1]));
        assert(g.crossing(g.tree_nodes(b, k - 1), a[k - 1]));
    }
}

/// A graph has one complete run of Prim's algorithm.
pub proof fn lemma_run_unique(g: GrfView, a: Seq<int>, b: Seq<int>)
    requires
        g.wf(),
        g.prim_run(a),
        g.prim_complete(a),
        g.prim_run(b),
        g.prim_complete(b),
    ensures
        a == b,
{
    if a.len() <= b.len() {
        lemma_runs_agree(g, a, b, a.len() as int);
        if a.len() < b.len() {
            assert(g.prim_step(b, a.len() as int));
            assert(g.crossing(g.tree_nodes(a, a.len() as int), b[a.len() as int]));
        }
    } else {
        lemma_runs_agree(g, a, b, b.len() as int);
        assert(g.prim_step(a, b.len() as int));
        assert(g.crossing(g.tree_nodes(b, b.len() as int), a[b.len() as int]));
    }
    assert(a =~= b);
}

/// The graph determines what `mst` returns: two lists that both meet its
/// contract are the same list.
pub proof fn lemma_mst_unique(g: GrfView, first: Seq<(usize, usize, u64)>, second: Seq<(usize, usize, u64)>)
    requires
        g.wf(),
        g.is_mst(first),
        g.is_mst(second),
    ensures
        first == second,
{
    let a = choose|t: Seq<int>|
        #![trigger g.prim_run(t)]
        g.prim_run(t) && g.prim_complete(t) && first == g.tree_edges(t);
    let b = choose|t: Seq<int>|
        #![trigger g.prim_run(t)]
        g.prim_run(t) && g.prim_complete(t) && second == g.tree_edges(t);
    lemma_run_unique(g, a, b);
}

} // verus!
