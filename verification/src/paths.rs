//! Paths along arcs that can take more flow, and the breadth-first search
//! that finds a shortest one.

use crate::graph::Grf;
use crate::model::lemma_bounded_set_len;
use crate::model::lemma_path_init;
use crate::model::GrfView;
use crate::model::Hop;
use std::collections::HashMap;
use std::collections::HashSet;
use std::collections::VecDeque;
use vstd::prelude::*;

verus! {


impl GrfView {
    /// What arc `i` can still take: its capacity less its flow.
    pub open spec fn residual(self, i: int) -> int {
        self.arcs[i].ed.wt - self.arcs[i].ed.flow
    }

    /// `p` leads from `a` to `b` along arcs that can all take more flow.
    pub open spec fn is_augmenting(self, p: Seq<usize>, a: usize, b: usize) -> bool {
        &&& self.is_path(p, a, b)
        &&& forall|k: int| 0 <= k < p.len() ==> self.residual((#[trigger] p[k]) as int) > 0
    }

    /// Flow can still be pushed from `a` to another node `b`.
    pub open spec fn augmentable(self, a: usize, b: usize) -> bool {
        a != b && exists|p: Seq<usize>| #[trigger] self.is_augmenting(p, a, b)
    }

    /// The path `p`, which ends in `b`, passes no node twice: no two of its arcs
    /// leave the same node, and none leaves `b`.
    pub open spec fn is_simple(self, p: Seq<usize>, b: usize) -> bool {
        &&& forall|j: int, k: int|
            0 <= j < k < p.len() ==> self.arcs[(#[trigger] p[j]) as int].from != self.arcs[(
            #[trigger] p[k]) as int].from
        &&& forall|k: int| 0 <= k < p.len() ==> self.arcs[(#[trigger] p[k]) as int].from != b
    }

    /// Every arc that leaves a node of `seen` and can take more flow enters a
    /// node of `seen`.
    pub open spec fn residual_closed(self, seen: Set<usize>) -> bool {
        forall|i: int|
            0 <= i < self.arcs.len() && seen.contains((#[trigger] self.arcs[i]).from)
                && self.residual(i) > 0 ==> seen.contains(self.arcs[i].to)
    }
}

/// A path along arcs that can take more flow, less its last arc, is such a
/// path to the node that the last arc leaves.
pub proof fn lemma_augmenting_init(g: GrfView, p: Seq<usize>, a: usize, b: usize)
    requires
        g.is_augmenting(p, a, b),
        p.len() > 0,
    ensures
        g.is_augmenting(p.drop_last(), a, g.arcs[p[p.len() - 1] as int].from),
        p[p.len() - 1] < g.arcs.len(),
        g.arcs[p[p.len() - 1] as int].to == b,
        g.residual(p[p.len() - 1] as int) > 0,
{
    let q = p.drop_last();
    lemma_path_init(g, p, a, b);
    assert forall|k: int| 0 <= k < q.len() implies g.residual((#[trigger] q[k]) as int) > 0 by {
        assert(q[k] == p[k]);
    }
}

/// A path along arcs that can take more flow does not leave a set that is
/// closed under such arcs.
pub proof fn lemma_closed_holds_paths(g: GrfView, seen: Set<usize>, p: Seq<usize>, a: usize, b: usize)
    requires
        g.residual_closed(seen),
        seen.contains(a),
        g.is_augmenting(p, a, b),
    ensures
        seen.contains(b),
    decreases p.len(),
{
    if p.len() > 0 {
        let q = p.drop_last();
        let last = p[p.len() - 1];
        let mid = g.arcs[last as int].from;
        lemma_augmenting_init(g, p, a, b);
        lemma_closed_holds_paths(g, seen, q, a, mid);
        assert(g.residual(last as int) > 0);
    }
}

/// The entries of `v` in the opposite order.
fn reversed(v: &Vec<usize>) -> (r: Vec<usize>)
    ensures
        r@.len() == v@.len(),
        forall|k: int| 0 <= k < r@.len() ==> r@[k] == v@[v@.len() - 1 - k],
{
    let mut r: Vec<usize> = Vec::new();
    let mut k: usize = v.len();
    while k > 0
        invariant
            k <= v@.len(),
            r@.len() == v@.len() - k,
            forall|j: int| 0 <= j < r@.len() ==> r@[j] == v@[v@.len() - 1 - j],
        decreases k,
    {
        k -= 1;
        r.push(v[k]);
    }
    r
}

impl GrfView {
    /// `prev` holds a tree of arcs that can take more flow, rooted in `s`: it
    /// gives every node of the tree but `s` the node before it and the arc
    /// between the two, and `dist` counts the arcs from `s` to each node.
    pub open spec fn is_tree(self, s: usize, prev: Map<usize, (usize, usize)>, dist: Map<usize, nat>) -> bool {
        &&& !prev.contains_key(s)
        &&& dist[s] == 0
        &&& forall|v: usize| #[trigger]
            prev.contains_key(v) ==> {
                let e = prev[v].1;
                &&& e < self.arcs.len()
                &&& self.arcs[e as int].to == v
                &&& self.arcs[e as int].from == prev[v].0
                &&& self.residual(e as int) > 0
                &&& (prev[v].0 == s || prev.contains_key(prev[v].0))
                &&& dist[v] == dist[prev[v].0] + 1
            }
    }

    /// What a search from `s` knows of the nodes it has seen: `prev` gives each
    /// of them but `s` the node it was seen from and the arc between the two,
    /// an arc that can take more flow, and `dist` counts the arcs back to `s`.
    pub open spec fn search_tree(
        self,
        s: usize,
        seen: Set<usize>,
        prev: Map<usize, (usize, usize)>,
        dist: Map<usize, nat>,
    ) -> bool {
        &&& forall|v: usize| #[trigger] prev.contains_key(v) <==> seen.contains(v) && v != s
        &&& forall|v: usize| #[trigger]
            prev.contains_key(v) ==> {
                let e = prev[v].1;
                &&& e < self.arcs.len()
                &&& self.arcs[e as int].to == v
                &&& self.arcs[e as int].from == prev[v].0
                &&& seen.contains(prev[v].0)
                &&& self.residual(e as int) > 0
                &&& dist[v] == dist[prev[v].0] + 1
            }
    }

    /// What a search knows of the nodes it is done with: it has seen them, and
    /// every node that an arc which can take more flow leads to from one of
    /// them, at most one arc farther from the start.
    pub open spec fn search_done(self, seen: Set<usize>, done: Set<usize>, dist: Map<usize, nat>) -> bool {
        &&& forall|h: usize| done.contains(h) ==> seen.contains(h)
        &&& forall|i: int|
            0 <= i < self.arcs.len() && done.contains((#[trigger] self.arcs[i]).from)
                && self.residual(i) > 0 ==> seen.contains(self.arcs[i].to) && dist[self.arcs[i].to]
                <= dist[self.arcs[i].from] + 1
    }

    /// The nodes that a search from `s` has found along the first `k` arcs of
    /// `run`: `s` itself, and the node that each of those arcs enters.
    pub open spec fn found_nodes(self, s: usize, run: Seq<int>, k: int) -> Set<usize>
        decreases k,
    {
        if k <= 0 {
            set![s]
        } else {
            self.found_nodes(s, run, k - 1).insert(self.arcs[run[k - 1]].to)
        }
    }

    /// Arc `i` leads out of `seen` and can take more flow.
    pub open spec fn open_arc(self, seen: Set<usize>, i: int) -> bool {
        self.crossing(seen, i) && self.residual(i) > 0
    }

    /// Along the first `k` arcs of `run`, the search from `s` found node `a`
    /// before node `b`.
    pub open spec fn found_before(self, s: usize, run: Seq<int>, k: int, a: usize, b: usize) -> bool {
        a != b && (a == s || exists|ja: int, jb: int|
            0 <= ja < jb < k && self.arcs[#[trigger] run[ja]].to == a && self.arcs[
            #[trigger] run[jb]].to == b)
    }

    /// The search looks at arc `i` no later than at arc `j`: it found the node
    /// that `i` leaves before the node that `j` leaves, or both leave the same
    /// node and `i` was added to the graph no earlier than `j`.
    pub open spec fn looks_first(self, s: usize, run: Seq<int>, k: int, i: int, j: int) -> bool {
        if self.arcs[i].from == self.arcs[j].from {
            i >= j
        } else {
            self.found_before(s, run, k, self.arcs[i].from, self.arcs[j].from)
        }
    }

    /// The arc `run[k]` is the one by which a breadth-first search from `s` that
    /// has found its way along the first `k` arcs of `run` finds its next node:
    /// of the arcs that lead out of what it has found and can take more flow,
    /// the one it looks at first.
    pub open spec fn search_step(self, s: usize, run: Seq<int>, k: int) -> bool {
        &&& self.open_arc(self.found_nodes(s, run, k), run[k])
        &&& forall|i: int| #[trigger]
            self.open_arc(self.found_nodes(s, run, k), i) ==> self.looks_first(s, run, k, run[k], i)
    }

    /// `run` lists the arcs by which a breadth-first search from `s` finds one
    /// node after the other.
    pub open spec fn search_run(self, s: usize, run: Seq<int>) -> bool {
        forall|k: int| 0 <= k < run.len() ==> #[trigger] self.search_step(s, run, k)
    }

    /// The arcs of `p` are among those by which the breadth-first search from
    /// `s` has found its nodes when it finds `t`.
    pub open spec fn is_found(self, p: Seq<usize>, s: usize, t: usize) -> bool {
        exists|run: Seq<int>|
            #![trigger self.search_run(s, run)]
            {
                &&& self.search_run(s, run)
                &&& run.len() > 0
                &&& self.arcs[run[run.len() - 1]].to == t
                &&& forall|k: int| 0 <= k < p.len() ==> run.contains((#[trigger] p[k]) as int)
            }
    }

    /// The place of each found node in the run: `ord` counts the arcs of `run`
    /// up to the one by which the node was found, which is the arc that `prev`
    /// holds for it.
    pub open spec fn search_order(
        self,
        s: usize,
        prev: Map<usize, (usize, usize)>,
        ord: Map<usize, nat>,
        run: Seq<int>,
    ) -> bool {
        &&& ord[s] == 0
        &&& forall|v: usize| #[trigger]
            prev.contains_key(v) ==> 1 <= ord[v] <= run.len() && run[ord[v] - 1] == prev[v].1
    }

    /// No path from `s` to `t` along arcs that can take more flow has fewer
    /// than `least` arcs.
    pub open spec fn none_shorter(self, s: usize, t: usize, least: nat) -> bool {
        forall|p: Seq<usize>| #[trigger] self.is_augmenting(p, s, t) ==> least <= p.len()
    }
}

/// What a search has found along the first `k` arcs does not depend on the
/// arcs behind them.
pub proof fn lemma_found_nodes_push(g: GrfView, s: usize, run: Seq<int>, e: int, k: int)
    requires
        0 <= k <= run.len(),
    ensures
        g.found_nodes(s, run.push(e), k) == g.found_nodes(s, run, k),
    decreases k,
{
    if k > 0 {
        lemma_found_nodes_push(g, s, run, e, k - 1);
        assert(run.push(e)[k - 1] == run[k - 1]);
    }
}

/// A step of a search stays what it is when the run goes on.
pub proof fn lemma_search_step_push(g: GrfView, s: usize, run: Seq<int>, e: int, k: int)
    requires
        0 <= k < run.len(),
        g.search_step(s, run, k),
    ensures
        g.search_step(s, run.push(e), k),
{
    let longer = run.push(e);
    lemma_found_nodes_push(g, s, run, e, k);
    assert(longer[k] == run[k]);
    assert forall|i: int| #[trigger]
        g.open_arc(g.found_nodes(s, longer, k), i) implies g.looks_first(
        s,
        longer,
        k,
        longer[k],
        i,
    ) by {
        assert(g.looks_first(s, run, k, run[k], i));
        let a = g.arcs[run[k]].from;
        let b = g.arcs[i].from;
        if a != b && a != s {
            let (ja, jb) = choose|ja: int, jb: int|
                0 <= ja < jb < k && g.arcs[#[trigger] run[ja]].to == a && g.arcs[
                #[trigger] run[jb]].to == b;
            assert(longer[ja] == run[ja]);
            assert(longer[jb] == run[jb]);
        }
    }
}

/// In a breadth-first search that has finished with every node nearer than
/// `d` to the start, a path of at most `d` arcs ends in a node that the
/// search has seen, no farther from the start than the path is long.
proof fn lemma_search_level(
    g: GrfView,
    seen: Set<usize>,
    done: Set<usize>,
    dist: Map<usize, nat>,
    s: usize,
    d: nat,
    p: Seq<usize>,
    x: usize,
)
    requires
        seen.contains(s),
        dist[s] == 0,
        forall|h: usize| seen.contains(h) && dist[h] < d ==> done.contains(h),
        g.search_done(seen, done, dist),
        g.is_augmenting(p, s, x),
        p.len() <= d,
    ensures
        seen.contains(x),
        dist[x] <= p.len(),
    decreases p.len(),
{
    if p.len() > 0 {
        let q = p.drop_last();
        let last = p[p.len() - 1];
        let mid = g.arcs[last as int].from;
        lemma_augmenting_init(g, p, s, x);
        lemma_search_level(g, seen, done, dist, s, d, q, mid);
        assert(g.residual(last as int) > 0);
        assert(done.contains(g.arcs[last as int].from));
    }
}

impl Grf {
    /// Searches breadth first from `s` along arcs that can take more flow,
    /// until `t` is reached or nothing is left to look at, and returns for
    /// each node reached the node before it and the arc between the two.
    #[verifier::rlimit(40)]
    fn search(&self, s: usize, t: usize) -> (r: (
        HashMap<usize, (usize, usize)>,
        Ghost<Map<usize, nat>>,
        Ghost<Seq<int>>,
    ))
        requires
            self.wf(),
            s < self@.nodes.len(),
            t < self@.nodes.len(),
        ensures
            self@.is_tree(s, r.0@, r.1@),
            r.0@.contains_key(t) ==> self@.none_shorter(s, t, r.1@[t]),
            !r.0@.contains_key(t) ==> !self@.augmentable(s, t),
            r.0@.contains_key(t) ==> self@.search_run(s, r.2@) && r.2@.len() > 0
                && self@.arcs[r.2@[r.2@.len() - 1]].to == t,
            forall|v: usize| #[trigger] r.0@.contains_key(v) ==> r.2@.contains(r.0@[v].1 as int),
    {
        broadcast use vstd::std_specs::hash::group_hash_axioms;

        let n: usize = self.node_count();
        let mut seen: HashSet<usize> = HashSet::new();
        let mut queue: VecDeque<usize> = VecDeque::new();
        let mut prev: HashMap<usize, (usize, usize)> = HashMap::new();
        let ghost mut dist: Map<usize, nat> = Map::empty();
        let ghost mut done: Set<usize> = Set::empty();
        let ghost mut ord: Map<usize, nat> = Map::empty();
        let ghost mut run: Seq<int> = Seq::empty();
        seen.insert(s);
        queue.push_back(s);
        proof {
            dist = dist.insert(s, 0);
            ord = ord.insert(s, 0);
            assert(queue@[0] == s);
            assert(seen@ =~= self@.found_nodes(s, run, 0));
        }
        let mut found: bool = false;
        loop
            invariant
                self.wf(),
                n == self@.nodes.len(),
                s < n,
                t < n,
                seen@.finite(),
                seen@.contains(s),
                dist[s] == 0,
                forall|h: usize| seen@.contains(h) ==> h < n,
                self@.search_tree(s, seen@, prev@, dist),
                self@.search_done(seen@, done, dist),
                forall|k: int| 0 <= k < queue@.len() ==> seen@.contains(#[trigger] queue@[k]),
                forall|j: int, k: int|
                    0 <= j <= k < queue@.len() ==> dist[#[trigger] queue@[j]] <= dist[
                    #[trigger] queue@[k]],
                queue@.len() > 0 ==> dist[queue@[queue@.len() - 1]] <= dist[queue@[0]] + 1,
                forall|h: usize| done.contains(h) && queue@.len() > 0 ==> dist[h] <= dist[queue@[0]],
                !found ==> forall|h: usize|
                    seen@.contains(h) && !done.contains(h) ==> queue@.contains(h),
                prev@.contains_key(t) ==> found,
                found ==> prev@.contains_key(t) && self@.none_shorter(s, t, dist[t]),
                self@.search_run(s, run),
                self@.search_order(s, prev@, ord, run),
                seen@ == self@.found_nodes(s, run, run.len() as int),
                forall|j: int, k: int|
                    0 <= j < k < queue@.len() ==> ord[#[trigger] queue@[j]] < ord[
                    #[trigger] queue@[k]],
                found ==> run.len() > 0 && self@.arcs[run[run.len() - 1]].to == t,
            ensures
                found || queue@.len() == 0,
            decreases n - seen@.len(), queue@.len(),
        {
            proof {
                lemma_bounded_set_len(seen@, n as nat);
            }
            if found {
                break ;
            }
            let ghost queue0 = queue@;
            let u: usize = match queue.pop_front() {
                Some(u) => u,
                None => {
                    break ;
                },
            };
            assert(u == queue0[0]);
            let ghost seen_start = seen@;
            proof {
                assert forall|k: int| 0 <= k < queue@.len() implies seen@.contains(
                    #[trigger] queue@[k],
                ) && dist[u] <= dist[queue@[k]] <= dist[u] + 1 by {
                    assert(queue@[k] == queue0[k + 1]);
                    assert(dist[queue0[0]] <= dist[queue0[k + 1]]);
                    assert(dist[queue0[k + 1]] <= dist[queue0[queue0.len() - 1]]);
                }
                assert forall|j: int, k: int| 0 <= j <= k < queue@.len() implies dist[
                #[trigger] queue@[j]] <= dist[#[trigger] queue@[k]] by {
                    assert(queue@[j] == queue0[j + 1]);
                    assert(queue@[k] == queue0[k + 1]);
                }
                assert forall|j: int, k: int| 0 <= j < k < queue@.len() implies ord[
                #[trigger] queue@[j]] < ord[#[trigger] queue@[k]] by {
                    assert(queue@[j] == queue0[j + 1]);
                    assert(queue@[k] == queue0[k + 1]);
                }
                assert forall|k: int| 0 <= k < queue@.len() implies ord[u] < ord[
                #[trigger] queue@[k]] by {
                    assert(queue@[k] == queue0[k + 1]);
                    assert(ord[queue0[0]] < ord[queue0[k + 1]]);
                }
                assert forall|h: usize| seen@.contains(h) && !done.contains(h) implies queue@.contains(
                    h,
                ) || h == u by {
                    assert(queue0.contains(h));
                    let k = choose|k: int| 0 <= k < queue0.len() && queue0[k] == h;
                    if k > 0 {
                        assert(queue@[k - 1] == h);
                    }
                }
            }
            let hops: Vec<Hop> = self.hops(u);
            let mut j: usize = 0;
            while j < hops.len() && !found
                invariant
                    self.wf(),
                    n == self@.nodes.len(),
                    s < n,
                    t < n,
                    u < n,
                    seen@.contains(u),
                    j <= hops.len(),
                    forall|k: int| 0 <= k < hops@.len() ==> self@.is_hop(u, #[trigger] hops@[k]),
                    seen@.finite(),
                    seen@.contains(s),
                    dist[s] == 0,
                    forall|h: usize| seen@.contains(h) ==> h < n,
                    self@.search_tree(s, seen@, prev@, dist),
                    self@.search_done(seen@, done, dist),
                    forall|k: int|
                        0 <= k < queue@.len() ==> seen@.contains(#[trigger] queue@[k]) && dist[u]
                            <= dist[queue@[k]] <= dist[u] + 1,
                    forall|j: int, k: int|
                        0 <= j <= k < queue@.len() ==> dist[#[trigger] queue@[j]] <= dist[
                        #[trigger] queue@[k]],
                    forall|h: usize| done.contains(h) ==> dist[h] <= dist[u],
                    forall|h: usize|
                        seen@.contains(h) && !done.contains(h) ==> queue@.contains(h) || h == u,
                    prev@.contains_key(t) ==> found,
                    found ==> prev@.contains_key(t) && self@.none_shorter(s, t, dist[t]),
                    self@.search_run(s, run),
                    self@.search_order(s, prev@, ord, run),
                    seen@ == self@.found_nodes(s, run, run.len() as int),
                    forall|j: int, k: int|
                        0 <= j < k < queue@.len() ==> ord[#[trigger] queue@[j]] < ord[
                        #[trigger] queue@[k]],
                    forall|k: int| 0 <= k < queue@.len() ==> ord[u] < ord[#[trigger] queue@[k]],
                    forall|j: int, k: int|
                        0 <= j < k < hops@.len() ==> (#[trigger] hops@[j]).edge > (
                        #[trigger] hops@[k]).edge,
                    forall|i: int|
                        0 <= i < self@.arcs.len() && (#[trigger] self@.arcs[i]).from == u
                            ==> hops@.contains(self@.hop_of(i)),
                    found ==> run.len() > 0 && self@.arcs[run[run.len() - 1]].to == t,
                    queue0.len() > 0,
                    seen_start.len() < seen@.len() || (seen@ == seen_start && queue@.len()
                        == queue0.len() - 1),
                    forall|k: int|
                        0 <= k < j && (#[trigger] hops@[k]).ed.wt > hops@[k].ed.flow
                            ==> seen@.contains(hops@[k].to) && dist[hops@[k].to] <= dist[u] + 1,
                decreases hops.len() - j,
            {
                let h: Hop = hops[j];
                if !seen.contains(&h.to) && h.ed.wt > h.ed.flow {
                    let ghost seen0 = seen@;
                    let ghost queue1 = queue@;
                    let ghost dist0 = dist;
                    let ghost ord0 = ord;
                    let ghost run0 = run;
                    proof {
                        assert(u == s || prev@.contains_key(u));
                        assert(ord0[u] <= run0.len());
                        assert forall|k: int| 0 <= k < queue1.len() implies ord0[
                        #[trigger] queue1[k]] <= run0.len() by {
                            assert(queue1[k] == s || prev@.contains_key(queue1[k]));
                        }
                        dist = dist.insert(h.to, dist0[u] + 1);
                        ord = ord.insert(h.to, run0.len() + 1);
                        run = run0.push(h.edge as int);
                    }
                    seen.insert(h.to);
                    prev.insert(h.to, (u, h.edge));
                    queue.push_back(h.to);
                    if h.to == t {
                        found = true;
                    }
                    proof {
                        assert(seen@.len() == seen0.len() + 1);
                        assert(queue@[queue1.len() as int] == h.to);
                        lemma_found_nodes_push(self@, s, run0, h.edge as int, run0.len() as int);
                        assert(seen@ =~= self@.found_nodes(s, run, run.len() as int));
                        assert forall|a: int, b: int| 0 <= a < b < queue@.len() implies ord[
                        #[trigger] queue@[a]] < ord[#[trigger] queue@[b]] by {
                            assert(queue@[a] == queue1[a]);
                            assert(ord0[queue1[a]] <= run0.len());
                            if b < queue1.len() {
                                assert(queue@[b] == queue1[b]);
                            }
                        }
                        assert forall|k: int| 0 <= k < queue@.len() implies ord[u] < ord[
                        #[trigger] queue@[k]] by {
                            if k < queue1.len() {
                                assert(queue@[k] == queue1[k]);
                            }
                        }
                        assert forall|k: int| 0 <= k < run.len() implies #[trigger] self@.search_step(
                            s,
                            run,
                            k,
                        ) by {
                            if k < run0.len() {
                                assert(self@.search_step(s, run0, k));
                                lemma_search_step_push(self@, s, run0, h.edge as int, k);
                            } else {
                                assert(run[k] == h.edge);
                                assert(self@.open_arc(seen0, h.edge as int));
                                assert forall|i: int| #[trigger]
                                    self@.open_arc(seen0, i) implies self@.looks_first(
                                    s,
                                    run,
                                    k,
                                    h.edge as int,
                                    i,
                                ) by {
                                    let f = self@.arcs[i].from;
                                    if f == u {
                                        let hi = self@.hop_of(i);
                                        assert(hops@.contains(hi));
                                        let pi = choose|pi: int|
                                            0 <= pi < hops@.len() && hops@[pi] == hi;
                                        if pi < j {
                                            assert(seen0.contains(hops@[pi].to));
                                        }
                                        if pi > j {
                                            assert(hops@[j as int].edge > hops@[pi].edge);
                                        }
                                    } else {
                                        assert(!done.contains(f));
                                        assert(queue1.contains(f));
                                        let q = choose|q: int| 0 <= q < queue1.len() && queue1[q] == f;
                                        assert(ord0[u] < ord0[queue1[q]]);
                                        assert(prev@.contains_key(f));
                                        let jb = ord0[f] - 1;
                                        assert(run[jb] == run0[jb]);
                                        if u != s {
                                            assert(prev@.contains_key(u));
                                            let ja = ord0[u] - 1;
                                            assert(run[ja] == run0[ja]);
                                            assert(self@.arcs[run[ja]].to == u);
                                            assert(self@.arcs[run[jb]].to == f);
                                        }
                                    }
                                }
                            }
                        }
                        assert(self@.search_order(s, prev@, ord, run)) by {
                            assert forall|v: usize| #[trigger] prev@.contains_key(v) implies 1
                                <= ord[v] <= run.len() && run[ord[v] - 1] == prev@[v].1 by {
                                if v != h.to {
                                    assert(run[ord0[v] - 1] == run0[ord0[v] - 1]);
                                }
                            }
                        }
                        assert forall|k: int| 0 <= k < queue@.len() implies seen@.contains(
                            #[trigger] queue@[k],
                        ) && dist[u] <= dist[queue@[k]] <= dist[u] + 1 by {
                            if k < queue1.len() {
                                assert(queue@[k] == queue1[k]);
                            }
                        }
                        assert forall|a: int, b: int| 0 <= a <= b < queue@.len() implies dist[
                        #[trigger] queue@[a]] <= dist[#[trigger] queue@[b]] by {
                            if b < queue1.len() {
                                assert(queue@[a] == queue1[a]);
                                assert(queue@[b] == queue1[b]);
                            } else if a < queue1.len() {
                                assert(queue@[a] == queue1[a]);
                            }
                        }
                        assert forall|x: usize|
                            seen@.contains(x) && !done.contains(x) implies queue@.contains(x) || x
                            == u by {
                            if x != h.to && x != u {
                                assert(queue1.contains(x));
                                let k = choose|k: int| 0 <= k < queue1.len() && queue1[k] == x;
                                assert(queue@[k] == x);
                            }
                        }
                        assert forall|k: int|
                            0 <= k < j + 1 && (#[trigger] hops@[k]).ed.wt
                                > hops@[k].ed.flow implies seen@.contains(hops@[k].to)
                            && dist[hops@[k].to] <= dist[u] + 1 by {
                            if k < j {
                                assert(seen0.contains(hops@[k].to));
                            }
                        }
                        if h.to == t {
                            assert forall|p: Seq<usize>| #[trigger]
                                self@.is_augmenting(p, s, t) implies dist[t] <= p.len() by {
                                if p.len() <= dist0[u] {
                                    assert forall|x: usize|
                                        seen0.contains(x) && dist0[x] < dist0[u] implies done.contains(
                                        x,
                                    ) by {
                                        if !done.contains(x) {
                                            if x != u {
                                                assert(queue1.contains(x));
                                                let k = choose|k: int|
                                                    0 <= k < queue1.len() && queue1[k] == x;
                                                assert(dist0[u] <= dist0[queue1[k]]);
                                            }
                                        }
                                    }
                                    lemma_search_level(
                                        self@,
                                        seen0,
                                        done,
                                        dist0,
                                        s,
                                        dist0[u],
                                        p,
                                        t,
                                    );
                                }
                            }
                        }
                    }
                } else {
                    proof {
                        if h.ed.wt > h.ed.flow {
                            let x = h.to;
                            if !done.contains(x) && x != u {
                                assert(queue@.contains(x));
                                let k = choose|k: int| 0 <= k < queue@.len() && queue@[k] == x;
                                assert(dist[queue@[k]] <= dist[u] + 1);
                            }
                        }
                    }
                }
                j += 1;
            }
            proof {
                lemma_bounded_set_len(seen@, n as nat);
                if !found {
                    let done0 = done;
                    done = done.insert(u);
                    assert forall|i: int|
                        0 <= i < self@.arcs.len() && done.contains((#[trigger] self@.arcs[i]).from)
                            && self@.residual(i) > 0 implies seen@.contains(self@.arcs[i].to)
                        && dist[self@.arcs[i].to] <= dist[self@.arcs[i].from] + 1 by {
                        if self@.arcs[i].from == u {
                            let h = self@.hop_of(i);
                            assert(hops@.contains(h));
                            let k = choose|k: int| 0 <= k < hops@.len() && hops@[k] == h;
                            assert(seen@.contains(hops@[k].to));
                        } else {
                            assert(done0.contains(self@.arcs[i].from));
                        }
                    }
                    assert forall|h: usize| done.contains(h) && queue@.len() > 0 implies dist[h]
                        <= dist[queue@[0]] by {
                        assert(dist[u] <= dist[queue@[0]]);
                        if h != u {
                            assert(done0.contains(h));
                        }
                    }
                } else {
                    assert forall|h: usize| done.contains(h) && queue@.len() > 0 implies dist[h]
                        <= dist[queue@[0]] by {
                        assert(dist[u] <= dist[queue@[0]]);
                    }
                }
                if queue@.len() > 0 {
                    assert(dist[queue@[queue@.len() - 1]] <= dist[u] + 1);
                    assert(dist[u] <= dist[queue@[0]]);
                }
            }
        }
        proof {
            if !found {
                assert(self@.residual_closed(seen@)) by {
                    assert forall|i: int|
                        0 <= i < self@.arcs.len() && seen@.contains((#[trigger] self@.arcs[i]).from)
                            && self@.residual(i) > 0 implies seen@.contains(self@.arcs[i].to) by {
                        if !done.contains(self@.arcs[i].from) {
                            assert(queue@.contains(self@.arcs[i].from));
                        }
                    }
                }
                if self@.augmentable(s, t) {
                    let p = choose|p: Seq<usize>| #[trigger] self@.is_augmenting(p, s, t);
                    lemma_closed_holds_paths(self@, seen@, p, s, t);
                }
            }
            assert(self@.is_tree(s, prev@, dist)) by {
                assert forall|v: usize| #[trigger] prev@.contains_key(v) implies (prev@[v].0 == s
                    || prev@.contains_key(prev@[v].0)) by {
                    assert(seen@.contains(prev@[v].0));
                }
            }
            assert forall|v: usize| #[trigger] prev@.contains_key(v) implies run.contains(
                prev@[v].1 as int,
            ) by {
                assert(run[ord[v] - 1] == prev@[v].1);
            }
        }
        (prev, Ghost(dist), Ghost(run))
    }

    /// A shortest path from `s` to another node `t` along arcs that can take
    /// more flow, as the indices of its arcs from `s` on; empty where there is
    /// no such path, and where `t` is `s`. The path is the one that a
    /// breadth-first search finds which looks at the arcs that leave a node
    /// from the one added last to the one added first.
    pub fn find_path(&self, s: usize, t: usize) -> (path: Vec<usize>)
        requires
            self.wf(),
            s < self@.nodes.len(),
            t < self@.nodes.len(),
        ensures
            self@.augmentable(s, t) <==> path@.len() > 0,
            path@.len() > 0 ==> self@.is_augmenting(path@, s, t) && self@.is_simple(path@, t),
            self@.none_shorter(s, t, path@.len()),
            path@.len() > 0 ==> self@.is_found(path@, s, t),
    {
        broadcast use vstd::std_specs::hash::group_hash_axioms;

        let (prev, Ghost(dist), Ghost(run)) = self.search(s, t);
        let mut back: Vec<usize> = Vec::new();
        let mut curr: usize = t;
        loop
            invariant
                self.wf(),
                s < self@.nodes.len(),
                t < self@.nodes.len(),
                self@.is_tree(s, prev@, dist),
                prev@.contains_key(t) ==> self@.none_shorter(s, t, dist[t]),
                !prev@.contains_key(t) ==> !self@.augmentable(s, t),
                prev@.contains_key(t) ==> self@.search_run(s, run) && run.len() > 0
                    && self@.arcs[run[run.len() - 1]].to == t,
                forall|v: usize| #[trigger] prev@.contains_key(v) ==> run.contains(prev@[v].1 as int),
                forall|k: int| 0 <= k < back@.len() ==> run.contains((#[trigger] back@[k]) as int),
                back@.len() == 0 ==> curr == t,
                back@.len() > 0 ==> prev@.contains_key(curr) && self@.arcs[back@[0] as int].to == t
                    && self@.arcs[back@[back@.len() - 1] as int].from == curr,
                back@.len() + dist[curr] == dist[t],
                forall|k: int|
                    0 <= k < back@.len() ==> (#[trigger] back@[k]) < self@.arcs.len()
                        && self@.residual(back@[k] as int) > 0,
                forall|k: int|
                    0 <= k < back@.len() - 1 ==> self@.arcs[(#[trigger] back@[k]) as int].from
                        == self@.arcs[back@[k + 1] as int].to,
                forall|k: int|
                    0 <= k < back@.len() ==> dist[self@.arcs[(#[trigger] back@[k]) as int].from]
                        + k + 1 == dist[t],
            decreases dist[curr],
        {
            let (from, e): (usize, usize) = match prev.get(&curr) {
                Some(pair) => *pair,
                None => {
                    proof {
                        assert(!prev@.contains_key(curr));
                        assert(back@.len() == 0);
                        assert forall|p: Seq<usize>| #[trigger]
                            self@.is_augmenting(p, s, t) implies 0 <= p.len() by {}
                    }
                    return Vec::new();
                },
            };
            proof {
                assert(prev@.contains_key(curr));
            }
            let ghost back0 = back@;
            back.push(e);
            curr = from;
            proof {
                assert forall|k: int| 0 <= k < back@.len() - 1 implies self@.arcs[(
                #[trigger] back@[k]) as int].from == self@.arcs[back@[k + 1] as int].to by {
                    if k < back0.len() - 1 {
                        assert(back@[k] == back0[k]);
                        assert(back@[k + 1] == back0[k + 1]);
                    } else {
                        assert(back@[k] == back0[back0.len() - 1]);
                    }
                }
                assert forall|k: int| 0 <= k < back@.len() implies dist[self@.arcs[(
                #[trigger] back@[k]) as int].from] + k + 1 == dist[t] by {
                    if k < back0.len() {
                        assert(back@[k] == back0[k]);
                    }
                }
                assert forall|k: int| 0 <= k < back@.len() implies (#[trigger] back@[k])
                    < self@.arcs.len() && self@.residual(back@[k] as int) > 0 by {
                    if k < back0.len() {
                        assert(back@[k] == back0[k]);
                    }
                }
                assert forall|k: int| 0 <= k < back@.len() implies run.contains(
                    (#[trigger] back@[k]) as int,
                ) by {
                    if k < back0.len() {
                        assert(back@[k] == back0[k]);
                    }
                }
                if back0.len() > 0 {
                    assert(back@[0] == back0[0]);
                }
            }
            if curr == s {
                let path: Vec<usize> = reversed(&back);
                proof {
                    let m = back@.len() as int;
                    assert forall|k: int| 0 <= k < path@.len() implies (#[trigger] path@[k])
                        < self@.arcs.len() && self@.residual(path@[k] as int) > 0 by {
                        assert(path@[k] == back@[m - 1 - k]);
                    }
                    assert forall|k: int| 0 <= k < path@.len() - 1 implies self@.arcs[(
                    #[trigger] path@[k]) as int].to == self@.arcs[path@[k + 1] as int].from by {
                        assert(path@[k] == back@[m - 1 - k]);
                        assert(path@[k + 1] == back@[m - 2 - k]);
                    }
                    assert(path@[0] == back@[m - 1]);
                    assert(path@[m - 1] == back@[0]);
                    assert(self@.is_augmenting(path@, s, t));
                    assert forall|j: int, k: int| 0 <= j < k < path@.len() implies self@.arcs[(
                    #[trigger] path@[j]) as int].from != self@.arcs[(
                    #[trigger] path@[k]) as int].from by {
                        assert(path@[j] == back@[m - 1 - j]);
                        assert(path@[k] == back@[m - 1 - k]);
                    }
                    assert forall|k: int| 0 <= k < path@.len() implies self@.arcs[(
                    #[trigger] path@[k]) as int].from != t by {
                        assert(path@[k] == back@[m - 1 - k]);
                    }
                    assert(s != t);
                    assert(prev@.contains_key(t));
                    assert forall|k: int| 0 <= k < path@.len() implies run.contains(
                        (#[trigger] path@[k]) as int,
                    ) by {
                        assert(path@[k] == back@[m - 1 - k]);
                    }
                    assert(self@.is_found(path@, s, t));
                }
                return path;
            }
        }
    }
}

} // verus!
