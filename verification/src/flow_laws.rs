//! The graph determines what the search finds and what the flow becomes: the
//! contracts of [`Grf::find_path`](crate::graph::Grf::find_path) and of
//! [`Grf::max_flow`](crate::graph::Grf::max_flow) leave nothing open.

use crate::flow::flow_run;
use crate::flow::is_run;
use crate::flow::total_of;
use crate::model::lemma_path_init;
use crate::model::GrfView;
use vstd::prelude::*;

verus! {

/// What a search has found holds the start.
pub proof fn lemma_found_nodes_start(g: GrfView, s: usize, run: Seq<int>, k: int)
    ensures
        g.found_nodes(s, run, k).contains(s),
    decreases k,
{
    if k > 0 {
        lemma_found_nodes_start(g, s, run, k - 1);
    }
}

/// What a search has found holds every node that one of the arcs so far
/// enters.
pub proof fn lemma_found_nodes_hold(g: GrfView, s: usize, run: Seq<int>, j: int, k: int)
    requires
        0 <= j < k,
    ensures
        g.found_nodes(s, run, k).contains(s),
        g.found_nodes(s, run, k).contains(g.arcs[run[j]].to),
    decreases k,
{
    lemma_found_nodes_start(g, s, run, k);
    if j < k - 1 {
        lemma_found_nodes_hold(g, s, run, j, k - 1);
    }
}

/// No two arcs of a run enter the same node, and none enters the start.
pub proof fn lemma_run_enters_once(g: GrfView, s: usize, run: Seq<int>, j: int, k: int)
    requires
        g.search_run(s, run),
        0 <= j < k < run.len(),
    ensures
        g.arcs[run[j]].to != g.arcs[run[k]].to,
        g.arcs[run[j]].to != s,
        g.arcs[run[k]].to != s,
{
    assert(g.search_step(s, run, k));
    assert(g.search_step(s, run, j));
    lemma_found_nodes_hold(g, s, run, j, k);
    lemma_found_nodes_start(g, s, run, j);
}

/// Two breadth-first searches from one node of one graph find their nodes by
/// the same arcs, as far as both go.
pub proof fn lemma_searches_agree(g: GrfView, s: usize, a: Seq<int>, b: Seq<int>, k: int)
    requires
        g.search_run(s, a),
        g.search_run(s, b),
        0 <= k <= a.len(),
        k <= b.len(),
    ensures
        forall|j: int| 0 <= j < k ==> a[j] == b[j],
        g.found_nodes(s, a, k) == g.found_nodes(s, b, k),
    decreases k,
{
    if k > 0 {
        lemma_searches_agree(g, s, a, b, k - 1);
        let m = k - 1;
        let x = a[m];
        let y = b[m];
        assert(g.search_step(s, a, m));
        assert(g.search_step(s, b, m));
        assert(g.open_arc(g.found_nodes(s, a, m), y));
        assert(g.open_arc(g.found_nodes(s, b, m), x));
        assert(g.looks_first(s, a, m, x, y));
        assert(g.looks_first(s, b, m, y, x));
        let fx = g.arcs[x].from;
        let fy = g.arcs[y].from;
        if fx != fy {
            if fx == s {
                let (ja, jb) = choose|ja: int, jb: int|
                    0 <= ja < jb < m && g.arcs[#[trigger] b[ja]].to == fy && g.arcs[
                    #[trigger] b[jb]].to == fx;
                lemma_run_enters_once(g, s, b, ja, jb);
            } else if fy == s {
                let (ja, jb) = choose|ja: int, jb: int|
                    0 <= ja < jb < m && g.arcs[#[trigger] a[ja]].to == fx && g.arcs[
                    #[trigger] a[jb]].to == fy;
                lemma_run_enters_once(g, s, a, ja, jb);
            } else {
                let (ja, jb) = choose|ja: int, jb: int|
                    0 <= ja < jb < m && g.arcs[#[trigger] a[ja]].to == fx && g.arcs[
                    #[trigger] a[jb]].to == fy;
                let (ka, kb) = choose|ka: int, kb: int|
                    0 <= ka < kb < m && g.arcs[#[trigger] b[ka]].to == fy && g.arcs[
                    #[trigger] b[kb]].to == fx;
                assert(a[ka] == b[ka]);
                assert(a[kb] == b[kb]);
                if ja < kb {
                    lemma_run_enters_once(g, s, a, ja, kb);
                } else if kb < ja {
                    lemma_run_enters_once(g, s, a, kb, ja);
                }
                if jb < ka {
                    lemma_run_enters_once(g, s, a, jb, ka);
                } else if ka < jb {
                    lemma_run_enters_once(g, s, a, ka, jb);
                }
            }
        }
        assert(x == y);
    }
}

/// Two breadth-first searches from `s` that both end when they find `t` are
/// the same search.
pub proof fn lemma_search_unique(g: GrfView, s: usize, t: usize, a: Seq<int>, b: Seq<int>)
    requires
        g.search_run(s, a),
        g.search_run(s, b),
        a.len() > 0,
        b.len() > 0,
        g.arcs[a[a.len() - 1]].to == t,
        g.arcs[b[b.len() - 1]].to == t,
    ensures
        a == b,
{
    if a.len() < b.len() {
        lemma_searches_agree(g, s, a, b, a.len() as int);
        assert(b[a.len() - 1] == a[a.len() - 1]);
        lemma_run_enters_once(g, s, b, a.len() - 1, b.len() - 1);
    } else if b.len() < a.len() {
        lemma_searches_agree(g, s, a, b, b.len() as int);
        assert(b[b.len() - 1] == a[b.len() - 1]);
        lemma_run_enters_once(g, s, a, b.len() - 1, a.len() - 1);
    } else {
        lemma_searches_agree(g, s, a, b, a.len() as int);
        assert(a =~= b);
    }
}

/// Among the arcs of a search only one path leads from the start to a node.
pub proof fn lemma_tree_path_unique(
    g: GrfView,
    s: usize,
    run: Seq<int>,
    p: Seq<usize>,
    q: Seq<usize>,
    x: usize,
)
    requires
        g.search_run(s, run),
        g.is_path(p, s, x),
        g.is_path(q, s, x),
        forall|k: int| 0 <= k < p.len() ==> run.contains((#[trigger] p[k]) as int),
        forall|k: int| 0 <= k < q.len() ==> run.contains((#[trigger] q[k]) as int),
    ensures
        p == q,
    decreases p.len(),
{
    if p.len() == 0 || q.len() == 0 {
        if p.len() > 0 {
            let last = p[p.len() - 1];
            assert(run.contains(last as int));
            let j = choose|j: int| 0 <= j < run.len() && run[j] == last as int;
            assert(g.search_step(s, run, j));
            lemma_found_nodes_start(g, s, run, j);
        }
        if q.len() > 0 {
            let last = q[q.len() - 1];
            assert(run.contains(last as int));
            let j = choose|j: int| 0 <= j < run.len() && run[j] == last as int;
            assert(g.search_step(s, run, j));
            lemma_found_nodes_start(g, s, run, j);
        }
        assert(p =~= q);
    } else {
        let lp = p[p.len() - 1];
        let lq = q[q.len() - 1];
        assert(run.contains(lp as int));
        assert(run.contains(lq as int));
        let jp = choose|j: int| 0 <= j < run.len() && run[j] == lp as int;
        let jq = choose|j: int| 0 <= j < run.len() && run[j] == lq as int;
        if jp < jq {
            lemma_run_enters_once(g, s, run, jp, jq);
        } else if jq < jp {
            lemma_run_enters_once(g, s, run, jq, jp);
        }
        assert(lp == lq);
        lemma_path_init(g, p, s, x);
        lemma_path_init(g, q, s, x);
        let pi = p.drop_last();
        let qi = q.drop_last();
        assert forall|k: int| 0 <= k < pi.len() implies run.contains((#[trigger] pi[k]) as int) by {
            assert(pi[k] == p[k]);
        }
        assert forall|k: int| 0 <= k < qi.len() implies run.contains((#[trigger] qi[k]) as int) by {
            assert(qi[k] == q[k]);
        }
        lemma_tree_path_unique(g, s, run, pi, qi, g.arcs[lp as int].from);
        assert(p =~= pi.push(lp));
        assert(q =~= qi.push(lq));
    }
}

/// The graph determines the path that `find_path` returns: two paths from `s`
/// to `t` that both meet its contract are the same path.
pub proof fn lemma_found_unique(g: GrfView, p: Seq<usize>, q: Seq<usize>, s: usize, t: usize)
    requires
        g.is_path(p, s, t),
        g.is_found(p, s, t),
        g.is_path(q, s, t),
        g.is_found(q, s, t),
    ensures
        p == q,
{
    let a = choose|run: Seq<int>|
        #![trigger g.search_run(s, run)]
        {
            &&& g.search_run(s, run)
            &&& run.len() > 0
            &&& g.arcs[run[run.len() - 1]].to == t
            &&& forall|k: int| 0 <= k < p.len() ==> run.contains((#[trigger] p[k]) as int)
        };
    let b = choose|run: Seq<int>|
        #![trigger g.search_run(s, run)]
        {
            &&& g.search_run(s, run)
            &&& run.len() > 0
            &&& g.arcs[run[run.len() - 1]].to == t
            &&& forall|k: int| 0 <= k < q.len() ==> run.contains((#[trigger] q[k]) as int)
        };
    lemma_search_unique(g, s, t, a, b);
    lemma_tree_path_unique(g, s, a, p, q, t);
}

/// The graph determines what a round does: two rounds from one graph lead to
/// the same graph and push the same amount.
pub proof fn lemma_round_unique(
    g: GrfView,
    first: GrfView,
    second: GrfView,
    s: usize,
    t: usize,
    b1: u64,
    b2: u64,
)
    requires
        g.round(first, s, t, b1),
        g.round(second, s, t, b2),
    ensures
        first == second,
        b1 == b2,
{
    let p = choose|p: Seq<usize>|
        #![trigger g.is_augmenting(p, s, t)]
        {
            &&& p.len() > 0
            &&& g.is_augmenting(p, s, t)
            &&& g.is_simple(p, t)
            &&& g.none_shorter(s, t, p.len())
            &&& g.is_found(p, s, t)
            &&& g.is_bottleneck(p, b1)
            &&& first == g.push_along(p, b1)
        };
    let q = choose|q: Seq<usize>|
        #![trigger g.is_augmenting(q, s, t)]
        {
            &&& q.len() > 0
            &&& g.is_augmenting(q, s, t)
            &&& g.is_simple(q, t)
            &&& g.none_shorter(s, t, q.len())
            &&& g.is_found(q, s, t)
            &&& g.is_bottleneck(q, b2)
            &&& second == g.push_along(q, b2)
        };
    lemma_found_unique(g, p, q, s, t);
    let k1 = choose|k: int| 0 <= k < p.len() && b1 == g.residual((#[trigger] p[k]) as int);
    let k2 = choose|k: int| 0 <= k < p.len() && b2 == g.residual((#[trigger] p[k]) as int);
    assert(b1 <= g.residual(p[k2] as int));
    assert(b2 <= g.residual(p[k1] as int));
}

/// Two runs of rounds from one graph pass through the same graphs and push
/// the same amounts, as far as both go.
pub proof fn lemma_runs_agree(
    s: usize,
    t: usize,
    states1: Seq<GrfView>,
    gains1: Seq<u64>,
    states2: Seq<GrfView>,
    gains2: Seq<u64>,
    k: int,
)
    requires
        is_run(states1, gains1, s, t),
        is_run(states2, gains2, s, t),
        states1[0] == states2[0],
        0 <= k <= gains1.len(),
        k <= gains2.len(),
    ensures
        forall|j: int| 0 <= j <= k ==> states1[j] == states2[j],
        forall|j: int| 0 <= j < k ==> gains1[j] == gains2[j],
    decreases k,
{
    if k > 0 {
        lemma_runs_agree(s, t, states1, gains1, states2, gains2, k - 1);
        assert(states1[k - 1].round(states1[k - 1 + 1], s, t, gains1[k - 1]));
        assert(states2[k - 1].round(states2[k - 1 + 1], s, t, gains2[k - 1]));
        lemma_round_unique(
            states1[k - 1],
            states1[k],
            states2[k],
            s,
            t,
            gains1[k - 1],
            gains2[k - 1],
        );
    }
}

/// Equal lists of amounts add up to the same.
proof fn lemma_total_of_prefix(a: Seq<u64>, b: Seq<u64>)
    requires
        a.len() == b.len(),
        forall|j: int| 0 <= j < a.len() ==> a[j] == b[j],
    ensures
        total_of(a) == total_of(b),
{
    assert(a =~= b);
}

/// The graph determines what `max_flow` does: two outcomes that both meet its
/// contract are the same flow and the same amount.
pub proof fn lemma_flow_unique(
    before: GrfView,
    s: usize,
    t: usize,
    first: GrfView,
    total1: int,
    second: GrfView,
    total2: int,
)
    requires
        flow_run(before, first, s, t, total1),
        !first.augmentable(s, t),
        flow_run(before, second, s, t, total2),
        !second.augmentable(s, t),
    ensures
        first == second,
        total1 == total2,
{
    let (states1, gains1) = choose|states: Seq<GrfView>, gains: Seq<u64>|
        #![trigger is_run(states, gains, s, t)]
        {
            &&& is_run(states, gains, s, t)
            &&& states[0] == before
            &&& states[states.len() - 1] == first
            &&& total1 == total_of(gains)
        };
    let (states2, gains2) = choose|states: Seq<GrfView>, gains: Seq<u64>|
        #![trigger is_run(states, gains, s, t)]
        {
            &&& is_run(states, gains, s, t)
            &&& states[0] == before
            &&& states[states.len() - 1] == second
            &&& total2 == total_of(gains)
        };
    let n1 = gains1.len() as int;
    let n2 = gains2.len() as int;
    if n1 < n2 {
        lemma_runs_agree(s, t, states1, gains1, states2, gains2, n1);
        lemma_round_starts(states2[n1], states2[n1 + 1], s, t, gains2[n1]);
    } else if n2 < n1 {
        lemma_runs_agree(s, t, states1, gains1, states2, gains2, n2);
        lemma_round_starts(states1[n2], states1[n2 + 1], s, t, gains1[n2]);
    } else {
        lemma_runs_agree(s, t, states1, gains1, states2, gains2, n1);
        lemma_total_of_prefix(gains1, gains2);
    }
}

/// A round starts from a graph in which flow can still be pushed.
pub proof fn lemma_round_starts(g: GrfView, after: GrfView, s: usize, t: usize, b: u64)
    requires
        g.round(after, s, t, b),
    ensures
        g.augmentable(s, t),
{
    let p = choose|p: Seq<usize>|
        #![trigger g.is_augmenting(p, s, t)]
        {
            &&& p.len() > 0
            &&& g.is_augmenting(p, s, t)
            &&& g.is_simple(p, t)
            &&& g.none_shorter(s, t, p.len())
            &&& g.is_found(p, s, t)
            &&& g.is_bottleneck(p, b)
            &&& after == g.push_along(p, b)
        };
    assert(g.arcs[p[0] as int].from != t);
}

} // verus!
