use flowgraph::graph::Grf;
use flowgraph::graph::LookupError;
use flowgraph::model::Ed;
use flowgraph::model::Hop;
use flowgraph::model::Link;
use flowgraph::model::Nd;

fn diamond() -> Grf {
    let mut g = Grf::new();
    g.add_nd(1, 0, 0, 0);
    g.add_nd(2, 0, 1, 1);
    g.add_nd(3, 0, 1, -1);
    g.add_nd(4, 0, 2, 0);
    g.add_ed(1, 2, 3).unwrap();
    g.add_ed(1, 3, 2).unwrap();
    g.add_ed(2, 4, 2).unwrap();
    g.add_ed(3, 4, 3).unwrap();
    g
}

fn both_ways(g: &mut Grf, a: usize, b: usize, w: u64) {
    g.add_ed(a, b, w).unwrap();
    g.add_ed(b, a, w).unwrap();
}

fn flow_in(g: &Grf, h: usize) -> u128 {
    let mut sum: u128 = 0;
    for e in 0..g.edge_count() {
        let arc = g.arc(e).unwrap();
        if arc.to == h {
            sum += arc.ed.flow as u128;
        }
    }
    sum
}

fn flow_out(g: &Grf, h: usize) -> u128 {
    let mut sum: u128 = 0;
    for e in 0..g.edge_count() {
        let arc = g.arc(e).unwrap();
        if arc.from == h {
            sum += arc.ed.flow as u128;
        }
    }
    sum
}

#[test]
fn new_graph_is_empty() {
    let g = Grf::new();
    assert_eq!(g.node_count(), 0);
    assert_eq!(g.edge_count(), 0);
    assert_eq!(g.handle(1), None);
    assert_eq!(g.node(0), None);
    assert_eq!(g.arc(0), None);
}

#[test]
fn add_nd_returns_consecutive_handles() {
    let mut g = Grf::new();
    assert_eq!(g.add_nd(10, 7, -1, 2), 0);
    assert_eq!(g.add_nd(20, 8, 3, -4), 1);
    assert_eq!(g.node_count(), 2);
    assert_eq!(g.handle(10), Some(0));
    assert_eq!(g.handle(20), Some(1));
    assert_eq!(g.node(0), Some(Nd { id: 10, val: 7, x: -1, y: 2 }));
    assert_eq!(g.node(1), Some(Nd { id: 20, val: 8, x: 3, y: -4 }));
    assert_eq!(g.node(2), None);
}

#[test]
fn add_nd_with_a_used_identifier_moves_the_index() {
    let mut g = Grf::new();
    g.add_nd(5, 1, 0, 0);
    g.add_nd(6, 2, 0, 0);
    let h = g.add_nd(5, 3, 0, 0);
    assert_eq!(h, 2);
    assert_eq!(g.node_count(), 3);
    assert_eq!(g.handle(5), Some(2));
    assert_eq!(g.node(0), Some(Nd { id: 5, val: 1, x: 0, y: 0 }));
    g.add_ed(5, 6, 9).unwrap();
    assert_eq!(g.arc(0), Some(Link { from: 2, to: 1, ed: Ed { wt: 9, flow: 0 } }));
}

#[test]
fn add_ed_stores_the_arc_with_no_flow() {
    let mut g = Grf::new();
    g.add_nd(7, 0, 0, 0);
    g.add_nd(9, 0, 0, 0);
    assert_eq!(g.add_ed(9, 7, 12), Ok(()));
    assert_eq!(g.edge_count(), 1);
    assert_eq!(g.arc(0), Some(Link { from: 1, to: 0, ed: Ed { wt: 12, flow: 0 } }));
    assert_eq!(g.arc(1), None);
}

#[test]
fn add_ed_rejects_an_unknown_source() {
    let mut g = Grf::new();
    g.add_nd(1, 0, 0, 0);
    assert_eq!(g.add_ed(2, 1, 5), Err(LookupError { id: 2 }));
    assert_eq!(g.edge_count(), 0);
    assert_eq!(g.node_count(), 1);
}

#[test]
fn add_ed_rejects_an_unknown_target() {
    let mut g = Grf::new();
    g.add_nd(1, 0, 0, 0);
    assert_eq!(g.add_ed(1, 3, 5), Err(LookupError { id: 3 }));
    assert_eq!(g.edge_count(), 0);
}

#[test]
fn add_ed_names_the_source_when_both_are_unknown() {
    let mut g = Grf::new();
    assert_eq!(g.add_ed(8, 9, 5), Err(LookupError { id: 8 }));
}

#[test]
fn hops_lists_the_latest_arc_first() {
    let mut g = Grf::new();
    g.add_nd(1, 0, 0, 0);
    g.add_nd(2, 0, 0, 0);
    g.add_nd(3, 0, 0, 0);
    g.add_ed(1, 2, 10).unwrap();
    g.add_ed(2, 3, 20).unwrap();
    g.add_ed(1, 3, 30).unwrap();
    g.add_ed(1, 1, 40).unwrap();
    assert_eq!(
        g.hops(0),
        vec![
            Hop { edge: 3, to: 0, ed: Ed { wt: 40, flow: 0 } },
            Hop { edge: 2, to: 2, ed: Ed { wt: 30, flow: 0 } },
            Hop { edge: 0, to: 1, ed: Ed { wt: 10, flow: 0 } },
        ]
    );
    assert_eq!(g.hops(1), vec![Hop { edge: 1, to: 2, ed: Ed { wt: 20, flow: 0 } }]);
    assert_eq!(g.hops(2), vec![]);
}

#[test]
fn mst_of_the_empty_graph_is_empty() {
    let g = Grf::new();
    assert_eq!(g.mst(), vec![]);
}

#[test]
fn mst_of_one_node_is_empty() {
    let mut g = Grf::new();
    g.add_nd(1, 0, 0, 0);
    assert_eq!(g.mst(), vec![]);
    g.add_ed(1, 1, 4).unwrap();
    assert_eq!(g.mst(), vec![]);
}

#[test]
fn mst_of_the_triangle_weighs_three() {
    let mut g = Grf::new();
    g.add_nd(1, 0, 0, 0);
    g.add_nd(2, 0, 1, 0);
    g.add_nd(3, 0, 0, 1);
    both_ways(&mut g, 1, 2, 1);
    both_ways(&mut g, 2, 3, 2);
    both_ways(&mut g, 1, 3, 5);
    let tree = g.mst();
    assert_eq!(tree, vec![(1, 2, 1), (2, 3, 2)]);
    let total: u64 = tree.iter().map(|e| e.2).sum();
    assert_eq!(total, 3);
}

#[test]
fn mst_has_one_arc_less_than_reached_nodes() {
    let mut g = Grf::new();
    for id in 0..6 {
        g.add_nd(id, 0, 0, 0);
    }
    both_ways(&mut g, 0, 1, 7);
    both_ways(&mut g, 0, 2, 3);
    both_ways(&mut g, 1, 2, 1);
    both_ways(&mut g, 1, 3, 4);
    both_ways(&mut g, 2, 3, 8);
    both_ways(&mut g, 4, 5, 1);
    let tree = g.mst();
    assert_eq!(tree.len(), 3);
    let total: u64 = tree.iter().map(|e| e.2).sum();
    assert_eq!(total, 8);
    assert_eq!(tree, vec![(0, 2, 3), (2, 1, 1), (1, 3, 4)]);
}

#[test]
fn mst_follows_outgoing_arcs_only() {
    let mut g = Grf::new();
    g.add_nd(1, 0, 0, 0);
    g.add_nd(2, 0, 0, 0);
    g.add_nd(3, 0, 0, 0);
    g.add_ed(2, 1, 1).unwrap();
    g.add_ed(1, 3, 6).unwrap();
    assert_eq!(g.mst(), vec![(1, 3, 6)]);
}

#[test]
fn mst_takes_the_earliest_of_equally_light_arcs() {
    let mut g = Grf::new();
    g.add_nd(1, 0, 0, 0);
    g.add_nd(2, 0, 0, 0);
    g.add_nd(3, 0, 0, 0);
    both_ways(&mut g, 1, 3, 2);
    both_ways(&mut g, 1, 2, 2);
    both_ways(&mut g, 2, 3, 2);
    assert_eq!(g.mst(), vec![(1, 3, 2), (1, 2, 2)]);
}

#[test]
fn mst_takes_a_lighter_arc_before_an_earlier_one() {
    let mut g = Grf::new();
    g.add_nd(1, 0, 0, 0);
    g.add_nd(2, 0, 0, 0);
    g.add_nd(3, 0, 0, 0);
    both_ways(&mut g, 1, 3, 2);
    both_ways(&mut g, 1, 2, 1);
    both_ways(&mut g, 2, 3, 2);
    assert_eq!(g.mst(), vec![(1, 2, 1), (1, 3, 2)]);
}

#[test]
fn mst_reports_identifiers_not_handles() {
    let mut g = Grf::new();
    g.add_nd(100, 0, 0, 0);
    g.add_nd(200, 0, 0, 0);
    both_ways(&mut g, 100, 200, 9);
    assert_eq!(g.mst(), vec![(100, 200, 9)]);
}

#[test]
fn max_flow_of_the_diamond_is_four() {
    let mut g = diamond();
    assert_eq!(g.max_flow(1, 4), 4);
    assert_eq!(g.arc(0).unwrap().ed, Ed { wt: 3, flow: 2 });
    assert_eq!(g.arc(1).unwrap().ed, Ed { wt: 2, flow: 2 });
    assert_eq!(g.arc(2).unwrap().ed, Ed { wt: 2, flow: 2 });
    assert_eq!(g.arc(3).unwrap().ed, Ed { wt: 3, flow: 2 });
}

#[test]
fn max_flow_conserves_flow_at_inner_nodes() {
    let mut g = Grf::new();
    for id in 1..7 {
        g.add_nd(id, 0, 0, 0);
    }
    g.add_ed(1, 2, 10).unwrap();
    g.add_ed(1, 3, 10).unwrap();
    g.add_ed(2, 4, 4).unwrap();
    g.add_ed(2, 5, 8).unwrap();
    g.add_ed(3, 5, 9).unwrap();
    g.add_ed(4, 6, 10).unwrap();
    g.add_ed(5, 6, 10).unwrap();
    let total = g.max_flow(1, 6);
    assert_eq!(total, 14);
    for h in 1..5 {
        assert_eq!(flow_in(&g, h), flow_out(&g, h));
    }
    assert_eq!(flow_out(&g, 0), total);
    assert_eq!(flow_in(&g, 5), total);
    for e in 0..g.edge_count() {
        let arc = g.arc(e).unwrap();
        assert!(arc.ed.flow <= arc.ed.wt);
    }
}

#[test]
fn max_flow_stays_under_the_capacity_out_of_the_source() {
    let mut g = Grf::new();
    for id in 1..4 {
        g.add_nd(id, 0, 0, 0);
    }
    g.add_ed(1, 2, 3).unwrap();
    g.add_ed(1, 2, 4).unwrap();
    g.add_ed(2, 3, 100).unwrap();
    let total = g.max_flow(1, 3);
    assert_eq!(total, 7);
    assert!(total <= 3 + 4);
}

#[test]
fn max_flow_between_separate_parts_is_zero() {
    let mut g = Grf::new();
    for id in 1..5 {
        g.add_nd(id, 0, 0, 0);
    }
    g.add_ed(1, 2, 5).unwrap();
    g.add_ed(3, 4, 5).unwrap();
    assert_eq!(g.max_flow(1, 4), 0);
    assert_eq!(g.arc(0).unwrap().ed.flow, 0);
    assert_eq!(g.arc(1).unwrap().ed.flow, 0);
}

#[test]
fn max_flow_against_the_arcs_is_zero() {
    let mut g = Grf::new();
    g.add_nd(1, 0, 0, 0);
    g.add_nd(2, 0, 0, 0);
    g.add_ed(1, 2, 5).unwrap();
    assert_eq!(g.max_flow(2, 1), 0);
    assert_eq!(g.arc(0).unwrap().ed.flow, 0);
}

#[test]
fn max_flow_from_a_node_to_itself_is_zero() {
    let mut g = Grf::new();
    g.add_nd(1, 0, 0, 0);
    g.add_nd(2, 0, 0, 0);
    g.add_ed(1, 2, 5).unwrap();
    g.add_ed(2, 1, 5).unwrap();
    assert_eq!(g.max_flow(1, 1), 0);
    assert_eq!(g.arc(0).unwrap().ed.flow, 0);
    assert_eq!(g.arc(1).unwrap().ed.flow, 0);
}

#[test]
fn max_flow_ignores_arcs_without_capacity() {
    let mut g = Grf::new();
    g.add_nd(1, 0, 0, 0);
    g.add_nd(2, 0, 0, 0);
    g.add_ed(1, 2, 0).unwrap();
    assert_eq!(g.max_flow(1, 2), 0);
    assert_eq!(g.arc(0).unwrap().ed, Ed { wt: 0, flow: 0 });
}

#[test]
fn max_flow_a_second_time_adds_nothing() {
    let mut g = diamond();
    assert_eq!(g.max_flow(1, 4), 4);
    assert_eq!(g.max_flow(1, 4), 0);
    assert_eq!(g.arc(0).unwrap().ed.flow, 2);
}

#[test]
fn max_flow_does_not_take_flow_back() {
    let mut g = Grf::new();
    for id in 0..7 {
        g.add_nd(id, 0, 0, 0);
    }
    // 0 is the source and 6 the sink; the short way through 1 and 2 blocks
    // the only exit of the way through 3.
    g.add_ed(0, 3, 1).unwrap();
    g.add_ed(0, 1, 1).unwrap();
    g.add_ed(1, 2, 1).unwrap();
    g.add_ed(3, 2, 1).unwrap();
    g.add_ed(2, 6, 1).unwrap();
    g.add_ed(1, 4, 1).unwrap();
    g.add_ed(4, 5, 1).unwrap();
    g.add_ed(5, 6, 1).unwrap();
    assert_eq!(g.max_flow(0, 6), 1);
    assert_eq!(g.arc(1).unwrap().ed.flow, 1);
    assert_eq!(g.arc(2).unwrap().ed.flow, 1);
    assert_eq!(g.arc(4).unwrap().ed.flow, 1);
    assert_eq!(g.arc(0).unwrap().ed.flow, 0);
}

#[test]
fn max_flow_fills_large_capacities() {
    let mut g = Grf::new();
    g.add_nd(1, 0, 0, 0);
    g.add_nd(2, 0, 0, 0);
    g.add_ed(1, 2, u64::MAX).unwrap();
    g.add_ed(1, 2, u64::MAX).unwrap();
    assert_eq!(g.max_flow(1, 2), 2 * (u64::MAX as u128));
}

#[test]
fn find_path_gives_the_arcs_from_source_to_sink() {
    let g = diamond();
    let path = g.find_path(0, 3);
    assert_eq!(path, vec![1, 3]);
}

#[test]
fn find_path_prefers_fewer_arcs() {
    let mut g = Grf::new();
    for id in 0..4 {
        g.add_nd(id, 0, 0, 0);
    }
    g.add_ed(0, 3, 1).unwrap();
    g.add_ed(0, 1, 1).unwrap();
    g.add_ed(1, 2, 1).unwrap();
    g.add_ed(2, 3, 1).unwrap();
    assert_eq!(g.find_path(0, 3), vec![0]);
}

#[test]
fn find_path_takes_the_latest_of_equally_short_ways() {
    let mut g = Grf::new();
    for id in 0..5 {
        g.add_nd(id, 0, 0, 0);
    }
    g.add_ed(0, 1, 1).unwrap();
    g.add_ed(0, 2, 1).unwrap();
    g.add_ed(1, 4, 1).unwrap();
    g.add_ed(2, 4, 1).unwrap();
    g.add_ed(2, 4, 1).unwrap();
    assert_eq!(g.find_path(0, 4), vec![1, 4]);
    g.add_ed(0, 3, 1).unwrap();
    assert_eq!(g.find_path(0, 4), vec![1, 4]);
    g.add_ed(3, 4, 1).unwrap();
    assert_eq!(g.find_path(0, 4), vec![5, 6]);
}

#[test]
fn find_path_skips_full_arcs() {
    let mut g = diamond();
    assert_eq!(g.max_flow(1, 3), 2);
    assert_eq!(g.find_path(0, 2), vec![]);
    assert_eq!(g.find_path(0, 3), vec![0, 2]);
}

#[test]
fn find_path_to_the_start_is_empty() {
    let g = diamond();
    assert_eq!(g.find_path(0, 0), vec![]);
}

fn root(parent: &mut Vec<usize>, mut a: usize) -> usize {
    while parent[a] != a {
        parent[a] = parent[parent[a]];
        a = parent[a];
    }
    a
}

fn kruskal(n: usize, edges: &[(usize, usize, u64)]) -> u64 {
    let mut sorted: Vec<(usize, usize, u64)> = edges.to_vec();
    sorted.sort_by_key(|e| e.2);
    let mut parent: Vec<usize> = (0..n).collect();
    let mut total: u64 = 0;
    for (a, b, w) in sorted {
        let ra = root(&mut parent, a);
        let rb = root(&mut parent, b);
        if ra != rb {
            parent[ra] = rb;
            total += w;
        }
    }
    total
}

fn scrambled(state: &mut u64) -> u64 {
    *state = state.wrapping_mul(6364136223846793005).wrapping_add(1442695040888963407);
    *state >> 33
}

#[test]
fn mst_weighs_what_kruskal_finds() {
    let mut state: u64 = 7;
    for round in 0..40 {
        let n = 2 + (round % 9) as usize;
        let mut edges: Vec<(usize, usize, u64)> = Vec::new();
        for a in 1..n {
            let b = (scrambled(&mut state) as usize) % a;
            edges.push((a, b, scrambled(&mut state) % 20));
        }
        for _ in 0..n {
            let a = (scrambled(&mut state) as usize) % n;
            let b = (scrambled(&mut state) as usize) % n;
            edges.push((a, b, scrambled(&mut state) % 20));
        }
        let mut g = Grf::new();
        for id in 0..n {
            g.add_nd(id, 0, 0, 0);
        }
        for (a, b, w) in edges.iter() {
            both_ways(&mut g, *a, *b, *w);
        }
        let tree = g.mst();
        assert_eq!(tree.len(), n - 1);
        let total: u64 = tree.iter().map(|e| e.2).sum();
        assert_eq!(total, kruskal(n, &edges));
        let mut seen = vec![false; n];
        seen[0] = true;
        for (u, v, _) in tree {
            assert!(seen[u]);
            assert!(!seen[v]);
            seen[v] = true;
        }
    }
}

#[test]
fn max_flow_on_layered_networks_conserves_and_saturates() {
    let mut state: u64 = 11;
    for _ in 0..30 {
        let n = 6;
        let mut g = Grf::new();
        for id in 0..n {
            g.add_nd(id, 0, 0, 0);
        }
        let mut out_of_source: u128 = 0;
        for a in 0..n {
            for b in (a + 1)..n {
                if scrambled(&mut state) % 3 != 0 {
                    let w = scrambled(&mut state) % 10;
                    g.add_ed(a, b, w).unwrap();
                    if a == 0 {
                        out_of_source += w as u128;
                    }
                }
            }
        }
        let total = g.max_flow(0, n - 1);
        assert!(total <= out_of_source);
        assert_eq!(flow_out(&g, 0), total);
        assert_eq!(flow_in(&g, n - 1), total);
        for h in 1..(n - 1) {
            assert_eq!(flow_in(&g, h), flow_out(&g, h));
        }
        for e in 0..g.edge_count() {
            let arc = g.arc(e).unwrap();
            assert!(arc.ed.flow <= arc.ed.wt);
        }
        assert_eq!(g.find_path(0, n - 1), vec![]);
    }
}
