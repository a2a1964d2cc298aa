use flowgraph::heap::Edge;
use flowgraph::heap::MinHeap;

#[test]
fn pop_of_an_empty_heap_is_none() {
    let mut h = MinHeap::new();
    assert_eq!(h.len(), 0);
    assert_eq!(h.pop(), None);
}

#[test]
fn pop_hands_out_lightest_first() {
    let mut h = MinHeap::new();
    let weights: [u64; 9] = [5, 3, 8, 1, 9, 2, 7, 3, 0];
    for (k, w) in weights.iter().enumerate() {
        h.push(Edge::new(k, k + 1, *w, k));
    }
    assert_eq!(h.len(), 9);
    let mut out: Vec<u64> = Vec::new();
    while let Some(e) = h.pop() {
        assert_eq!(e.wt, weights[e.e]);
        assert_eq!(e.u, e.e);
        assert_eq!(e.v, e.e + 1);
        out.push(e.wt);
    }
    assert_eq!(out, vec![0, 1, 2, 3, 3, 5, 7, 8, 9]);
    assert_eq!(h.len(), 0);
}

#[test]
fn push_and_pop_in_turn() {
    let mut h = MinHeap::new();
    h.push(Edge::new(0, 1, 4, 0));
    h.push(Edge::new(0, 2, 2, 1));
    assert_eq!(h.pop(), Some(Edge::new(0, 2, 2, 1)));
    h.push(Edge::new(2, 3, 1, 2));
    h.push(Edge::new(2, 4, 6, 3));
    assert_eq!(h.pop(), Some(Edge::new(2, 3, 1, 2)));
    assert_eq!(h.pop(), Some(Edge::new(0, 1, 4, 0)));
    assert_eq!(h.pop(), Some(Edge::new(2, 4, 6, 3)));
    assert_eq!(h.pop(), None);
}

#[test]
fn pop_hands_out_the_least_index_of_equal_weights() {
    let mut h = MinHeap::new();
    for e in [4usize, 1, 3, 0, 2] {
        h.push(Edge::new(0, e, 7, e));
    }
    h.push(Edge::new(0, 9, 6, 9));
    let mut out: Vec<usize> = Vec::new();
    while let Some(x) = h.pop() {
        out.push(x.e);
    }
    assert_eq!(out, vec![9, 0, 1, 2, 3, 4]);
}
