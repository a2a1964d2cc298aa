//! A binary min-heap of frontier arcs, ordered by weight.

use vstd::multiset::Multiset;
use vstd::prelude::*;

verus! {

/// An arc on the frontier of the tree: the handles of its two ends, its
/// weight, and its index in the graph.
#[derive(Clone, Copy, Debug, PartialEq, Eq, Structural)]
pub struct Edge {
    pub u: usize,
    pub v: usize,
    pub wt: u64,
    pub e: usize,
}

impl Edge {
    pub fn new(u: usize, v: usize, wt: u64, e: usize) -> (r: Edge)
        ensures
            r == (Edge { u, v, wt, e }),
    {
        Edge { u, v, wt, e }
    }
}

/// `a` leaves the queue no later than `b`: it is lighter, or as light and of
/// no higher index.
pub open spec fn goes_first(a: Edge, b: Edge) -> bool {
    a.wt < b.wt || (a.wt == b.wt && a.e <= b.e)
}

/// Whether `a` leaves the queue no later than `b`.
fn first(a: &Edge, b: &Edge) -> (r: bool)
    ensures
        r == goes_first(*a, *b),
{
    a.wt < b.wt || (a.wt == b.wt && a.e <= b.e)
}

/// The parent of every entry but the first leaves the queue no later than
/// the entry.
pub open spec fn heap_ordered(s: Seq<Edge>) -> bool {
    forall|k: int| 1 <= k < s.len() ==> goes_first(s[(k - 1) / 2], #[trigger] s[k])
}

/// Replacing one entry of a sequence takes the old entry out of its multiset
/// and puts the new one in.
pub proof fn lemma_update_to_multiset(s: Seq<Edge>, i: int, x: Edge)
    requires
        0 <= i < s.len(),
    ensures
        s.update(i, x).to_multiset() == s.to_multiset().remove(s[i]).insert(x),
{
    assert(s.update(i, x) =~= s.remove(i).insert(i, x));
    vstd::seq_lib::to_multiset_remove(s, i);
    vstd::seq_lib::to_multiset_insert(s.remove(i), i, x);
}

/// Exchanging two entries of a sequence leaves its multiset as it was.
pub proof fn lemma_swap_to_multiset(s: Seq<Edge>, i: int, j: int)
    requires
        0 <= i < s.len(),
        0 <= j < s.len(),
    ensures
        s.update(i, s[j]).update(j, s[i]).to_multiset() == s.to_multiset(),
{
    broadcast use vstd::multiset::group_multiset_axioms;

    let m = s.to_multiset();
    let s1 = s.update(i, s[j]);
    lemma_update_to_multiset(s, i, s[j]);
    lemma_update_to_multiset(s1, j, s[i]);
    s.to_multiset_ensures();
    assert(s.contains(s[i]));
    assert(s.contains(s[j]));
    assert(s1.update(j, s[i]).to_multiset() =~= m);
}

/// In an ordered heap the first entry leaves no later than any other.
pub proof fn lemma_first_is_least(s: Seq<Edge>, k: int)
    requires
        heap_ordered(s),
        0 <= k < s.len(),
    ensures
        goes_first(s[0], s[k]),
    decreases k,
{
    if k > 0 {
        lemma_first_is_least(s, (k - 1) / 2);
    }
}

/// A priority queue of frontier arcs: `pop` hands out an arc of least weight,
/// and of several such the one with the least index. Its view is the multiset
/// of the arcs it holds.
pub struct MinHeap {
    data: Vec<Edge>,
}

impl View for MinHeap {
    type V = Multiset<Edge>;

    closed spec fn view(&self) -> Multiset<Edge> {
        self.data@.to_multiset()
    }
}

impl MinHeap {
    /// The entries are in heap order.
    pub closed spec fn wf(&self) -> bool {
        heap_ordered(self.data@)
    }

    pub fn new() -> (h: MinHeap)
        ensures
            h.wf(),
            h@ == Multiset::<Edge>::empty(),
    {
        let h = MinHeap { data: Vec::new() };
        proof {
            h.data@.to_multiset_ensures();
            assert(h@.len() == 0);
            assert(h@ =~= Multiset::<Edge>::empty()) by {
                broadcast use vstd::multiset::group_multiset_axioms;

                assert forall|x: Edge| h@.count(x) == 0 by {
                    assert(!h.data@.contains(x));
                }
            }
        }
        h
    }

    pub fn len(&self) -> (n: usize)
        ensures
            n == self@.len(),
    {
        proof {
            self.data@.to_multiset_ensures();
        }
        self.data.len()
    }

    fn swap(&mut self, i: usize, j: usize)
        requires
            i < old(self).data@.len(),
            j < old(self).data@.len(),
        ensures
            final(self).data@ == old(self).data@.update(i as int, old(self).data@[j as int]).update(
                j as int,
                old(self).data@[i as int],
            ),
            final(self)@ == old(self)@,
    {
        let a: Edge = self.data[i];
        let b: Edge = self.data[j];
        self.data.set(i, b);
        self.data.set(j, a);
        proof {
            lemma_swap_to_multiset(old(self).data@, i as int, j as int);
        }
    }

    /// Puts `x` into the queue.
    pub fn push(&mut self, x: Edge)
        requires
            old(self).wf(),
        ensures
            final(self).wf(),
            final(self)@ == old(self)@.insert(x),
    {
        proof {
            old(self).data@.to_multiset_ensures();
        }
        self.data.push(x);
        let mut i: usize = self.data.len() - 1;
        while i > 0 && !first(&self.data[(i - 1) / 2], &self.data[i])
            invariant
                i < self.data@.len(),
                self@ == old(self)@.insert(x),
                forall|k: int|
                    1 <= k < self.data@.len() && k != i ==> goes_first(
                        self.data@[(k - 1) / 2],
                        #[trigger] self.data@[k],
                    ),
                forall|k: int|
                    1 <= k < self.data@.len() && (k - 1) / 2 == i && i > 0 ==> goes_first(
                        self.data@[(i - 1) / 2],
                        #[trigger] self.data@[k],
                    ),
            decreases i,
        {
            let p: usize = (i - 1) / 2;
            self.swap(i, p);
            i = p;
        }
    }

    /// Takes out of the queue, if it holds any arc, the one that goes first.
    pub fn pop(&mut self) -> (r: Option<Edge>)
        requires
            old(self).wf(),
        ensures
            final(self).wf(),
            match r {
                None => old(self)@.len() == 0 && final(self)@ == old(self)@,
                Some(x) => {
                    &&& old(self)@.count(x) > 0
                    &&& final(self)@ == old(self)@.remove(x)
                    &&& forall|y: Edge| old(self)@.count(y) > 0 ==> goes_first(x, y)
                },
            },
    {
        proof {
            old(self).data@.to_multiset_ensures();
        }
        let n: usize = self.data.len();
        if n == 0 {
            return None;
        }
        let top: Edge = self.data[0];
        let last: Edge = self.data[n - 1];
        proof {
            assert(old(self).data@.contains(top));
            assert forall|y: Edge| old(self)@.count(y) > 0 implies goes_first(top, y) by {
                assert(old(self).data@.contains(y));
                let k = choose|k: int| 0 <= k < old(self).data@.len() && old(self).data@[k] == y;
                lemma_first_is_least(old(self).data@, k);
            }
        }
        self.data.set(0, last);
        self.data.pop();
        proof {
            broadcast use vstd::multiset::group_multiset_axioms;

            let s = old(self).data@;
            let d = s.drop_last();
            assert(d =~= s.remove(n - 1));
            vstd::seq_lib::to_multiset_remove(s, n - 1);
            if n > 1 {
                assert(self.data@ =~= d.update(0, last));
                lemma_update_to_multiset(d, 0, last);
                d.to_multiset_ensures();
                assert(d[0] == top);
                assert(d.contains(top));
                assert(s[n - 1] == last);
                assert(s.contains(last));
                assert(self@ =~= old(self)@.remove(top));
            } else {
                assert(self.data@ =~= d);
                assert(self@ =~= old(self)@.remove(top));
            }
        }
        let len: usize = self.data.len();
        let mut i: usize = 0;
        while i < len / 2
            invariant
                len == self.data@.len(),
                self@ == old(self)@.remove(top),
                forall|k: int|
                    1 <= k < len && (k - 1) / 2 != i ==> goes_first(
                        self.data@[(k - 1) / 2],
                        #[trigger] self.data@[k],
                    ),
                forall|k: int|
                    1 <= k < len && (k - 1) / 2 == i && i > 0 ==> goes_first(
                        self.data@[(i - 1) / 2],
                        #[trigger] self.data@[k],
                    ),
            ensures
                heap_ordered(self.data@),
                self@ == old(self)@.remove(top),
            decreases len - i,
        {
            let l: usize = 2 * i + 1;
            let r: usize = l + 1;
            let c: usize = if r < len && !first(&self.data[l], &self.data[r]) {
                r
            } else {
                l
            };
            if first(&self.data[i], &self.data[c]) {
                break;
            }
            self.swap(i, c);
            i = c;
        }
        Some(top)
    }
}

} // verus!
