//! A binary min-heap of `(cost, cell)` pairs: the frontier planner's
//! priority queue. Pairs come out smallest first, by cost and then by
//! cell index, the order std's `BinaryHeap` of `Reverse` pairs keeps.

use vstd::prelude::*;
use vstd::multiset::Multiset;

verus! {

broadcast use vstd::seq_lib::group_to_multiset_ensures, vstd::multiset::group_multiset_axioms;

/// `a` comes out no later than `b`: smaller cost, or equal cost and a
/// smaller (or equal) cell.
pub open spec fn le(a: (u32, usize), b: (u32, usize)) -> bool {
    a.0 < b.0 || (a.0 == b.0 && a.1 <= b.1)
}

pub open spec fn parent(i: int) -> int {
    (i - 1) / 2
}

/// A min-heap of `(cost, cell)` pairs.
pub struct MinQueue {
    data: Vec<(u32, usize)>,
}

impl MinQueue {
    /// The pairs waiting, as a multiset.
    pub closed spec fn view(&self) -> Multiset<(u32, usize)> {
        self.data@.to_multiset()
    }

    pub closed spec fn wf(&self) -> bool {
        heap_ordered(self.data@)
    }

    pub fn new() -> (q: Self)
        ensures
            q.wf(),
            q.view() =~= Multiset::empty(),
    {
        let q = MinQueue { data: Vec::new() };
        assert(q.data@ =~= Seq::<(u32, usize)>::empty());
        q
    }

    pub fn len(&self) -> (n: usize)
        ensures
            n == self.view().len(),
    {
        self.data.len()
    }

    /// Queue `e`.
    pub fn push(&mut self, e: (u32, usize))
        requires
            old(self).wf(),
        ensures
            final(self).wf(),
            final(self).view() =~= old(self).view().insert(e),
    {
        self.data.push(e);
        let ghost pushed = self.data@;
        let mut k = self.data.len() - 1;
        while k > 0
            invariant
                0 <= k < self.data@.len(),
                self.data@.to_multiset() =~= pushed.to_multiset(),
                almost_heap_up(self.data@, k as int),
            ensures
                self.data@.to_multiset() =~= pushed.to_multiset(),
                heap_ordered(self.data@),
            decreases k,
        {
            let p = (k - 1) / 2;
            let a = self.data[p];
            let b = self.data[k];
            if a.0 < b.0 || (a.0 == b.0 && a.1 <= b.1) {
                proof {
                    assert(heap_ordered(self.data@));
                }
                break;
            }
            let ghost before = self.data@;
            self.data.set(p, b);
            self.data.set(k, a);
            proof {
                lemma_swap_multiset(before, p as int, k as int);
                assert(self.data@ =~= before.update(p as int, b).update(k as int, a));
                lemma_sift_up_step(before, k as int);
            }
            k = p;
        }
        proof {
            assert(pushed.to_multiset() =~= old(self).data@.to_multiset().insert(e)) by {
                assert(pushed =~= old(self).data@.push(e));
            }
        }
    }

    /// The smallest pair waiting, removed; `None` when nothing waits.
    pub fn pop(&mut self) -> (r: Option<(u32, usize)>)
        requires
            old(self).wf(),
        ensures
            final(self).wf(),
            match r {
                None => old(self).view().len() == 0 && final(self).view() == old(self).view(),
                Some(e) => {
                    &&& old(self).view().count(e) > 0
                    &&& final(self).view() =~= old(self).view().remove(e)
                    &&& forall|x| old(self).view().count(x) > 0 ==> le(e, x)
                },
            },
    {
        let n = self.data.len();
        if n == 0 {
            return None;
        }
        proof {
            lemma_root_is_min(self.data@);
        }
        let ghost start = self.data@;
        let top = self.data[0];
        let last = self.data.pop().unwrap();
        proof {
            assert(start.drop_last() == self.data@);
            assert(start.drop_last() =~= start.remove(n - 1));
        }
        if n == 1 {
            proof {
                assert(self.data@ =~= Seq::<(u32, usize)>::empty());
                assert(heap_ordered(self.data@));
            }
            return Some(top);
        }
        self.data.set(0, last);
        proof {
            // The last pair moved to the root; the root left.
            let s = start.remove(n - 1);
            assert(self.data@ =~= s.update(0, last));
            assert(s[0] == top);
            assert(start[n - 1] == last);
            assert(self.data@.to_multiset() =~= start.to_multiset().remove(top)) by {
                assert(s.to_multiset() =~= start.to_multiset().remove(last));
                assert(s.update(0, last).to_multiset() =~= s.to_multiset().insert(last).remove(top));
            }
            assert(almost_heap_down(self.data@, 0));
        }
        let ghost moved = self.data@;
        let m = self.data.len();
        let mut k: usize = 0;
        loop
            invariant
                m == self.data@.len(),
                m >= 1,
                k < m,
                self.data@.to_multiset() =~= moved.to_multiset(),
                almost_heap_down(self.data@, k as int),
            ensures
                self.data@.to_multiset() =~= moved.to_multiset(),
                heap_ordered(self.data@),
            decreases m - k,
        {
            if k >= m / 2 {
                // a leaf: no children to sift past
                proof {
                    lemma_sift_down_done(self.data@, k as int);
                }
                break;
            }
            let l = 2 * k + 1;
            let r = 2 * k + 2;
            let mut smallest = k;
            if l < m {
                let a = self.data[l];
                let b = self.data[smallest];
                if a.0 < b.0 || (a.0 == b.0 && a.1 < b.1) {
                    smallest = l;
                }
            }
            if r < m {
                let a = self.data[r];
                let b = self.data[smallest];
                if a.0 < b.0 || (a.0 == b.0 && a.1 < b.1) {
                    smallest = r;
                }
            }
            if smallest == k {
                proof {
                    lemma_sift_down_done(self.data@, k as int);
                }
                break;
            }
            let ghost before = self.data@;
            let x = self.data[k];
            let y = self.data[smallest];
            self.data.set(k, y);
            self.data.set(smallest, x);
            proof {
                lemma_swap_multiset(before, k as int, smallest as int);
                assert(self.data@ =~= before.update(k as int, y).update(smallest as int, x));
                lemma_sift_down_step(before, k as int, smallest as int);
            }
            k = smallest;
        }
        Some(top)
    }
}

/// Every pair comes out no earlier than its parent.
pub open spec fn heap_ordered(s: Seq<(u32, usize)>) -> bool {
    forall|i: int| 0 < i < s.len() ==> le(#[trigger] s[parent(i)], s[i])
}

/// Heap order everywhere but between `k` and its parent, and `k`'s
/// parent is no later than `k`'s children.
pub open spec fn almost_heap_up(s: Seq<(u32, usize)>, k: int) -> bool {
    &&& forall|i: int| 0 < i < s.len() && i != k ==> le(#[trigger] s[parent(i)], s[i])
    &&& k > 0 ==> forall|i: int| 0 < i < s.len() && parent(i) == k ==> le(s[parent(k)], #[trigger] s[i])
}

/// Heap order everywhere but between `k` and its children, and `k`'s
/// parent is no later than `k`'s children.
pub open spec fn almost_heap_down(s: Seq<(u32, usize)>, k: int) -> bool {
    &&& forall|i: int| 0 < i < s.len() && parent(i) != k ==> le(#[trigger] s[parent(i)], s[i])
    &&& k > 0 ==> forall|i: int| 0 < i < s.len() && parent(i) == k ==> le(s[parent(k)], #[trigger] s[i])
}

proof fn lemma_le_trans(a: (u32, usize), b: (u32, usize), c: (u32, usize))
    requires
        le(a, b),
        le(b, c),
    ensures
        le(a, c),
{
}

proof fn lemma_swap_multiset(s: Seq<(u32, usize)>, i: int, j: int)
    requires
        0 <= i < s.len(),
        0 <= j < s.len(),
    ensures
        s.update(i, s[j]).update(j, s[i]).to_multiset() =~= s.to_multiset(),
{
    let t = s.update(i, s[j]);
    assert(t.to_multiset() =~= s.to_multiset().insert(s[j]).remove(s[i]));
    assert(t[j] == if i == j { s[i] } else { s[j] });
    assert(t.update(j, s[i]).to_multiset() =~= t.to_multiset().insert(s[i]).remove(t[j]));
}

proof fn lemma_sift_up_step(s: Seq<(u32, usize)>, k: int)
    requires
        0 < k < s.len(),
        almost_heap_up(s, k),
        !le(s[parent(k)], s[k]),
    ensures
        almost_heap_up(s.update(parent(k), s[k]).update(k, s[parent(k)]), parent(k)),
{
    let p = parent(k);
    let t = s.update(p, s[k]).update(k, s[p]);
    assert(le(s[k], s[p]));
    assert forall|i: int| 0 < i < t.len() && i != p implies le(#[trigger] t[parent(i)], t[i]) by {
        if i == k {
        } else if parent(i) == k {
            // a child of k: under the old parent of k, which is now at k
            assert(le(s[p], s[i]));
        } else if parent(i) == p {
            // k's sibling: its parent is now s[k], smaller than s[p]
            assert(le(s[p], s[i]));
            lemma_le_trans(s[k], s[p], s[i]);
        } else if i == p {
        } else {
        }
    }
    if p > 0 {
        assert forall|i: int| 0 < i < t.len() && parent(i) == p implies le(t[parent(p)], #[trigger] t[i]) by {
            let g = parent(p);
            assert(le(s[g], s[p]));
            if i == k {
                assert(t[i] == s[p]);
            } else {
                assert(le(s[p], s[i]));
                lemma_le_trans(s[g], s[p], s[i]);
            }
        }
    }
}

proof fn lemma_sift_down_done(s: Seq<(u32, usize)>, k: int)
    requires
        0 <= k < s.len(),
        almost_heap_down(s, k),
        2 * k + 1 < s.len() ==> le(s[k], s[2 * k + 1]),
        2 * k + 2 < s.len() ==> le(s[k], s[2 * k + 2]),
    ensures
        heap_ordered(s),
{
    assert forall|i: int| 0 < i < s.len() implies le(#[trigger] s[parent(i)], s[i]) by {
        if parent(i) == k {
            assert(i == 2 * k + 1 || i == 2 * k + 2);
        }
    }
}

proof fn lemma_sift_down_step(s: Seq<(u32, usize)>, k: int, c: int)
    requires
        0 <= k < s.len(),
        c == 2 * k + 1 || c == 2 * k + 2,
        c < s.len(),
        almost_heap_down(s, k),
        le(s[c], s[k]),
        s[c] != s[k],
        2 * k + 1 < s.len() ==> le(s[c], s[2 * k + 1]),
        2 * k + 2 < s.len() ==> le(s[c], s[2 * k + 2]),
    ensures
        almost_heap_down(s.update(k, s[c]).update(c, s[k]), c),
{
    let t = s.update(k, s[c]).update(c, s[k]);
    assert(parent(c) == k);
    assert forall|i: int| 0 < i < t.len() && parent(i) != c implies le(#[trigger] t[parent(i)], t[i]) by {
        if i == c {
            // t[k] = s[c] <= s[k] = t[c]
        } else if parent(i) == k {
            // c's sibling
            assert(i == 2 * k + 1 || i == 2 * k + 2);
        } else if i == k {
            // k's own parent: it was no later than k's children
            assert(le(s[parent(k)], s[c]));
        } else {
        }
    }
    assert forall|i: int| 0 < i < t.len() && parent(i) == c implies le(t[parent(c)], #[trigger] t[i]) by {
        assert(le(s[c], s[i]));
    }
}

proof fn lemma_root_is_min(s: Seq<(u32, usize)>)
    requires
        heap_ordered(s),
        s.len() > 0,
    ensures
        forall|x| s.to_multiset().count(x) > 0 ==> le(s[0], x),
{
    assert forall|i: int| 0 <= i < s.len() implies le(s[0], #[trigger] s[i]) by {
        lemma_root_le(s, i);
    }
    assert forall|x| s.to_multiset().count(x) > 0 implies le(s[0], x) by {
        assert(s.contains(x));
        let i = choose|i: int| 0 <= i < s.len() && s[i] == x;
        lemma_root_le(s, i);
    }
}

proof fn lemma_root_le(s: Seq<(u32, usize)>, i: int)
    requires
        heap_ordered(s),
        0 <= i < s.len(),
    ensures
        le(s[0], s[i]),
    decreases i,
{
    if i > 0 {
        lemma_root_le(s, parent(i));
        lemma_le_trans(s[0], s[parent(i)], s[i]);
    }
}

} // verus!
