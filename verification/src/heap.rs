//! A binary min-heap of `(value, source)` entries, the priority queue of the
//! k-way merge. Entries are ordered lexicographically: by value, then by the
//! index of the run they came from.
use vstd::prelude::*;
use vstd::multiset::Multiset;

verus! {

broadcast use {
    vstd::seq_lib::to_multiset_build,
    vstd::seq_lib::to_multiset_update,
    vstd::seq_lib::to_multiset_contains,
    vstd::multiset::group_multiset_axioms,
};

/// An entry of the merge: a value and the index of the run it was read from.
pub type Entry = (u64, usize);

/// The lexicographic order on entries.
pub open spec fn entry_le(a: Entry, b: Entry) -> bool {
    a.0 < b.0 || (a.0 == b.0 && a.1 <= b.1)
}

/// `a` comes strictly before `b`.
fn entry_less(a: Entry, b: Entry) -> (r: bool)
    ensures
        r == !entry_le(b, a),
{
    a.0 < b.0 || (a.0 == b.0 && a.1 < b.1)
}

spec fn parent(i: int) -> int {
    (i - 1) / 2
}

/// Every entry is no smaller than its parent.
spec fn heap_ordered(s: Seq<Entry>) -> bool {
    forall|j: int| 0 < j < s.len() ==> #[trigger] entry_le(s[parent(j)], s[j])
}

/// The heap order holds except on the edge above `k`, and the parent of `k`
/// (if any) is no larger than the children of `k`.
spec fn ordered_except_up(s: Seq<Entry>, k: int) -> bool {
    &&& forall|j: int| 0 < j < s.len() && j != k ==> #[trigger] entry_le(s[parent(j)], s[j])
    &&& forall|j: int|
        0 < j < s.len() && parent(j) == k && k > 0 ==> #[trigger] entry_le(s[parent(k)], s[j])
}

/// The heap order holds except on the edges below `k`, and the parent of `k`
/// (if any) is no larger than the children of `k`.
spec fn ordered_except_down(s: Seq<Entry>, k: int) -> bool {
    &&& forall|j: int| 0 < j < s.len() && parent(j) != k ==> #[trigger] entry_le(s[parent(j)], s[j])
    &&& forall|j: int|
        0 < j < s.len() && parent(j) == k && k > 0 ==> #[trigger] entry_le(s[parent(k)], s[j])
}

proof fn lemma_root_is_least(s: Seq<Entry>, i: int)
    requires
        heap_ordered(s),
        0 <= i < s.len(),
    ensures
        entry_le(s[0], s[i]),
    decreases i,
{
    if i > 0 {
        lemma_root_is_least(s, parent(i));
        assert(entry_le(s[parent(i)], s[i]));
    }
}

proof fn lemma_root_below_all(s: Seq<Entry>)
    requires
        heap_ordered(s),
        s.len() > 0,
    ensures
        forall|x: Entry| s.to_multiset().contains(x) ==> entry_le(s[0], x),
{
    assert forall|x: Entry| s.to_multiset().contains(x) implies entry_le(s[0], x) by {
        assert(s.to_multiset().count(x) > 0);
        assert(s.contains(x));
        let i = choose|i: int| 0 <= i < s.len() && s[i] == x;
        lemma_root_is_least(s, i);
    }
}

/// A priority queue that hands out its least entry first.
pub struct MinHeap {
    items: Vec<Entry>,
}

impl View for MinHeap {
    type V = Multiset<Entry>;

    closed spec fn view(&self) -> Multiset<Entry> {
        self.items@.to_multiset()
    }
}

impl MinHeap {
    /// The heap's internal order holds.
    pub closed spec fn well_formed(&self) -> bool {
        heap_ordered(self.items@)
    }

    /// An empty heap.
    pub fn new() -> (heap: Self)
        ensures
            heap.well_formed(),
            heap@ =~= Multiset::<Entry>::empty(),
    {
        MinHeap { items: Vec::new() }
    }

    /// The number of entries held.
    pub fn len(&self) -> (n: usize)
        ensures
            n == self@.len(),
    {
        proof {
            vstd::seq_lib::to_multiset_len(self.items@);
        }
        self.items.len()
    }

    /// Whether the heap holds no entry.
    pub fn is_empty(&self) -> (b: bool)
        ensures
            b <==> self@.len() == 0,
    {
        proof {
            vstd::seq_lib::to_multiset_len(self.items@);
        }
        self.items.len() == 0
    }

    /// Adds an entry.
    pub fn push(&mut self, entry: Entry)
        requires
            old(self).well_formed(),
        ensures
            final(self).well_formed(),
            final(self)@ =~= old(self)@.insert(entry),
    {
        self.items.push(entry);
        let last = self.items.len() - 1;
        self.sift_up(last);
    }

    fn sift_up(&mut self, start: usize)
        requires
            start < old(self).items@.len(),
            ordered_except_up(old(self).items@, start as int),
        ensures
            heap_ordered(final(self).items@),
            final(self).items@.to_multiset() =~= old(self).items@.to_multiset(),
            final(self).items@.len() == old(self).items@.len(),
    {
        let mut k = start;
        loop
            invariant
                k < self.items@.len(),
                self.items@.len() == old(self).items@.len(),
                ordered_except_up(self.items@, k as int),
                self.items@.to_multiset() =~= old(self).items@.to_multiset(),
            ensures
                heap_ordered(self.items@),
            decreases k,
        {
            if k == 0 {
                break;
            }
            let p = (k - 1) / 2;
            let child = self.items[k];
            let up = self.items[p];
            if !entry_less(child, up) {
                break;
            }
            let ghost s = self.items@;
            self.items.set(p, child);
            self.items.set(k, up);
            proof {
                let s2 = self.items@;
                assert(s2 =~= s.update(p as int, child).update(k as int, up));
                assert(s.update(p as int, child).to_multiset() =~= s.to_multiset().insert(
                    child,
                ).remove(up));
                assert(s2.to_multiset() =~= s.to_multiset());
                assert forall|j: int| 0 < j < s2.len() && j != p implies #[trigger] entry_le(
                    s2[parent(j)],
                    s2[j],
                ) by {
                    if j == k as int {
                    } else if parent(j) == p as int {
                        assert(entry_le(s[parent(j)], s[j]));
                    } else if parent(j) == k as int {
                        assert(entry_le(s[parent(k as int)], s[j]));
                    } else {
                        assert(entry_le(s[parent(j)], s[j]));
                    }
                }
                assert forall|j: int|
                    0 < j < s2.len() && parent(j) == p && p > 0 implies #[trigger] entry_le(
                    s2[parent(p as int)],
                    s2[j],
                ) by {
                    assert(entry_le(s[parent(p as int)], s[p as int]));
                    if j != k as int {
                        assert(entry_le(s[parent(j)], s[j]));
                    }
                }
            }
            k = p;
        }
    }

    /// Removes and returns the least entry, or `None` when the heap is empty.
    pub fn pop(&mut self) -> (least: Option<Entry>)
        requires
            old(self).well_formed(),
        ensures
            final(self).well_formed(),
            match least {
                None => old(self)@.len() == 0 && final(self)@ == old(self)@,
                Some(e) => {
                    &&& old(self)@.contains(e)
                    &&& forall|x: Entry| old(self)@.contains(x) ==> entry_le(e, x)
                    &&& final(self)@ =~= old(self)@.remove(e)
                },
            },
    {
        proof {
            vstd::seq_lib::to_multiset_len(self.items@);
        }
        if self.items.len() == 0 {
            return None;
        }
        let ghost s = self.items@;
        proof {
            lemma_root_below_all(s);
            assert(s.to_multiset().count(s[0]) > 0);
        }
        let root = self.items[0];
        let last = self.items.pop().unwrap();
        proof {
            assert(s =~= self.items@.push(last));
        }
        if self.items.len() > 0 {
            let ghost t = self.items@;
            self.items.set(0, last);
            proof {
                assert(t[0] == root);
                assert(self.items@ =~= t.update(0, last));
                assert(self.items@.to_multiset() =~= t.to_multiset().insert(last).remove(root));
                assert forall|j: int|
                    0 < j < self.items@.len() && parent(j) != 0 implies #[trigger] entry_le(
                    self.items@[parent(j)],
                    self.items@[j],
                ) by {
                    assert(entry_le(s[parent(j)], s[j]));
                }
            }
            self.sift_down(0);
        }
        Some(root)
    }

    fn sift_down(&mut self, start: usize)
        requires
            start < old(self).items@.len(),
            ordered_except_down(old(self).items@, start as int),
        ensures
            heap_ordered(final(self).items@),
            final(self).items@.to_multiset() =~= old(self).items@.to_multiset(),
            final(self).items@.len() == old(self).items@.len(),
    {
        let mut k = start;
        let n = self.items.len();
        loop
            invariant
                n == self.items@.len(),
                k < n,
                n == old(self).items@.len(),
                ordered_except_down(self.items@, k as int),
                self.items@.to_multiset() =~= old(self).items@.to_multiset(),
            ensures
                heap_ordered(self.items@),
            decreases n - k,
        {
            if k >= n / 2 {
                proof {
                    assert forall|j: int| 0 < j < self.items@.len() implies #[trigger] entry_le(
                        self.items@[parent(j)],
                        self.items@[j],
                    ) by {
                        assert(parent(j) != k as int);
                    }
                }
                break;
            }
            let left = 2 * k + 1;
            let right = 2 * k + 2;
            let mut c = left;
            if right < n && entry_less(self.items[right], self.items[left]) {
                c = right;
            }
            let cur = self.items[k];
            let small = self.items[c];
            if !entry_less(small, cur) {
                proof {
                    let s = self.items@;
                    assert forall|j: int| 0 < j < s.len() implies #[trigger] entry_le(
                        s[parent(j)],
                        s[j],
                    ) by {
                        if parent(j) == k as int {
                            assert(j == left || j == right);
                        }
                    }
                }
                break;
            }
            let ghost s = self.items@;
            self.items.set(k, small);
            self.items.set(c, cur);
            proof {
                let s2 = self.items@;
                assert(s2 =~= s.update(k as int, small).update(c as int, cur));
                assert(s.update(k as int, small).to_multiset() =~= s.to_multiset().insert(
                    small,
                ).remove(cur));
                assert(s2.to_multiset() =~= s.to_multiset());
                assert forall|j: int| 0 < j < s2.len() && parent(j) != c implies #[trigger] entry_le(
                    s2[parent(j)],
                    s2[j],
                ) by {
                    if j == k as int {
                        assert(entry_le(s[parent(k as int)], s[c as int]));
                    } else if j == c as int {
                    } else if parent(j) == k as int {
                        assert(j == left || j == right);
                    } else {
                        assert(entry_le(s[parent(j)], s[j]));
                    }
                }
                assert forall|j: int|
                    0 < j < s2.len() && parent(j) == c && c > 0 implies #[trigger] entry_le(
                    s2[parent(c as int)],
                    s2[j],
                ) by {
                    assert(entry_le(s[parent(j)], s[j]));
                }
            }
            k = c;
        }
    }
}

} // verus!
