//! External sorting of files of little-endian `u64` records: the decisions
//! and data transformations of both phases, with their contracts.
pub mod cli;
pub mod config;
pub mod dataset;
pub mod heap;
pub mod inspect;
pub mod io;
pub mod phase1;
pub mod phase2;
pub mod sort;
pub mod text;

use vstd::prelude::*;
use vstd::multiset::Multiset;

verus! {

/// The settings of one sort.
#[derive(Clone, Copy, Debug)]
pub struct SortConfig {
    /// Threads that sort a chunk in phase 1.
    pub thread_count: usize,
    /// Recorded with the results of a sort. It does not change the merge: phase 2
    /// opens every run at once and merges them all in one pass whatever its value.
    pub fan_in_factor: usize,
}

/// The first and last values of a sorted output.
#[derive(Debug)]
pub struct SortOutputPreview {
    pub first_values: Vec<u64>,
    pub last_values: Vec<u64>,
}

/// The values are in ascending order.
pub open spec fn is_sorted(s: Seq<u64>) -> bool {
    forall|i: int, j: int| 0 <= i <= j < s.len() ==> s[i] <= s[j]
}

/// All values of all runs, counted with multiplicity.
pub open spec fn runs_multiset(runs: Seq<Seq<u64>>) -> Multiset<u64>
    decreases runs.len(),
{
    if runs.len() == 0 {
        Multiset::empty()
    } else {
        runs_multiset(runs.drop_last()).add(runs.last().to_multiset())
    }
}

/// The contents of a vector of runs.
pub open spec fn runs_view(runs: Seq<Vec<u64>>) -> Seq<Seq<u64>> {
    Seq::new(runs.len(), |i: int| runs[i]@)
}

/// Every run is sorted.
pub open spec fn all_sorted(runs: Seq<Seq<u64>>) -> bool {
    forall|i: int| 0 <= i < runs.len() ==> #[trigger] is_sorted(runs[i])
}

/// Two sorted sequences holding the same values are the same sequence.
pub proof fn lemma_sorted_unique(a: Seq<u64>, b: Seq<u64>)
    requires
        is_sorted(a),
        is_sorted(b),
        a.to_multiset() == b.to_multiset(),
    ensures
        a == b,
    decreases a.len(),
{
    broadcast use {
        vstd::seq_lib::to_multiset_contains,
        vstd::seq_lib::to_multiset_remove,
        vstd::multiset::group_multiset_axioms,
    };
    vstd::seq_lib::to_multiset_len(a);
    vstd::seq_lib::to_multiset_len(b);
    if a.len() == 0 {
        assert(a =~= b);
    } else {
        assert(a.contains(a[0]));
        assert(a.to_multiset().count(a[0]) > 0);
        assert(b.contains(a[0]));
        let j = choose|j: int| 0 <= j < b.len() && b[j] == a[0];
        assert(b[0] <= a[0]);
        assert(b.contains(b[0]));
        assert(b.to_multiset().count(b[0]) > 0);
        assert(a.contains(b[0]));
        let k = choose|k: int| 0 <= k < a.len() && a[k] == b[0];
        assert(a[0] <= b[0]);
        assert(a.remove(0) =~= a.drop_first());
        assert(b.remove(0) =~= b.drop_first());
        assert(a.drop_first().to_multiset() == a.to_multiset().remove(a[0]));
        assert(b.drop_first().to_multiset() == b.to_multiset().remove(b[0]));
        lemma_sorted_unique(a.drop_first(), b.drop_first());
        assert(a =~= b) by {
            assert forall|i: int| 0 <= i < a.len() implies a[i] == b[i] by {
                if i > 0 {
                    assert(a[i] == a.drop_first()[i - 1]);
                    assert(b[i] == b.drop_first()[i - 1]);
                }
            }
        }
    }
}

/// The sorted output depends only on the values of the input: inputs that hold the
/// same values have the same number of records, and their sorted outputs are the
/// same values in the same order, written as the same bytes.
pub proof fn lemma_sort_is_determined(input1: Seq<u64>, input2: Seq<u64>, out1: Seq<u64>, out2: Seq<u64>)
    requires
        input1.to_multiset() == input2.to_multiset(),
        out1.to_multiset() == input1.to_multiset(),
        out2.to_multiset() == input2.to_multiset(),
        is_sorted(out1),
        is_sorted(out2),
    ensures
        input1.len() == input2.len(),
        out1 == out2,
        crate::io::encode_values(out1) == crate::io::encode_values(out2),
{
    vstd::seq_lib::to_multiset_len(input1);
    vstd::seq_lib::to_multiset_len(input2);
    lemma_sorted_unique(out1, out2);
}

/// The values of `m` in ascending order.
pub open spec fn sorted_arrangement(m: Multiset<u64>) -> Seq<u64> {
    choose|s: Seq<u64>| is_sorted(s) && s.to_multiset() == m
}

/// A sorted sequence is the ascending arrangement of its values: sorting is
/// determined by the values alone, and sorting a sorted sequence gives it back.
pub proof fn lemma_sorted_arrangement(s: Seq<u64>)
    requires
        is_sorted(s),
    ensures
        s == sorted_arrangement(s.to_multiset()),
{
    let m = s.to_multiset();
    assert(is_sorted(s) && s.to_multiset() == m);
    let t = sorted_arrangement(m);
    lemma_sorted_unique(s, t);
}

} // verus!
