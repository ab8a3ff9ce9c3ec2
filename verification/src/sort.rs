//! Both phases over values held in memory: phase 1 cuts the values into sorted
//! runs with a `RunBuilder`, phase 2 merges all runs in one pass.
use vstd::prelude::*;
use crate::{is_sorted, runs_view, sorted_arrangement, lemma_sorted_arrangement};
use crate::phase1::{Phase1Error, RunBuilder};
use crate::phase2::{MergeError, merge_batch, lemma_sort_keeps_values};

verus! {

/// What can go wrong in a sort.
#[derive(Debug, PartialEq, Eq, Structural)]
pub enum SortError {
    /// Phase 1 refused its chunk capacity.
    Phase1(Phase1Error),
    /// Phase 2 refused to merge.
    Merge(MergeError),
}

fn copy_run(values: &Vec<u64>) -> (copy: Vec<u64>)
    ensures
        copy@ == values@,
{
    let copy = values.clone();
    assert(copy@ =~= values@);
    copy
}

/// Sorts `values` as the sort does a file: chunks of `chunk_capacity` values are
/// sorted into runs, and all runs are merged in one pass. Returns the sorted values
/// and the number of runs written; both depend only on the values given, not on their
/// order. A capacity of zero is refused, and so is an empty input, which leaves
/// phase 2 no run to merge.
pub fn sort_in_memory(values: &[u64], chunk_capacity: usize) -> (result: Result<
    (Vec<u64>, usize),
    SortError,
>)
    ensures
        chunk_capacity == 0 ==> result == Err::<(Vec<u64>, usize), SortError>(
            SortError::Phase1(Phase1Error::ZeroCapacity),
        ),
        chunk_capacity > 0 && values@.len() == 0 ==> result == Err::<(Vec<u64>, usize), SortError>(
            SortError::Merge(MergeError::NoRuns),
        ),
        chunk_capacity > 0 && values@.len() > 0 ==> (result matches Ok((sorted, runs_written)) && {
            &&& is_sorted(sorted@)
            &&& sorted@.to_multiset() =~= values@.to_multiset()
            &&& sorted@ == sorted_arrangement(values@.to_multiset())
            &&& runs_written == (values@.len() + chunk_capacity - 1) / (chunk_capacity as int)
        }),
{
    let mut builder = match RunBuilder::new(chunk_capacity) {
        Ok(b) => b,
        Err(e) => return Err(SortError::Phase1(e)),
    };
    let ghost cap = chunk_capacity as int;
    let mut runs: Vec<Vec<u64>> = Vec::new();
    let mut next: usize = 0;
    proof {
        assert(values@.subrange(0, 0) =~= Seq::<u64>::empty());
    }
    while next < values.len()
        invariant
            builder.well_formed(),
            builder.capacity() == cap,
            cap > 0,
            next <= values@.len(),
            builder.pending().len() < cap,
            builder.consumed() =~= values@.subrange(0, next as int),
            runs_view(runs@) =~= builder.runs_out(),
        decreases values@.len() - next,
    {
        next = builder.fill(values, next);
        if builder.is_full() {
            builder.sort_pending();
            let run = copy_run(builder.pending_values());
            runs.push(run);
            builder.clear();
        }
    }
    proof {
        assert(values@.subrange(0, values@.len() as int) =~= values@);
        builder.lemma_keeps_consumed_values();
    }
    let full = runs.len();
    let ghost full_runs = runs_view(runs@);
    let ghost tail_runs: Seq<Seq<u64>> = Seq::empty();
    let ghost leftover = values@.subrange(
        (full_runs.len() * cap) as int,
        values@.len() as int,
    );
    proof {
        assert(builder.pending().to_multiset() == leftover.to_multiset());
        if values@.len() == 0 {
            assert(full == 0) by (nonlinear_arith)
                requires
                    full * cap + builder.pending().len() == 0,
                    cap > 0,
            ;
        }
    }
    let ghost pend_len = builder.pending().len();
    if !builder.is_empty() {
        builder.sort_pending();
        let last = copy_run(builder.pending_values());
        proof {
            tail_runs = seq![last@];
            assert(tail_runs.drop_last() =~= Seq::<Seq<u64>>::empty());
            assert(tail_runs.last() == last@);
            assert(crate::runs_multiset(Seq::<Seq<u64>>::empty()) == vstd::multiset::Multiset::<u64>::empty());
            broadcast use vstd::multiset::group_multiset_axioms;
            assert(crate::runs_multiset(tail_runs) =~= last@.to_multiset());
        }
        runs.push(last);
    } else {
        proof {
            vstd::seq_lib::to_multiset_len(leftover);
            assert(leftover =~= Seq::<u64>::empty());
            assert(crate::runs_multiset(tail_runs) =~= leftover.to_multiset());
        }
    }
    proof {
        assert(runs_view(runs@) =~= full_runs + tail_runs);
        assert(tail_runs.len() == 0 || (tail_runs.len() == 1 && is_sorted(tail_runs[0])));
        assert forall|i: int| 0 <= i < runs_view(runs@).len() implies #[trigger] is_sorted(
            runs_view(runs@)[i],
        ) by {
            if i < full_runs.len() {
                assert(runs_view(runs@)[i] == full_runs[i]);
            } else {
                assert(runs_view(runs@)[i] == tail_runs[0]);
            }
        }
        assert(crate::all_sorted(runs_view(runs@)));
        assert(runs@.len() == full + tail_runs.len());
        assert(tail_runs.len() == (if pend_len > 0 { 1int } else { 0int }));
        assert(values@.len() == full * cap + pend_len);
        if runs@.len() == 0 {
            assert(full * cap == 0) by (nonlinear_arith)
                requires
                    full == 0,
            ;
        }
        let n = values@.len() as int;
        let k = full as int;
        let p = n - k * cap;
        assert(0 <= p < cap);
        if p == 0 {
            assert((n + cap - 1) / cap == k) by (nonlinear_arith)
                requires
                    n == k * cap,
                    cap > 0,
            ;
        } else {
            assert((n + cap - 1) / cap == k + 1) by (nonlinear_arith)
                requires
                    n == k * cap + p,
                    0 < p < cap,
            ;
        }
    }
    match merge_batch(&runs) {
        Ok(sorted) => {
            proof {
                lemma_sort_keeps_values(
                    values@,
                    cap as nat,
                    full_runs,
                    tail_runs,
                    sorted@,
                );
                lemma_sorted_arrangement(sorted@);
            }
            Ok((sorted, runs.len()))
        },
        Err(e) => Err(SortError::Merge(e)),
    }
}

} // verus!
