//! Phase 2: the streaming k-way merge of all sorted runs, in one pass, into the
//! output.
use vstd::prelude::*;
use vstd::multiset::Multiset;
use crate::heap::{Entry, MinHeap, entry_le};
use crate::{is_sorted, runs_multiset, runs_view, all_sorted};
use crate::phase1::{runs_cut_from, lemma_runs_cover_stream};
use vstd::bytes::{spec_u64_from_le_bytes, u64_from_le_bytes};

verus! {

broadcast use {
    vstd::multiset::group_multiset_axioms,
    vstd::multiset::group_multiset_properties,
    vstd::seq_lib::to_multiset_build,
    vstd::seq_lib::to_multiset_remove,
    vstd::seq_lib::to_multiset_contains,
};

/// What can go wrong in phase 2.
#[derive(Debug, PartialEq, Eq, Structural)]
pub enum MergeError {
    /// A merge was asked of no run at all.
    NoRuns,
    /// A run file ended inside a record; the number of bytes of that record that were read.
    PartialRecord(usize),
}

/// The entries that a merge starts from: the first value of each source that has one,
/// tagged with the source's index.
pub open spec fn heads_multiset(heads: Seq<Option<u64>>) -> Multiset<Entry>
    decreases heads.len(),
{
    if heads.len() == 0 {
        Multiset::empty()
    } else {
        let last = (heads.len() - 1) as int;
        heads_multiset(heads.drop_last()).add(
            match heads[last] {
                Some(v) => Multiset::singleton((v, last as usize)),
                None => Multiset::empty(),
            },
        )
    }
}

/// The state of a k-way merge: the current value of each unfinished source.
pub struct KWayMerge {
    heap: MinHeap,
    source_count: usize,
}

impl KWayMerge {
    /// The entries waiting to be output.
    pub closed spec fn frontier(&self) -> Multiset<Entry> {
        self.heap@
    }

    /// The number of sources being merged.
    pub closed spec fn sources(&self) -> nat {
        self.source_count as nat
    }

    /// The merge's internal invariant.
    pub closed spec fn well_formed(&self) -> bool {
        &&& self.heap.well_formed()
        &&& forall|e: Entry| self.heap@.contains(e) ==> e.1 < self.source_count
    }

    /// Starts a merge from the first value of each source (`None` for an empty source).
    /// A merge of no source at all is refused.
    pub fn start(heads: &Vec<Option<u64>>) -> (result: Result<KWayMerge, MergeError>)
        ensures
            heads@.len() == 0 <==> result is Err,
            result is Err ==> result == Err::<KWayMerge, MergeError>(MergeError::NoRuns),
            result matches Ok(m) ==> {
                &&& m.well_formed()
                &&& m.sources() == heads@.len()
                &&& m.frontier() =~= heads_multiset(heads@)
            },
    {
        if heads.len() == 0 {
            return Err(MergeError::NoRuns);
        }
        let mut heap = MinHeap::new();
        let mut i: usize = 0;
        while i < heads.len()
            invariant
                i <= heads@.len(),
                heap.well_formed(),
                heap@ =~= heads_multiset(heads@.subrange(0, i as int)),
                forall|e: Entry| heap@.contains(e) ==> e.1 < i,
            decreases heads@.len() - i,
        {
            proof {
                assert(heads@.subrange(0, i + 1).drop_last() =~= heads@.subrange(0, i as int));
            }
            let ghost h0 = heap@;
            match heads[i] {
                Some(v) => {
                    heap.push((v, i));
                    assert forall|e: Entry| heap@.contains(e) implies e.1 < i + 1 by {
                        if e != (v, i) {
                            assert(h0.contains(e));
                        }
                    }
                },
                None => {},
            }
            i += 1;
        }
        proof {
            assert(heads@.subrange(0, heads@.len() as int) =~= heads@);
        }
        Ok(KWayMerge { heap, source_count: heads.len() })
    }

    /// Takes the least waiting entry: the next value of the merged output and
    /// the source it came from. `None` once every source is exhausted.
    pub fn next_entry(&mut self) -> (least: Option<Entry>)
        requires
            old(self).well_formed(),
        ensures
            final(self).well_formed(),
            final(self).sources() == old(self).sources(),
            match least {
                None => old(self).frontier().len() == 0 && final(self).frontier()
                    == old(self).frontier(),
                Some(e) => {
                    &&& old(self).frontier().contains(e)
                    &&& e.1 < final(self).sources()
                    &&& forall|x: Entry| old(self).frontier().contains(x) ==> entry_le(e, x)
                    &&& final(self).frontier() =~= old(self).frontier().remove(e)
                },
            },
    {
        self.heap.pop()
    }

    /// Hands the merge the next value of `source` after its previous one was taken
    /// (`None` when the source is exhausted).
    pub fn refill(&mut self, source: usize, next: Option<u64>)
        requires
            old(self).well_formed(),
            source < old(self).sources(),
        ensures
            final(self).well_formed(),
            final(self).sources() == old(self).sources(),
            final(self).frontier() =~= match next {
                Some(v) => old(self).frontier().insert((v, source)),
                None => old(self).frontier(),
            },
    {
        match next {
            Some(v) => {
                self.heap.push((v, source));
                assert forall|e: Entry| self.heap@.contains(e) implies e.1 < self.source_count by {
                    if e != (v, source) {
                        assert(old(self).heap@.contains(e));
                    }
                }
            },
            None => {},
        }
    }
}

// The state of an in-memory merge: `cur[i]` is the position of the current value of run `i`.
spec fn frontier_entry(rs: Seq<Seq<u64>>, cur: Seq<usize>, i: int) -> Multiset<Entry> {
    if cur[i] < rs[i].len() {
        Multiset::singleton((rs[i][cur[i] as int], i as usize))
    } else {
        Multiset::empty()
    }
}

spec fn frontier_of(rs: Seq<Seq<u64>>, cur: Seq<usize>, n: nat) -> Multiset<Entry>
    decreases n,
{
    if n == 0 {
        Multiset::empty()
    } else {
        frontier_of(rs, cur, (n - 1) as nat).add(frontier_entry(rs, cur, n - 1))
    }
}

spec fn remaining_of(rs: Seq<Seq<u64>>, cur: Seq<usize>, n: nat) -> Multiset<u64>
    decreases n,
{
    if n == 0 {
        Multiset::empty()
    } else {
        remaining_of(rs, cur, (n - 1) as nat).add(
            rs[n - 1].subrange(cur[n - 1] as int, rs[n - 1].len() as int).to_multiset(),
        )
    }
}

proof fn lemma_frontier_count(rs: Seq<Seq<u64>>, cur: Seq<usize>, n: nat, e: Entry)
    requires
        n <= rs.len(),
        n <= cur.len(),
        n <= usize::MAX + 1,
    ensures
        frontier_of(rs, cur, n).count(e) == (if e.1 < n && cur[e.1 as int] < rs[e.1 as int].len()
            && e.0 == rs[e.1 as int][cur[e.1 as int] as int] {
            1nat
        } else {
            0nat
        }),
    decreases n,
{
    if n > 0 {
        lemma_frontier_count(rs, cur, (n - 1) as nat, e);
    }
}

proof fn lemma_remaining_step(rs: Seq<Seq<u64>>, cur: Seq<usize>, n: nat, i: int)
    requires
        n <= rs.len(),
        n <= cur.len(),
        0 <= i < n,
        cur[i] < rs[i].len(),
        cur[i] < usize::MAX,
    ensures
        remaining_of(rs, cur.update(i, (cur[i] + 1) as usize), n) =~= remaining_of(
            rs,
            cur,
            n,
        ).remove(rs[i][cur[i] as int]),
        remaining_of(rs, cur, n).contains(rs[i][cur[i] as int]),
    decreases n,
{
    let cur2 = cur.update(i, (cur[i] + 1) as usize);
    let m = (n - 1) as nat;
    if i == m {
        lemma_remaining_unchanged(rs, cur, cur2, m);
        let s = rs[i].subrange(cur[i] as int, rs[i].len() as int);
        let s2 = rs[i].subrange(cur[i] + 1, rs[i].len() as int);
        let x = rs[i][cur[i] as int];
        assert(s[0] == x);
        assert(s.remove(0) =~= s2);
        assert(s2.to_multiset() == s.to_multiset().remove(x));
        assert(s.to_multiset().count(x) > 0);
        assert(cur2[i] == cur[i] + 1);
        assert(remaining_of(rs, cur2, n) == remaining_of(rs, cur2, m).add(s2.to_multiset()));
        assert(remaining_of(rs, cur, n) == remaining_of(rs, cur, m).add(s.to_multiset()));
    } else {
        lemma_remaining_step(rs, cur, m, i);
    }
}

proof fn lemma_remaining_unchanged(rs: Seq<Seq<u64>>, cur: Seq<usize>, cur2: Seq<usize>, n: nat)
    requires
        n <= rs.len(),
        n <= cur.len(),
        n <= cur2.len(),
        forall|j: int| 0 <= j < n ==> cur[j] == cur2[j],
    ensures
        remaining_of(rs, cur, n) == remaining_of(rs, cur2, n),
    decreases n,
{
    if n > 0 {
        lemma_remaining_unchanged(rs, cur, cur2, (n - 1) as nat);
    }
}

proof fn lemma_remaining_start(rs: Seq<Seq<u64>>, cur: Seq<usize>, n: nat)
    requires
        n <= rs.len(),
        n <= cur.len(),
        forall|j: int| 0 <= j < n ==> cur[j] == 0,
    ensures
        remaining_of(rs, cur, n) =~= runs_multiset(rs.subrange(0, n as int)),
    decreases n,
{
    if n > 0 {
        lemma_remaining_start(rs, cur, (n - 1) as nat);
        assert(rs.subrange(0, n as int).drop_last() =~= rs.subrange(0, n - 1));
        assert(rs[n - 1].subrange(0, rs[n - 1].len() as int) =~= rs[n - 1]);
    }
}

proof fn lemma_remaining_done(rs: Seq<Seq<u64>>, cur: Seq<usize>, n: nat)
    requires
        n <= rs.len(),
        n <= cur.len(),
        forall|j: int| 0 <= j < n ==> cur[j] == rs[j].len(),
    ensures
        remaining_of(rs, cur, n) =~= Multiset::<u64>::empty(),
    decreases n,
{
    if n > 0 {
        lemma_remaining_done(rs, cur, (n - 1) as nat);
        assert(rs[n - 1].subrange(cur[n - 1] as int, rs[n - 1].len() as int) =~= Seq::<
            u64,
        >::empty());
    }
}

proof fn lemma_heads_frontier(rs: Seq<Seq<u64>>, heads: Seq<Option<u64>>, cur: Seq<usize>, n: nat)
    requires
        n <= rs.len(),
        n <= cur.len(),
        n <= heads.len(),
        n <= usize::MAX + 1,
        forall|j: int| 0 <= j < n ==> cur[j] == 0,
        forall|j: int|
            0 <= j < n ==> #[trigger] heads[j] == (if rs[j].len() > 0 {
                Some(rs[j][0])
            } else {
                None
            }),
    ensures
        heads_multiset(heads.subrange(0, n as int)) =~= frontier_of(rs, cur, n),
    decreases n,
{
    if n > 0 {
        lemma_heads_frontier(rs, heads, cur, (n - 1) as nat);
        assert(heads.subrange(0, n as int).drop_last() =~= heads.subrange(0, n - 1));
    }
}

/// The position of each of `n` runs once `sources[..k]` have been taken: run `i`
/// has given as many values as `sources[..k]` names it.
pub open spec fn cursors_after(n: nat, sources: Seq<usize>, k: nat) -> Seq<usize>
    decreases k,
{
    if k == 0 {
        Seq::new(n, |i: int| 0usize)
    } else {
        let c = cursors_after(n, sources, (k - 1) as nat);
        let s = sources[k - 1] as int;
        c.update(s, (c[s] + 1) as usize)
    }
}

/// One step of the merge: `value` is the current value of run `source`, and the
/// entry `(value, source)` is the least of the entries `(current value, run)` of all
/// runs that still have values.
pub open spec fn heap_step(runs: Seq<Seq<u64>>, cur: Seq<usize>, value: u64, source: usize) -> bool {
    &&& source < runs.len()
    &&& cur[source as int] < runs[source as int].len()
    &&& value == runs[source as int][cur[source as int] as int]
    &&& forall|i: int|
        0 <= i < runs.len() && cur[i] < runs[i].len() ==> entry_le(
            (value, source),
            (#[trigger] runs[i][cur[i] as int], i as usize),
        )
}

/// `out` is taken from the runs named by `sources`, one value at a time, each time
/// the least current entry, until every run is exhausted.
pub open spec fn merge_trace(runs: Seq<Seq<u64>>, out: Seq<u64>, sources: Seq<usize>) -> bool {
    &&& sources.len() == out.len()
    &&& forall|k: int|
        0 <= k < out.len() ==> #[trigger] heap_step(
            runs,
            cursors_after(runs.len(), sources, k as nat),
            out[k],
            sources[k],
        )
    &&& forall|i: int|
        0 <= i < runs.len() ==> #[trigger] cursors_after(runs.len(), sources, out.len())[i]
            == runs[i].len()
}

/// `out` is the merge of `runs` in heap order: at every step it takes the least
/// `(current value, run index)` entry among the runs that still have values.
pub open spec fn heap_order_merge(runs: Seq<Seq<u64>>, out: Seq<u64>) -> bool {
    exists|sources: Seq<usize>| #[trigger] merge_trace(runs, out, sources)
}

proof fn lemma_cursors_prefix(n: nat, sources: Seq<usize>, longer: Seq<usize>, k: nat)
    requires
        k <= sources.len() <= longer.len(),
        forall|j: int| 0 <= j < sources.len() ==> sources[j] == longer[j],
    ensures
        cursors_after(n, longer, k) == cursors_after(n, sources, k),
    decreases k,
{
    if k > 0 {
        lemma_cursors_prefix(n, sources, longer, (k - 1) as nat);
    }
}

/// Merges in-memory runs into one sequence, taking the least `(value, run index)`
/// entry at each step. A merge of no run is refused. The output holds every value
/// of every run; when each run is sorted, the output is sorted.
pub fn merge_batch(runs: &Vec<Vec<u64>>) -> (result: Result<Vec<u64>, MergeError>)
    ensures
        runs@.len() == 0 <==> result is Err,
        result is Err ==> result == Err::<Vec<u64>, MergeError>(MergeError::NoRuns),
        result matches Ok(out) ==> {
            &&& out@.to_multiset() =~= runs_multiset(runs_view(runs@))
            &&& all_sorted(runs_view(runs@)) ==> is_sorted(out@)
            &&& heap_order_merge(runs_view(runs@), out@)
        },
{
    let ghost rs = runs_view(runs@);
    let n = runs.len();
    let mut heads: Vec<Option<u64>> = Vec::new();
    let mut cur: Vec<usize> = Vec::new();
    let mut i: usize = 0;
    while i < n
        invariant
            n == runs@.len(),
            rs == runs_view(runs@),
            i <= n,
            heads@.len() == i,
            cur@.len() == i,
            forall|j: int| 0 <= j < i ==> cur@[j] == 0,
            forall|j: int|
                0 <= j < i ==> #[trigger] heads@[j] == (if rs[j].len() > 0 {
                    Some(rs[j][0])
                } else {
                    None
                }),
        decreases n - i,
    {
        if runs[i].len() > 0 {
            heads.push(Some(runs[i][0]));
        } else {
            heads.push(None);
        }
        cur.push(0);
        i += 1;
    }
    let mut merge = match KWayMerge::start(&heads) {
        Ok(m) => m,
        Err(e) => return Err(e),
    };
    proof {
        lemma_heads_frontier(rs, heads@, cur@, n as nat);
        assert(heads@.subrange(0, n as int) =~= heads@);
        lemma_remaining_start(rs, cur@, n as nat);
        assert(rs.subrange(0, n as int) =~= rs);
        assert(cur@ =~= cursors_after(n as nat, Seq::<usize>::empty(), 0));
    }
    let mut out: Vec<u64> = Vec::new();
    let ghost mut sources: Seq<usize> = Seq::empty();
    loop
        invariant
            n == runs@.len(),
            rs == runs_view(runs@),
            cur@.len() == n,
            forall|j: int| 0 <= j < n ==> cur@[j] <= rs[j].len(),
            merge.well_formed(),
            merge.sources() == n,
            merge.frontier() =~= frontier_of(rs, cur@, n as nat),
            out@.to_multiset().add(remaining_of(rs, cur@, n as nat)) =~= runs_multiset(rs),
            all_sorted(rs) ==> is_sorted(out@),
            all_sorted(rs) ==> forall|e: Entry|
                #[trigger] merge.frontier().contains(e) && out@.len() > 0 ==> out@.last() <= e.0,
            sources.len() == out@.len(),
            cur@ == cursors_after(n as nat, sources, sources.len()),
            forall|k: int|
                0 <= k < out@.len() ==> #[trigger] heap_step(
                    rs,
                    cursors_after(n as nat, sources, k as nat),
                    out@[k],
                    sources[k],
                ),
        ensures
            out@.to_multiset() =~= runs_multiset(rs),
            all_sorted(rs) ==> is_sorted(out@),
            merge_trace(rs, out@, sources),
        decreases remaining_of(rs, cur@, n as nat).len(),
    {
        let ghost before = merge.frontier();
        match merge.next_entry() {
            None => {
                proof {
                    assert forall|j: int| 0 <= j < n implies cur@[j] == rs[j].len() by {
                        if cur@[j] < rs[j].len() {
                            let e = (rs[j][cur@[j] as int], j as usize);
                            lemma_frontier_count(rs, cur@, n as nat, e);
                        }
                    }
                    lemma_remaining_done(rs, cur@, n as nat);
                }
                break;
            },
            Some(entry) => {
                let (value, src) = entry;
                proof {
                    lemma_frontier_count(rs, cur@, n as nat, entry);
                    assert(before.count(entry) > 0);
                    assert(rs[src as int] == runs@[src as int]@);
                }
                proof {
                    assert forall|i: int|
                        0 <= i < rs.len() && cur@[i] < rs[i].len() implies entry_le(
                        (value, src),
                        (#[trigger] rs[i][cur@[i] as int], i as usize),
                    ) by {
                        lemma_frontier_count(rs, cur@, n as nat, (rs[i][cur@[i] as int], i as usize));
                        assert(before.count((rs[i][cur@[i] as int], i as usize)) > 0);
                    }
                    assert(heap_step(rs, cur@, value, src));
                }
                let c = cur[src];
                let src_len = runs[src].len();
                let ghost old_cur = cur@;
                let ghost old_out = out@;
                let ghost old_sources = sources;
                cur.set(src, c + 1);
                out.push(value);
                let next = if c + 1 < src_len {
                    Some(runs[src][c + 1])
                } else {
                    None
                };
                merge.refill(src, next);
                proof {
                    sources = sources.push(src);
                    assert forall|k: int| 0 <= k < out@.len() implies #[trigger] heap_step(
                        rs,
                        cursors_after(n as nat, sources, k as nat),
                        out@[k],
                        sources[k],
                    ) by {
                        lemma_cursors_prefix(n as nat, old_sources, sources, k as nat);
                        if k < old_out.len() {
                            assert(out@[k] == old_out[k]);
                            assert(sources[k] == old_sources[k]);
                        }
                    }
                    lemma_cursors_prefix(n as nat, old_sources, sources, old_sources.len());
                    assert(cur@ =~= cursors_after(n as nat, sources, sources.len()));
                    lemma_remaining_step(rs, old_cur, n as nat, src as int);
                    assert(cur@ =~= old_cur.update(src as int, (c + 1) as usize));
                    assert forall|e: Entry|
                        merge.frontier().count(e) == frontier_of(rs, cur@, n as nat).count(e) by {
                        lemma_frontier_count(rs, cur@, n as nat, e);
                        lemma_frontier_count(rs, old_cur, n as nat, e);
                    }
                    assert(merge.frontier() =~= frontier_of(rs, cur@, n as nat));
                    if all_sorted(rs) {
                        assert(is_sorted(rs[src as int]));
                        assert forall|i: int, j: int| 0 <= i <= j < out@.len() implies out@[i]
                            <= out@[j] by {
                            if j == out@.len() - 1 && i < j {
                                assert(out@[i] == old_out[i]);
                                assert(old_out.last() <= value);
                            }
                        }
                        assert forall|e: Entry|
                            #[trigger] merge.frontier().contains(e) && out@.len() > 0 implies out@.last()
                            <= e.0 by {
                            if !(c + 1 < rs[src as int].len()) || e != (rs[src as int][c + 1], src) {
                                assert(before.contains(e));
                                assert(entry_le(entry, e));
                            } else {
                                assert(rs[src as int][c as int] <= rs[src as int][c + 1]);
                            }
                        }
                    }
                }
            },
        }
    }
    proof {
        assert(merge_trace(rs, out@, sources));
    }
    Ok(out)
}

/// Reads one record of a run: no byte means the run is exhausted, eight bytes are a
/// little-endian value, and anything else is a run that ends inside a record.
pub fn decode_record(bytes: &[u8]) -> (result: Result<Option<u64>, MergeError>)
    ensures
        bytes@.len() == 0 ==> result == Ok::<Option<u64>, MergeError>(None),
        bytes@.len() == 8 ==> result == Ok::<Option<u64>, MergeError>(
            Some(spec_u64_from_le_bytes(bytes@)),
        ),
        bytes@.len() != 0 && bytes@.len() != 8 ==> result == Err::<Option<u64>, MergeError>(
            MergeError::PartialRecord(bytes@.len() as usize),
        ),
{
    let n = bytes.len();
    if n == 0 {
        Ok(None)
    } else if n == 8 {
        Ok(Some(u64_from_le_bytes(bytes)))
    } else {
        Err(MergeError::PartialRecord(n))
    }
}

/// The number of merge passes phase 2 takes over `run_count` runs: every run file
/// is opened at once and all of them are merged through one min-heap straight into
/// the output, so there is one pass for any number of runs. No run is an error.
pub fn merge_pass_count(run_count: usize) -> (result: Result<usize, MergeError>)
    ensures
        run_count == 0 ==> result == Err::<usize, MergeError>(MergeError::NoRuns),
        run_count > 0 ==> result == Ok::<usize, MergeError>(1),
{
    if run_count == 0 {
        Err(MergeError::NoRuns)
    } else {
        Ok(1)
    }
}

proof fn lemma_runs_multiset_concat(a: Seq<Seq<u64>>, b: Seq<Seq<u64>>)
    ensures
        runs_multiset(a + b) =~= runs_multiset(a).add(runs_multiset(b)),
    decreases b.len(),
{
    if b.len() == 0 {
        assert(a + b =~= a);
    } else {
        lemma_runs_multiset_concat(a, b.drop_last());
        assert((a + b).drop_last() =~= a + b.drop_last());
        assert((a + b).last() == b.last());
    }
}


/// The whole sort keeps every value. Phase 1 cuts the input stream into full runs
/// of `capacity` values plus runs holding the values left over, and phase 2 merges
/// all of these runs into the output. Then the output holds exactly the values of
/// the input.
pub proof fn lemma_sort_keeps_values(
    stream: Seq<u64>,
    capacity: nat,
    full_runs: Seq<Seq<u64>>,
    tail_runs: Seq<Seq<u64>>,
    output: Seq<u64>,
)
    requires
        runs_cut_from(full_runs, stream, capacity),
        full_runs.len() * capacity <= stream.len(),
        runs_multiset(tail_runs) == stream.subrange(
            (full_runs.len() * capacity) as int,
            stream.len() as int,
        ).to_multiset(),
        output.to_multiset() == runs_multiset(full_runs + tail_runs),
    ensures
        output.to_multiset() =~= stream.to_multiset(),
{
    lemma_runs_cover_stream(full_runs, stream, capacity);
    lemma_runs_multiset_concat(full_runs, tail_runs);
}

} // verus!
