//! Phase 1: cutting the input stream into memory-sized chunks and sorting each
//! chunk into a run.
use vstd::prelude::*;
use vstd::string::*;
use rayon::slice::ParallelSliceMut;
use crate::{is_sorted, runs_multiset};
use crate::text::{decimal, zero_padded, zero_padded_decimal};

verus! {

/// What can go wrong in phase 1.
#[derive(Debug, PartialEq, Eq, Structural)]
pub enum Phase1Error {
    /// A chunk must hold at least one value.
    ZeroCapacity,
}

/// Sorts a chunk in place with rayon's parallel unstable sort
/// (`rayon::slice::ParallelSliceMut::par_sort_unstable`). Trusted: the values end up
/// in ascending order and are the same values as before, with the same multiplicities.
#[verifier::external_body]
fn par_sort_unstable_u64(values: &mut Vec<u64>)
    ensures
        is_sorted(final(values)@),
        final(values)@.to_multiset() == old(values)@.to_multiset(),
{
    values.par_sort_unstable();
}

/// The values of the stream, cut into consecutive pieces of `capacity` values: the
/// `i`-th sorted run holds the values of `stream[i * capacity .. (i + 1) * capacity]`.
pub open spec fn runs_cut_from(runs: Seq<Seq<u64>>, stream: Seq<u64>, capacity: nat) -> bool {
    forall|i: int|
        0 <= i < runs.len() ==> {
            &&& is_sorted(#[trigger] runs[i])
            &&& runs[i].len() == capacity
            &&& runs[i].to_multiset() == stream.subrange(i * capacity, i * capacity + capacity).to_multiset()
        }
}

/// The chunk of phase 1: one buffer of a fixed capacity that is filled from the
/// input, sorted into a run once full (or at the end of the input), handed out for
/// writing and then emptied for the next run. It keeps account of every value it was
/// given and of every run it handed out.
pub struct RunBuilder {
    chunk: Vec<u64>,
    capacity: usize,
    consumed: Ghost<Seq<u64>>,
    runs: Ghost<Seq<Seq<u64>>>,
}

impl RunBuilder {
    /// The values the chunk holds, in arrival order until it is sorted.
    pub closed spec fn pending(&self) -> Seq<u64> {
        self.chunk@
    }

    /// The number of values in a full chunk.
    pub closed spec fn capacity(&self) -> nat {
        self.capacity as nat
    }

    /// Every value given to the builder so far, in order.
    pub closed spec fn consumed(&self) -> Seq<u64> {
        self.consumed@
    }

    /// The full runs handed out so far, in order.
    pub closed spec fn runs_out(&self) -> Seq<Seq<u64>> {
        self.runs@
    }

    /// The chunk never holds more than its capacity; the runs handed out are the
    /// consumed values cut into sorted pieces of `capacity`, and the chunk holds the
    /// values after them.
    pub closed spec fn well_formed(&self) -> bool {
        &&& self.capacity > 0
        &&& self.chunk@.len() <= self.capacity
        &&& runs_cut_from(self.runs@, self.consumed@, self.capacity as nat)
        &&& self.runs@.len() * self.capacity + self.chunk@.len() == self.consumed@.len()
        &&& self.chunk@.to_multiset() == self.consumed@.subrange(
            self.runs@.len() * self.capacity,
            self.consumed@.len() as int,
        ).to_multiset()
    }

    /// Phase 1 keeps every value: the runs handed out are the consumed values cut into
    /// consecutive sorted pieces of `capacity`, and the chunk holds exactly the values
    /// after them.
    pub proof fn lemma_keeps_consumed_values(&self)
        requires
            self.well_formed(),
        ensures
            runs_cut_from(self.runs_out(), self.consumed(), self.capacity()),
            self.runs_out().len() * self.capacity() + self.pending().len() == self.consumed().len(),
            self.pending().to_multiset() == self.consumed().subrange(
                (self.runs_out().len() * self.capacity()) as int,
                self.consumed().len() as int,
            ).to_multiset(),
            runs_multiset(self.runs_out()).add(self.pending().to_multiset()) =~= self.consumed().to_multiset(),
    {
        lemma_runs_cover_stream(self.runs@, self.consumed@, self.capacity as nat);
    }

    /// An empty chunk of `capacity` values; a capacity of zero is refused.
    pub fn new(capacity: usize) -> (result: Result<RunBuilder, Phase1Error>)
        ensures
            capacity == 0 <==> result is Err,
            result is Err ==> result == Err::<RunBuilder, Phase1Error>(Phase1Error::ZeroCapacity),
            result matches Ok(b) ==> {
                &&& b.well_formed()
                &&& b.capacity() == capacity
                &&& b.pending() =~= Seq::<u64>::empty()
                &&& b.consumed() =~= Seq::<u64>::empty()
                &&& b.runs_out() =~= Seq::<Seq<u64>>::empty()
            },
    {
        if capacity == 0 {
            return Err(Phase1Error::ZeroCapacity);
        }
        let b = RunBuilder {
            chunk: Vec::with_capacity(capacity),
            capacity,
            consumed: Ghost(Seq::empty()),
            runs: Ghost(Seq::empty()),
        };
        proof {
            assert(b.runs@.len() * b.capacity == 0) by (nonlinear_arith)
                requires
                    b.runs@.len() == 0,
            ;
            assert(b.consumed@.subrange(0, 0) =~= Seq::<u64>::empty());
        }
        Ok(b)
    }

    /// Appends `values[from..]` in order until the chunk is full; returns the index
    /// of the first value not taken.
    pub fn fill(&mut self, values: &[u64], from: usize) -> (next: usize)
        requires
            old(self).well_formed(),
            from <= values@.len(),
        ensures
            final(self).well_formed(),
            final(self).capacity() == old(self).capacity(),
            next == from + (if old(self).capacity() - old(self).pending().len() < values@.len()
                - from {
                old(self).capacity() - old(self).pending().len()
            } else {
                values@.len() - from
            }),
            final(self).pending() =~= old(self).pending() + values@.subrange(from as int, next as int),
            final(self).consumed() =~= old(self).consumed() + values@.subrange(from as int, next as int),
            final(self).runs_out() == old(self).runs_out(),
    {
        broadcast use vstd::seq_lib::lemma_multiset_commutative;
        let mut i = from;
        let ghost start = self.runs@.len() * self.capacity;
        while i < values.len() && self.chunk.len() < self.capacity
            invariant
                self.capacity > 0,
                self.chunk@.len() <= self.capacity,
                self.capacity == old(self).capacity,
                self.runs == old(self).runs,
                start == self.runs@.len() * self.capacity,
                from <= i <= values@.len(),
                self.chunk@ =~= old(self).chunk@ + values@.subrange(from as int, i as int),
                self.consumed@ =~= old(self).consumed@ + values@.subrange(from as int, i as int),
            decreases values@.len() - i,
        {
            self.chunk.push(values[i]);
            proof {
                self.consumed@ = self.consumed@.push(values@[i as int]);
            }
            i += 1;
        }
        proof {
            let piece = values@.subrange(from as int, i as int);
            let c0 = old(self).consumed@;
            let c1 = self.consumed@;
            assert forall|k: int| 0 <= k < self.runs@.len() implies {
                &&& is_sorted(#[trigger] self.runs@[k])
                &&& self.runs@[k].len() == self.capacity
                &&& self.runs@[k].to_multiset() == c1.subrange(
                    k * self.capacity,
                    k * self.capacity + self.capacity,
                ).to_multiset()
            } by {
                assert((k + 1) * self.capacity <= self.runs@.len() * self.capacity) by (
                nonlinear_arith)
                    requires
                        k + 1 <= self.runs@.len(),
                        self.capacity > 0,
                ;
                assert(k * self.capacity + self.capacity == (k + 1) * self.capacity) by (
                nonlinear_arith);
                assert(c1.subrange(k * self.capacity, k * self.capacity + self.capacity)
                    =~= c0.subrange(k * self.capacity, k * self.capacity + self.capacity));
            }
            assert(c1.subrange(start, c1.len() as int) =~= c0.subrange(start, c0.len() as int)
                + piece);
        }
        i
    }

    /// Whether the chunk holds `capacity` values.
    pub fn is_full(&self) -> (full: bool)
        requires
            self.well_formed(),
        ensures
            full == (self.pending().len() == self.capacity()),
    {
        self.chunk.len() == self.capacity
    }

    /// Whether the chunk holds no value.
    pub fn is_empty(&self) -> (empty: bool)
        ensures
            empty == (self.pending().len() == 0),
    {
        self.chunk.len() == 0
    }

    /// Sorts the chunk in place into a run, with rayon's parallel sort.
    pub fn sort_pending(&mut self)
        requires
            old(self).well_formed(),
        ensures
            final(self).well_formed(),
            final(self).capacity() == old(self).capacity(),
            final(self).consumed() == old(self).consumed(),
            final(self).runs_out() == old(self).runs_out(),
            is_sorted(final(self).pending()),
            final(self).pending().len() == old(self).pending().len(),
            final(self).pending().to_multiset() == old(self).pending().to_multiset(),
    {
        let ghost before = self.chunk@;
        par_sort_unstable_u64(&mut self.chunk);
        proof {
            vstd::seq_lib::to_multiset_len(before);
            vstd::seq_lib::to_multiset_len(self.chunk@);
        }
    }

    /// The values the chunk holds, for writing them out.
    pub fn pending_values(&self) -> (values: &Vec<u64>)
        ensures
            values@ == self.pending(),
    {
        &self.chunk
    }

    /// Hands out the full, sorted chunk as the next run and empties the chunk,
    /// keeping its buffer for the run after it.
    pub fn clear(&mut self)
        requires
            old(self).well_formed(),
            old(self).pending().len() == old(self).capacity(),
            is_sorted(old(self).pending()),
        ensures
            final(self).well_formed(),
            final(self).capacity() == old(self).capacity(),
            final(self).pending() =~= Seq::<u64>::empty(),
            final(self).consumed() == old(self).consumed(),
            final(self).runs_out() == old(self).runs_out().push(old(self).pending()),
    {
        let ghost run = self.chunk@;
        let ghost r = self.runs@.len() as int;
        let ghost cap = self.capacity as int;
        self.chunk.clear();
        proof {
            let c = self.consumed@;
            self.runs@ = self.runs@.push(run);
            assert((r + 1) * cap == r * cap + cap) by (nonlinear_arith);
            assert forall|k: int| 0 <= k < self.runs@.len() implies {
                &&& is_sorted(#[trigger] self.runs@[k])
                &&& self.runs@[k].len() == cap
                &&& self.runs@[k].to_multiset() == c.subrange(k * cap, k * cap + cap).to_multiset()
            } by {
                if k < r {
                    assert(self.runs@[k] == old(self).runs@[k]);
                } else {
                    assert(self.runs@[k] == run);
                }
            }
            assert(c.subrange((r + 1) * cap, c.len() as int) =~= Seq::<u64>::empty());
        }
    }
}

/// Runs cut from a stream, together with the values left after them, hold exactly
/// the values of the stream.
pub proof fn lemma_runs_cover_stream(runs: Seq<Seq<u64>>, stream: Seq<u64>, capacity: nat)
    requires
        runs_cut_from(runs, stream, capacity),
        runs.len() * capacity <= stream.len(),
    ensures
        runs_multiset(runs).add(
            stream.subrange((runs.len() * capacity) as int, stream.len() as int).to_multiset(),
        ) =~= stream.to_multiset(),
    decreases runs.len(),
{
    broadcast use vstd::multiset::group_multiset_axioms;
    let k = runs.len() as int;
    let c = capacity as int;
    if k == 0 {
        assert(stream.subrange(0, stream.len() as int) =~= stream);
    } else {
        let prev = runs.drop_last();
        assert((k - 1) * c + c == k * c) by (nonlinear_arith);
        assert((k - 1) * c <= k * c) by (nonlinear_arith)
            requires
                c >= 0,
        ;
        assert forall|i: int| 0 <= i < prev.len() implies {
            &&& is_sorted(#[trigger] prev[i])
            &&& prev[i].len() == capacity
            &&& prev[i].to_multiset() == stream.subrange(i * c, i * c + c).to_multiset()
        } by {
            assert(prev[i] == runs[i]);
        }
        lemma_runs_cover_stream(prev, stream, capacity);
        let tail = stream.subrange((k - 1) * c, stream.len() as int);
        let a = stream.subrange((k - 1) * c, k * c);
        let b = stream.subrange(k * c, stream.len() as int);
        assert(tail =~= a + b);
        vstd::seq_lib::lemma_multiset_commutative(a, b);
        assert(runs.last() == runs[k - 1]);
    }
}

/// The name of the run file written for run `run_index`.
pub open spec fn run_file_name_spec(run_index: nat) -> Seq<char> {
    "run_"@ + zero_padded(decimal(run_index), 5) + ".bin"@
}

/// The file name of a phase-1 run: `run_{index:05}.bin`.
pub fn run_file_name(run_index: usize) -> (name: String)
    ensures
        name@ == run_file_name_spec(run_index as nat),
{
    let mut name = String::new();
    name.append("run_");
    let index = zero_padded_decimal(run_index as u64, 5);
    name.append(index.as_str());
    name.append(".bin");
    name
}

} // verus!
