//! Synthetic input files: the value distributions and the pseudo-random
//! generator used by the benchmark.
use vstd::prelude::*;
use vstd::string::*;
use crate::config::U64_BYTES;
use crate::io::{encode_values, encode_u64s};

verus! {

/// The size of a virtual-memory page.
pub const PAGE_SIZE_BYTES: usize = 16 * 1024;

/// The size of one write to the dataset file.
pub const WRITE_BLOCK_BYTES: usize = PAGE_SIZE_BYTES * 64;

/// The order of the values in a generated file.
#[derive(Clone, Copy, Debug, PartialEq, Eq, Structural)]
pub enum DataDistribution {
    Random,
    Ascending,
    Descending,
}

/// The name of a distribution.
pub open spec fn distribution_name(d: DataDistribution) -> Seq<char> {
    match d {
        DataDistribution::Random => "random"@,
        DataDistribution::Ascending => "ascending"@,
        DataDistribution::Descending => "descending"@,
    }
}

/// The distribution a name stands for, if any.
pub open spec fn distribution_named(name: Seq<char>) -> Option<DataDistribution> {
    if name == "random"@ {
        Some(DataDistribution::Random)
    } else if name == "ascending"@ {
        Some(DataDistribution::Ascending)
    } else if name == "descending"@ {
        Some(DataDistribution::Descending)
    } else {
        None
    }
}

/// Reading back the name of a distribution gives that distribution.
pub proof fn lemma_distribution_name_round_trip(d: DataDistribution)
    ensures
        distribution_named(distribution_name(d)) == Some(d),
{
    reveal_strlit("random");
    reveal_strlit("ascending");
    reveal_strlit("descending");
    assert("random"@.len() == 6 && "ascending"@.len() == 9 && "descending"@.len() == 10);
    assert("ascending"@ != "descending"@);
}

/// The names are fixed: `random`, `ascending` and `descending`, written out letter
/// by letter.
pub proof fn lemma_distribution_names_fixed()
    ensures
        distribution_name(DataDistribution::Random) == seq!['r', 'a', 'n', 'd', 'o', 'm'],
        distribution_name(DataDistribution::Ascending) == seq![
            'a', 's', 'c', 'e', 'n', 'd', 'i', 'n', 'g'
        ],
        distribution_name(DataDistribution::Descending) == seq![
            'd', 'e', 's', 'c', 'e', 'n', 'd', 'i', 'n', 'g'
        ],
{
    reveal_strlit("random");
    reveal_strlit("ascending");
    reveal_strlit("descending");
    assert(distribution_name(DataDistribution::Random) =~= seq!['r', 'a', 'n', 'd', 'o', 'm']);
    assert(distribution_name(DataDistribution::Ascending) =~= seq![
        'a', 's', 'c', 'e', 'n', 'd', 'i', 'n', 'g'
    ]);
    assert(distribution_name(DataDistribution::Descending) =~= seq![
        'd', 'e', 's', 'c', 'e', 'n', 'd', 'i', 'n', 'g'
    ]);
}

/// A name stands for a distribution exactly when it is that distribution's name:
/// parsing accepts the three names and nothing else.
pub proof fn lemma_distribution_named_exactly(name: Seq<char>, d: DataDistribution)
    ensures
        distribution_named(name) == Some(d) <==> name == distribution_name(d),
        distribution_named(name) is None <==> (name != distribution_name(DataDistribution::Random)
            && name != distribution_name(DataDistribution::Ascending) && name
            != distribution_name(DataDistribution::Descending)),
{
    lemma_distribution_names_fixed();
    reveal_strlit("random");
    reveal_strlit("ascending");
    reveal_strlit("descending");
    assert("random"@.len() == 6 && "ascending"@.len() == 9 && "descending"@.len() == 10);
    assert("ascending"@[0] != "descending"@[0]);
}

/// Whether two strings hold the same characters.
fn same_text(a: &str, b: &str) -> (r: bool)
    ensures
        r == (a@ == b@),
{
    let n = a.unicode_len();
    if n != b.unicode_len() {
        return false;
    }
    let mut i: usize = 0;
    while i < n
        invariant
            n == a@.len(),
            n == b@.len(),
            i <= n,
            forall|j: int| 0 <= j < i ==> a@[j] == b@[j],
        decreases n - i,
    {
        if a.get_char(i) != b.get_char(i) {
            return false;
        }
        i += 1;
    }
    assert(a@ =~= b@);
    true
}

impl DataDistribution {
    /// The distribution named `value` (`random`, `ascending` or `descending`), if any.
    pub fn parse(value: &str) -> (d: Option<DataDistribution>)
        ensures
            d == distribution_named(value@),
    {
        if same_text(value, "random") {
            Some(DataDistribution::Random)
        } else if same_text(value, "ascending") {
            Some(DataDistribution::Ascending)
        } else if same_text(value, "descending") {
            Some(DataDistribution::Descending)
        } else {
            None
        }
    }

    /// The name of the distribution.
    pub fn as_str(&self) -> (name: &'static str)
        ensures
            name@ == distribution_name(*self),
    {
        match self {
            DataDistribution::Random => "random",
            DataDistribution::Ascending => "ascending",
            DataDistribution::Descending => "descending",
        }
    }
}

/// The state a generator starts from when the seed is zero.
pub const ZERO_SEED_STATE: u64 = 0x9E3779B97F4A7C15;

/// The seed of a dataset when none is given.
pub const DEFAULT_DATASET_SEED: u64 = 0xD1B54A32D192ED03;

/// The multiplier applied to the state to give an output.
pub const XORSHIFT_MULTIPLIER: u64 = 0x2545F4914F6CDD1D;

/// One xorshift step of the generator's state.
pub open spec fn xorshift_step(x: u64) -> u64 {
    let a = x ^ (x >> 12u64);
    let b = a ^ (a << 25u64);
    b ^ (b >> 27u64)
}

/// The state after `n` steps.
pub open spec fn xorshift_iterate(x: u64, n: nat) -> u64
    decreases n,
{
    if n == 0 {
        x
    } else {
        xorshift_step(xorshift_iterate(x, (n - 1) as nat))
    }
}

/// The value output from a state.
pub open spec fn xorshift_output(state: u64) -> u64 {
    vstd::wrapping::u64_specs::wrapping_mul(state, XORSHIFT_MULTIPLIER)
}

/// A non-zero state stays non-zero after a step.
pub proof fn lemma_xorshift_step_nonzero(x: u64)
    requires
        x != 0,
    ensures
        xorshift_step(x) != 0,
{
    let a = x ^ (x >> 12u64);
    assert(x != 0 ==> x ^ (x >> 12u64) != 0) by (bit_vector);
    let b = a ^ (a << 25u64);
    assert(a != 0 ==> a ^ (a << 25u64) != 0) by (bit_vector);
    assert(b != 0 ==> b ^ (b >> 27u64) != 0) by (bit_vector);
}

/// The xorshift64* pseudo-random generator.
#[derive(Debug)]
pub struct XorShift64Star {
    state: u64,
}

impl Clone for XorShift64Star {
    fn clone(&self) -> (copy: Self)
        ensures
            copy.state() == self.state(),
    {
        proof {
            use_type_invariant(self);
        }
        XorShift64Star { state: self.state }
    }
}

impl XorShift64Star {
    /// The current state.
    pub closed spec fn state(&self) -> u64 {
        self.state
    }

    /// The state is never zero, the one fixed point of the step.
    #[verifier::type_invariant]
    closed spec fn state_nonzero(&self) -> bool {
        self.state != 0
    }

    /// A generator started from `seed`, or from a fixed non-zero state when the seed is zero.
    pub fn new(seed: u64) -> (rng: Self)
        ensures
            rng.state() != 0,
            rng.state() == (if seed == 0 {
                ZERO_SEED_STATE
            } else {
                seed
            }),
    {
        let state = if seed == 0 {
            ZERO_SEED_STATE
        } else {
            seed
        };
        XorShift64Star { state }
    }

    /// Steps the state and returns the output of the new state.
    pub fn next_u64(&mut self) -> (value: u64)
        ensures
            final(self).state() == xorshift_step(old(self).state()),
            final(self).state() != 0,
            value == xorshift_output(final(self).state()),
    {
        proof {
            use_type_invariant(&*self);
            lemma_xorshift_step_nonzero(self.state);
        }
        let mut x = self.state;
        x ^= x >> 12;
        x ^= x << 25;
        x ^= x >> 27;
        self.state = x;
        x.wrapping_mul(XORSHIFT_MULTIPLIER)
    }
}

/// What can go wrong when setting up a dataset.
#[derive(Debug, PartialEq, Eq, Structural)]
pub enum DatasetError {
    /// The requested size is not a whole number of records.
    SizeNotMultipleOfRecord,
    /// A write block is not a whole number of pages.
    BlockNotMultipleOfPage,
}

/// The `i`-th value (from 0) of a dataset of `count` values whose generator starts
/// from `seed_state`: pseudo-random, `1, 2, ..., count`, or `count, ..., 2, 1`.
pub open spec fn dataset_value(d: DataDistribution, count: nat, seed_state: u64, i: nat) -> u64 {
    match d {
        DataDistribution::Random => xorshift_output(xorshift_iterate(seed_state, i + 1)),
        DataDistribution::Ascending => (i + 1) as u64,
        DataDistribution::Descending => (count - i) as u64,
    }
}

/// The generator's starting state for an optional seed.
pub open spec fn seed_state_for(seed: Option<u64>) -> u64 {
    let s = match seed {
        Some(s) => s,
        None => DEFAULT_DATASET_SEED,
    };
    if s == 0 {
        ZERO_SEED_STATE
    } else {
        s
    }
}

/// The number of values written per block.
pub open spec fn values_per_block() -> nat {
    (WRITE_BLOCK_BYTES / U64_BYTES) as nat
}

/// Produces the contents of a dataset file block by block.
pub struct DatasetGenerator {
    rng: XorShift64Star,
    current_value: u64,
    value_count: u64,
    remaining: u64,
    distribution: DataDistribution,
    seed_state: Ghost<u64>,
}

impl DatasetGenerator {
    /// The number of values in the whole dataset.
    pub closed spec fn value_count(&self) -> nat {
        self.value_count as nat
    }

    /// The number of values already handed out.
    pub closed spec fn produced(&self) -> nat {
        (self.value_count - self.remaining) as nat
    }

    /// The order of the values.
    pub closed spec fn distribution(&self) -> DataDistribution {
        self.distribution
    }

    /// The state the pseudo-random generator started from.
    pub closed spec fn seed_state(&self) -> u64 {
        self.seed_state@
    }

    /// The generator's internal invariant.
    pub closed spec fn well_formed(&self) -> bool {
        &&& self.remaining <= self.value_count
        &&& self.value_count < u64::MAX
        &&& self.current_value == self.value_count - self.remaining + 1
        &&& self.distribution == DataDistribution::Random ==> self.rng.state() == xorshift_iterate(
            self.seed_state@,
            self.produced(),
        )
    }

    /// A generator of `size_bytes / 8` values. A size that is not a whole number of
    /// records is refused.
    pub fn new(size_bytes: usize, distribution: DataDistribution, seed: Option<u64>) -> (result:
        Result<DatasetGenerator, DatasetError>)
        ensures
            size_bytes % 8 != 0 <==> result is Err,
            result is Err ==> result == Err::<DatasetGenerator, DatasetError>(
                DatasetError::SizeNotMultipleOfRecord,
            ),
            result matches Ok(g) ==> {
                &&& g.well_formed()
                &&& g.value_count() == size_bytes / 8
                &&& g.produced() == 0
                &&& g.distribution() == distribution
                &&& g.seed_state() == seed_state_for(seed)
            },
    {
        if size_bytes % U64_BYTES != 0 {
            return Err(DatasetError::SizeNotMultipleOfRecord);
        }
        if WRITE_BLOCK_BYTES % PAGE_SIZE_BYTES != 0 {
            return Err(DatasetError::BlockNotMultipleOfPage);
        }
        let value_count = (size_bytes / U64_BYTES) as u64;
        let seed_value = match seed {
            Some(s) => s,
            None => DEFAULT_DATASET_SEED,
        };
        let rng = XorShift64Star::new(seed_value);
        Ok(DatasetGenerator {
            rng,
            current_value: 1,
            value_count,
            remaining: value_count,
            distribution,
            seed_state: Ghost(rng.state()),
        })
    }

    fn next_value(&mut self) -> (value: u64)
        requires
            old(self).well_formed(),
            old(self).remaining > 0,
        ensures
            final(self).well_formed(),
            final(self).value_count == old(self).value_count,
            final(self).remaining == old(self).remaining - 1,
            final(self).distribution == old(self).distribution,
            final(self).seed_state == old(self).seed_state,
            value == dataset_value(
                old(self).distribution,
                old(self).value_count as nat,
                old(self).seed_state@,
                old(self).produced(),
            ),
    {
        let value = match self.distribution {
            DataDistribution::Random => self.rng.next_u64(),
            DataDistribution::Ascending => self.current_value,
            DataDistribution::Descending => self.value_count - self.current_value + 1,
        };
        self.current_value = self.current_value + 1;
        self.remaining = self.remaining - 1;
        value
    }

    /// The next block of the file: the little-endian bytes of the next
    /// `min(remaining, WRITE_BLOCK_BYTES / 8)` values. Empty once the dataset is complete.
    pub fn next_block(&mut self) -> (bytes: Vec<u8>)
        requires
            old(self).well_formed(),
        ensures
            final(self).well_formed(),
            final(self).value_count() == old(self).value_count(),
            final(self).distribution() == old(self).distribution(),
            final(self).seed_state() == old(self).seed_state(),
            ({
                let p = old(self).produced();
                let left = (old(self).value_count() - p) as nat;
                let b = if left < values_per_block() {
                    left
                } else {
                    values_per_block()
                };
                &&& final(self).produced() == p + b
                &&& bytes@ =~= encode_values(
                    Seq::new(
                        b,
                        |j: int|
                            dataset_value(
                                old(self).distribution(),
                                old(self).value_count(),
                                old(self).seed_state(),
                                (p + j) as nat,
                            ),
                    ),
                )
            }),
    {
        let per_block = (WRITE_BLOCK_BYTES / U64_BYTES) as u64;
        let block = if self.remaining < per_block {
            self.remaining
        } else {
            per_block
        };
        let ghost p = self.produced();
        let mut values: Vec<u64> = Vec::new();
        let mut k: u64 = 0;
        while k < block
            invariant
                self.well_formed(),
                old(self).well_formed(),
                self.value_count == old(self).value_count,
                self.distribution == old(self).distribution,
                self.seed_state == old(self).seed_state,
                block <= per_block,
                per_block == values_per_block(),
                block <= old(self).remaining,
                k <= block,
                self.remaining == old(self).remaining - k,
                p == old(self).produced(),
                values@.len() == k,
                forall|j: int|
                    0 <= j < k ==> #[trigger] values@[j] == dataset_value(
                        self.distribution,
                        self.value_count as nat,
                        self.seed_state@,
                        (p + j) as nat,
                    ),
            decreases block - k,
        {
            assert(self.produced() == p + k);
            let v = self.next_value();
            let ghost before = values@;
            values.push(v);
            assert(values@[k as int] == v);
            assert(forall|j: int| 0 <= j < k ==> values@[j] == before[j]);
            k += 1;
        }
        encode_u64s(values.as_slice())
    }
}

/// The values of a dataset, position by position: an ascending dataset of `count`
/// values is `1, 2, ..., count`, a descending one is `count, ..., 2, 1`, and a random
/// one is the output sequence of an `XorShift64Star` started from the seed state,
/// whichever block a value is written in.
pub proof fn lemma_dataset_values(count: nat, seed_state: u64, i: nat)
    requires
        i < count,
        count < u64::MAX,
    ensures
        dataset_value(DataDistribution::Ascending, count, seed_state, i) == i + 1,
        dataset_value(DataDistribution::Descending, count, seed_state, i) == count - i,
        dataset_value(DataDistribution::Descending, count, seed_state, i) + dataset_value(
            DataDistribution::Ascending,
            count,
            seed_state,
            i,
        ) == count + 1,
        i + 1 < count ==> dataset_value(DataDistribution::Descending, count, seed_state, i + 1) + 1
            == dataset_value(DataDistribution::Descending, count, seed_state, i),
        dataset_value(DataDistribution::Random, count, seed_state, 0) == xorshift_output(
            xorshift_step(seed_state),
        ),
        dataset_value(DataDistribution::Random, count, seed_state, i + 1) == xorshift_output(
            xorshift_step(xorshift_iterate(seed_state, i + 1)),
        ),
{
    assert(xorshift_iterate(seed_state, 1) == xorshift_step(xorshift_iterate(seed_state, 0)));
}

/// A dataset starts from the seed it is given: any non-zero seed is the generator's
/// starting state, as for `XorShift64Star::new`; a zero seed starts from the fixed
/// non-zero state, and no seed from the default seed.
pub proof fn lemma_seed_is_starting_state(s: u64)
    ensures
        s != 0 ==> seed_state_for(Some(s)) == s,
        seed_state_for(Some(0)) == ZERO_SEED_STATE,
        seed_state_for(None) == DEFAULT_DATASET_SEED,
        seed_state_for(Some(s)) != 0,
{
}

} // verus!
