//! Looking at both ends of a record file.
use vstd::prelude::*;
use vstd::string::*;
use crate::config::U64_BYTES;
use crate::text::{decimal, decimal_string, digit_char};
use crate::cli::{
    all_digits, digits_value, is_digit, is_white_space, split_commas, trimmed, lemma_trim_start_at,
    lemma_trim_end_at,
};

verus! {

/// What can go wrong when previewing a file.
#[derive(Debug, PartialEq, Eq, Structural)]
pub enum PreviewError {
    /// The file size is not a whole number of records.
    SizeNotMultipleOfRecord,
}

/// Where to read the two ends of a file.
#[derive(Debug, PartialEq, Eq, Structural)]
pub struct PreviewPlan {
    /// The number of records to read at the start, and again at the end.
    pub read_count: usize,
    /// The byte offset of the first record of the tail.
    pub tail_offset: u64,
}

/// Plans the preview of `count` records at each end of a file of `file_size` bytes:
/// as many records as the file has, up to `count`, and the tail starts that many
/// records before the end. A size that is not a whole number of records is refused.
pub fn preview_plan(file_size: u64, count: usize) -> (result: Result<PreviewPlan, PreviewError>)
    ensures
        file_size % 8 != 0 <==> result is Err,
        result is Err ==> result == Err::<PreviewPlan, PreviewError>(
            PreviewError::SizeNotMultipleOfRecord,
        ),
        result matches Ok(plan) ==> {
            let total = file_size / 8;
            &&& plan.read_count == (if count < total {
                count as int
            } else {
                total as int
            })
            &&& plan.tail_offset == (total - plan.read_count) * 8
        },
{
    let record = U64_BYTES as u64;
    if file_size % record != 0 {
        return Err(PreviewError::SizeNotMultipleOfRecord);
    }
    let total = file_size / record;
    let read_count = if (count as u64) < total {
        count as u64
    } else {
        total
    };
    Ok(PreviewPlan { read_count: read_count as usize, tail_offset: (total - read_count) * record })
}

/// Values written in decimal and separated by `", "`.
pub open spec fn joined_decimals(values: Seq<u64>) -> Seq<char>
    decreases values.len(),
{
    if values.len() == 0 {
        Seq::empty()
    } else if values.len() == 1 {
        decimal(values[0] as nat)
    } else {
        joined_decimals(values.drop_last()) + ", "@ + decimal(values.last() as nat)
    }
}

/// The values in decimal, separated by `", "`.
pub fn format_u64s(values: &[u64]) -> (text: String)
    ensures
        text@ == joined_decimals(values@),
{
    let mut text = String::new();
    let mut i: usize = 0;
    while i < values.len()
        invariant
            i <= values@.len(),
            text@ == joined_decimals(values@.subrange(0, i as int)),
        decreases values@.len() - i,
    {
        proof {
            let next = values@.subrange(0, i + 1);
            assert(next.drop_last() =~= values@.subrange(0, i as int));
            assert(next.last() == values@[i as int]);
            if i == 0 {
                assert(next[0] == values@[0]);
            }
        }
        if i > 0 {
            text.append(", ");
        }
        let digits = decimal_string(values[i]);
        text.append(digits.as_str());
        i += 1;
    }
    proof {
        assert(values@.subrange(0, values@.len() as int) =~= values@);
    }
    text
}

pub(crate) proof fn lemma_decimal_digits(n: nat)
    ensures
        decimal(n).len() >= 1,
        all_digits(decimal(n)),
        digits_value(decimal(n)) == n,
    decreases n,
{
    let d = decimal(n);
    if n < 10 {
        assert(digit_char(n) as u32 == 48 + n);
        assert(d.drop_last() =~= Seq::<char>::empty());
        assert(d.last() == digit_char(n));
        assert(digits_value(d) == digits_value(d.drop_last()) * 10 + ((d.last() as u32) - 48) as nat);
    } else {
        lemma_decimal_digits(n / 10);
        assert(digit_char(n % 10) as u32 == 48 + n % 10);
        assert(d.drop_last() =~= decimal(n / 10));
        assert(d.last() == digit_char(n % 10));
        assert(digits_value(d) == digits_value(d.drop_last()) * 10 + ((d.last() as u32) - 48) as nat);
        assert(digits_value(d) == (n / 10) * 10 + n % 10);
        assert forall|i: int| 0 <= i < d.len() implies is_digit(#[trigger] d[i]) by {
            if i < d.len() - 1 {
                assert(d[i] == decimal(n / 10)[i]);
            }
        }
    }
}

proof fn lemma_split_without_commas(a: Seq<char>, b: Seq<char>)
    requires
        forall|i: int| 0 <= i < b.len() ==> b[i] != ',',
    ensures
        split_commas(a + b) =~= split_commas(a).update(
            split_commas(a).len() - 1,
            split_commas(a).last() + b,
        ),
        split_commas(a + b).len() == split_commas(a).len(),
    decreases b.len(),
{
    crate::cli::lemma_split_nonempty(a);
    if b.len() == 0 {
        assert(a + b =~= a);
        assert(split_commas(a).last() + b =~= split_commas(a).last());
    } else {
        let c = b.last();
        lemma_split_without_commas(a, b.drop_last());
        assert((a + b).drop_last() =~= a + b.drop_last());
        assert((a + b).last() == c);
        assert(split_commas(a).last() + b =~= (split_commas(a).last() + b.drop_last()).push(c));
    }
}

/// The text of `format_u64s` reads back as its values: split at the commas, each
/// piece is, once the space after the comma is trimmed, the decimal digits of the
/// corresponding value.
pub proof fn lemma_format_reads_back(values: Seq<u64>)
    requires
        values.len() >= 1,
    ensures
        split_commas(joined_decimals(values)).len() == values.len(),
        forall|i: int|
            0 <= i < values.len() ==> {
                let piece = trimmed(#[trigger] split_commas(joined_decimals(values))[i]);
                &&& piece == decimal(values[i] as nat)
                &&& all_digits(piece)
                &&& digits_value(piece) == values[i]
            },
    decreases values.len(),
{
    let n = values.len() as int;
    let last = values[n - 1];
    let d = decimal(last as nat);
    lemma_decimal_digits(last as nat);
    assert forall|i: int| 0 <= i < d.len() implies d[i] != ',' by {
        assert(is_digit(d[i]));
    }
    assert(!is_white_space(d[0]) && !is_white_space(d.last())) by {
        assert(is_digit(d[0]));
        assert(is_digit(d[d.len() - 1]));
    }
    lemma_trim_end_at(d, d.len() as int);
    if n == 1 {
        let e = Seq::<char>::empty();
        assert(e + d =~= d);
        lemma_split_without_commas(e, d);
        assert(split_commas(e) =~= seq![e]);
        lemma_trim_start_at(d, 0);
        assert(d.subrange(0, d.len() as int) =~= d);
        assert(joined_decimals(values) == d);
    } else {
        let rest = values.drop_last();
        lemma_format_reads_back(rest);
        let j = joined_decimals(rest);
        reveal_strlit(", ");
        let b = seq![' '] + d;
        assert(joined_decimals(values) == j + ", "@ + d);
        assert(j + ", "@ + d =~= j.push(',') + b);
        assert(j.push(',').drop_last() =~= j);
        assert(split_commas(j.push(',')) == split_commas(j).push(Seq::empty()));
        assert forall|i: int| 0 <= i < b.len() implies b[i] != ',' by {
            if i > 0 {
                assert(b[i] == d[i - 1]);
            }
        }
        lemma_split_without_commas(j.push(','), b);
        assert(Seq::<char>::empty() + b =~= b);
        assert(split_commas(joined_decimals(values)) =~= split_commas(j).push(b));
        assert(is_white_space(b[0]));
        assert(b[1] == d[0]);
        lemma_trim_start_at(b, 1);
        assert(b.subrange(1, b.len() as int) =~= d);
        assert(d.subrange(0, d.len() as int) =~= d);
        assert forall|i: int|
            0 <= i < values.len() implies {
                let piece = trimmed(#[trigger] split_commas(joined_decimals(values))[i]);
                &&& piece == decimal(values[i] as nat)
                &&& all_digits(piece)
                &&& digits_value(piece) == values[i]
            } by {
            if i < n - 1 {
                assert(split_commas(joined_decimals(values))[i] == split_commas(j)[i]);
                assert(values[i] == rest[i]);
            }
        }
    }
}

} // verus!
