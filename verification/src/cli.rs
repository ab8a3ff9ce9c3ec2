//! Reading numbers and lists from command-line arguments.
use vstd::prelude::*;
use vstd::string::*;
use crate::dataset::{DataDistribution, distribution_named};

verus! {

/// The characters Unicode classes as white space (`char::is_whitespace`).
pub open spec fn is_white_space(c: char) -> bool {
    let u = c as u32;
    (0x09 <= u <= 0x0D) || u == 0x20 || u == 0x85 || u == 0xA0 || u == 0x1680 || (0x2000 <= u
        <= 0x200A) || u == 0x2028 || u == 0x2029 || u == 0x202F || u == 0x205F || u == 0x3000
}

fn white_space(c: char) -> (b: bool)
    ensures
        b == is_white_space(c),
{
    let u = c as u32;
    (0x09 <= u && u <= 0x0D) || u == 0x20 || u == 0x85 || u == 0xA0 || u == 0x1680 || (0x2000 <= u
        && u <= 0x200A) || u == 0x2028 || u == 0x2029 || u == 0x202F || u == 0x205F || u == 0x3000
}

/// `s` without its leading white space.
pub open spec fn trim_start(s: Seq<char>) -> Seq<char>
    decreases s.len(),
{
    if s.len() > 0 && is_white_space(s[0]) {
        trim_start(s.drop_first())
    } else {
        s
    }
}

/// `s` without its trailing white space.
pub open spec fn trim_end(s: Seq<char>) -> Seq<char>
    decreases s.len(),
{
    if s.len() > 0 && is_white_space(s.last()) {
        trim_end(s.drop_last())
    } else {
        s
    }
}

/// `s` without white space at either end.
pub open spec fn trimmed(s: Seq<char>) -> Seq<char> {
    trim_end(trim_start(s))
}

/// The value of a string of decimal digits.
pub open spec fn digits_value(d: Seq<char>) -> nat
    decreases d.len(),
{
    if d.len() == 0 {
        0
    } else {
        digits_value(d.drop_last()) * 10 + ((d.last() as u32) - 48) as nat
    }
}

/// The character is one of `0` to `9`.
pub open spec fn is_digit(c: char) -> bool {
    48 <= (c as u32) <= 57
}

/// The digits of an unsigned number: the text after an optional `+`.
pub open spec fn unsigned_digits(s: Seq<char>) -> Seq<char> {
    if s.len() > 0 && s[0] == '+' {
        s.drop_first()
    } else {
        s
    }
}

/// Every character is a decimal digit.
pub open spec fn all_digits(d: Seq<char>) -> bool {
    forall|i: int| 0 <= i < d.len() ==> is_digit(#[trigger] d[i])
}

/// The unsigned number a string holds: an optional `+` and at least one decimal
/// digit, with a value that fits in `usize`.
pub open spec fn usize_from_text(s: Seq<char>) -> Option<usize> {
    let d = unsigned_digits(s);
    if d.len() == 0 || !all_digits(d) || digits_value(d) > usize::MAX {
        None
    } else {
        Some(digits_value(d) as usize)
    }
}

/// The unsigned number written in `text`, as `str::parse::<usize>` reads it.
pub fn parse_usize(text: &str) -> (value: Option<usize>)
    ensures
        value == usize_from_text(text@),
{
    let n = text.unicode_len();
    let mut i: usize = 0;
    if n > 0 && text.get_char(0) == '+' {
        i = 1;
    }
    let ghost d = text@.subrange(i as int, n as int);
    proof {
        if i == 1 {
            assert(d =~= text@.drop_first());
        } else {
            assert(d =~= text@);
        }
        assert(d == unsigned_digits(text@));
    }
    if i == n {
        return None;
    }
    let start = i;
    let mut value: usize = 0;
    while i < n
        invariant
            n == text@.len(),
            start <= i <= n,
            d == text@.subrange(start as int, n as int),
            d == unsigned_digits(text@),
            forall|k: int| start <= k < i ==> is_digit(#[trigger] text@[k]),
            value == digits_value(text@.subrange(start as int, i as int)),
        decreases n - i,
    {
        let c = text.get_char(i);
        let u = c as u32;
        if u < 48 || u > 57 {
            proof {
                assert(!is_digit(d[i - start]));
            }
            return None;
        }
        let digit = (u - 48) as usize;
        let ghost p = text@.subrange(start as int, i + 1);
        proof {
            assert(p.drop_last() =~= text@.subrange(start as int, i as int));
            assert(p.last() == c);
            assert(digits_value(p) == value * 10 + digit);
        }
        if value > (usize::MAX - digit) / 10 {
            proof {
                if all_digits(d) {
                    lemma_digits_value_grows(d, (i + 1 - start) as nat);
                    assert(d.subrange(0, i + 1 - start) =~= p);
                }
            }
            return None;
        }
        value = value * 10 + digit;
        i += 1;
    }
    proof {
        assert(text@.subrange(start as int, n as int) =~= d);
        assert forall|k: int| 0 <= k < d.len() implies is_digit(#[trigger] d[k]) by {
            assert(d[k] == text@[start + k]);
        }
    }
    Some(value)
}

/// A number written with more digits is no smaller.
proof fn lemma_digits_value_grows(d: Seq<char>, m: nat)
    requires
        m <= d.len(),
        forall|k: int| 0 <= k < d.len() ==> is_digit(#[trigger] d[k]),
    ensures
        digits_value(d.subrange(0, m as int)) <= digits_value(d),
    decreases d.len(),
{
    if m < d.len() {
        let p = d.drop_last();
        assert(p.subrange(0, m as int) =~= d.subrange(0, m as int));
        assert forall|k: int| 0 <= k < p.len() implies is_digit(#[trigger] p[k]) by {
            assert(p[k] == d[k]);
        }
        lemma_digits_value_grows(p, m);
    } else {
        assert(d.subrange(0, m as int) =~= d);
    }
}

/// The pieces of `s` between commas, as `str::split(',')` yields them.
pub open spec fn split_commas(s: Seq<char>) -> Seq<Seq<char>>
    decreases s.len(),
{
    if s.len() == 0 {
        seq![Seq::empty()]
    } else {
        let p = split_commas(s.drop_last());
        if s.last() == ',' {
            p.push(Seq::empty())
        } else {
            p.update(p.len() - 1, p.last().push(s.last()))
        }
    }
}

pub(crate) proof fn lemma_split_nonempty(s: Seq<char>)
    ensures
        split_commas(s).len() >= 1,
    decreases s.len(),
{
    if s.len() > 0 {
        lemma_split_nonempty(s.drop_last());
    }
}

/// The numbers of a comma-separated list, in order, skipping blank entries; the
/// first entry that is not a number is the error, as written.
pub open spec fn usize_list(pieces: Seq<Seq<char>>) -> Result<Seq<usize>, Seq<char>>
    decreases pieces.len(),
{
    if pieces.len() == 0 {
        Ok(Seq::empty())
    } else {
        match usize_list(pieces.drop_last()) {
            Err(e) => Err(e),
            Ok(vs) => {
                let p = pieces.last();
                if trimmed(p).len() == 0 {
                    Ok(vs)
                } else {
                    match usize_from_text(trimmed(p)) {
                        Some(v) => Ok(vs.push(v)),
                        None => Err(p),
                    }
                }
            },
        }
    }
}

/// The distributions of a comma-separated list of names, in order, skipping blank
/// entries; the first entry that names no distribution is the error, as written.
pub open spec fn distribution_list(pieces: Seq<Seq<char>>) -> Result<Seq<DataDistribution>, Seq<char>>
    decreases pieces.len(),
{
    if pieces.len() == 0 {
        Ok(Seq::empty())
    } else {
        match distribution_list(pieces.drop_last()) {
            Err(e) => Err(e),
            Ok(ds) => {
                let p = pieces.last();
                if trimmed(p).len() == 0 {
                    Ok(ds)
                } else {
                    match distribution_named(trimmed(p)) {
                        Some(d) => Ok(ds.push(d)),
                        None => Err(p),
                    }
                }
            },
        }
    }
}

pub(crate) proof fn lemma_trim_start_at(s: Seq<char>, a: int)
    requires
        0 <= a <= s.len(),
        forall|k: int| 0 <= k < a ==> is_white_space(#[trigger] s[k]),
        a < s.len() ==> !is_white_space(s[a]),
    ensures
        trim_start(s) =~= s.subrange(a, s.len() as int),
    decreases a,
{
    if a > 0 {
        let t = s.drop_first();
        assert forall|k: int| 0 <= k < a - 1 implies is_white_space(#[trigger] t[k]) by {
            assert(t[k] == s[k + 1]);
        }
        lemma_trim_start_at(t, a - 1);
        assert(t.subrange(a - 1, t.len() as int) =~= s.subrange(a, s.len() as int));
    } else {
        assert(s.subrange(0, s.len() as int) =~= s);
    }
}

pub(crate) proof fn lemma_trim_end_at(s: Seq<char>, b: int)
    requires
        0 <= b <= s.len(),
        forall|k: int| b <= k < s.len() ==> is_white_space(#[trigger] s[k]),
        b > 0 ==> !is_white_space(s[b - 1]),
    ensures
        trim_end(s) =~= s.subrange(0, b),
    decreases s.len() - b,
{
    if b < s.len() {
        let t = s.drop_last();
        assert forall|k: int| b <= k < t.len() implies is_white_space(#[trigger] t[k]) by {
            assert(t[k] == s[k]);
        }
        lemma_trim_end_at(t, b);
        assert(t.subrange(0, b) =~= s.subrange(0, b));
    } else {
        assert(s.subrange(0, b) =~= s);
    }
}

/// The range of `s` that is left once white space is removed from both ends.
fn trim_bounds(s: &str) -> (bounds: (usize, usize))
    ensures
        bounds.0 <= bounds.1 <= s@.len(),
        s@.subrange(bounds.0 as int, bounds.1 as int) =~= trimmed(s@),
{
    let n = s.unicode_len();
    let mut a: usize = 0;
    while a < n && white_space(s.get_char(a))
        invariant
            n == s@.len(),
            a <= n,
            forall|k: int| 0 <= k < a ==> is_white_space(#[trigger] s@[k]),
        decreases n - a,
    {
        a += 1;
    }
    proof {
        lemma_trim_start_at(s@, a as int);
    }
    let ghost t = s@.subrange(a as int, n as int);
    let mut b: usize = n;
    while b > a && white_space(s.get_char(b - 1))
        invariant
            n == s@.len(),
            a <= b <= n,
            t == s@.subrange(a as int, n as int),
            forall|k: int| b <= k < n ==> is_white_space(#[trigger] s@[k]),
        decreases b - a,
    {
        b -= 1;
    }
    proof {
        assert forall|k: int| b - a <= k < t.len() implies is_white_space(#[trigger] t[k]) by {
            assert(t[k] == s@[a + k]);
        }
        if b > a {
            assert(t[b - a - 1] == s@[b - 1]);
        }
        lemma_trim_end_at(t, (b - a) as int);
        assert(t.subrange(0, (b - a) as int) =~= s@.subrange(a as int, b as int));
    }
    (a, b)
}

/// The pieces of `raw` between commas, as `str::split(',')` yields them.
pub fn split_commas_exec(raw: &str) -> (pieces: Vec<String>)
    ensures
        pieces@.len() == split_commas(raw@).len(),
        forall|k: int| 0 <= k < pieces@.len() ==> #[trigger] pieces@[k]@ == split_commas(raw@)[k],
{
    let n = raw.unicode_len();
    let mut pieces: Vec<String> = Vec::new();
    let mut start: usize = 0;
    let mut i: usize = 0;
    proof {
        assert(raw@.subrange(0, 0) =~= Seq::<char>::empty());
    }
    while i < n
        invariant
            n == raw@.len(),
            start <= i <= n,
            ({
                let sp = split_commas(raw@.subrange(0, i as int));
                &&& sp.len() == pieces@.len() + 1
                &&& forall|k: int| 0 <= k < pieces@.len() ==> #[trigger] pieces@[k]@ == sp[k]
                &&& sp.last() == raw@.subrange(start as int, i as int)
            }),
        decreases n - i,
    {
        let c = raw.get_char(i);
        let ghost prefix = raw@.subrange(0, i as int);
        let ghost next = raw@.subrange(0, i + 1);
        proof {
            assert(next.drop_last() =~= prefix);
            assert(next.last() == c);
            lemma_split_nonempty(prefix);
        }
        if c == ',' {
            let piece = String::from_str(raw.substring_char(start, i));
            let ghost before = pieces@;
            pieces.push(piece);
            proof {
                let sp = split_commas(prefix);
                assert forall|k: int| 0 <= k < pieces@.len() implies #[trigger] pieces@[k]@
                    == split_commas(next)[k] by {
                    if k < before.len() {
                        assert(pieces@[k] == before[k]);
                    }
                }
                assert(raw@.subrange(i + 1, i + 1) =~= Seq::<char>::empty());
            }
            start = i + 1;
        } else {
            proof {
                let sp = split_commas(prefix);
                assert(split_commas(next) == sp.update(sp.len() - 1, sp.last().push(c)));
                assert(raw@.subrange(start as int, i + 1) =~= raw@.subrange(start as int, i as int).push(c));
            }
        }
        i += 1;
    }
    let last = String::from_str(raw.substring_char(start, n));
    let ghost before = pieces@;
    pieces.push(last);
    proof {
        assert(raw@.subrange(0, n as int) =~= raw@);
        assert forall|k: int| 0 <= k < pieces@.len() implies #[trigger] pieces@[k]@ == split_commas(
            raw@,
        )[k] by {
            if k < before.len() {
                assert(pieces@[k] == before[k]);
            }
        }
    }
    pieces
}

/// The numbers of a comma-separated list such as `1,2, 4`, skipping blank entries.
/// The first entry that is not a number is returned as the error, as written.
pub fn parse_usize_list(raw: &str) -> (result: Result<Vec<usize>, String>)
    ensures
        match result {
            Ok(values) => usize_list(split_commas(raw@)) == Ok::<Seq<usize>, Seq<char>>(values@),
            Err(entry) => usize_list(split_commas(raw@)) == Err::<Seq<usize>, Seq<char>>(entry@),
        },
{
    let pieces = split_commas_exec(raw);
    let ghost sp = split_commas(raw@);
    let mut values: Vec<usize> = Vec::new();
    let mut k: usize = 0;
    while k < pieces.len()
        invariant
            pieces@.len() == sp.len(),
            sp == split_commas(raw@),
            forall|j: int| 0 <= j < pieces@.len() ==> #[trigger] pieces@[j]@ == sp[j],
            k <= pieces@.len(),
            usize_list(sp.subrange(0, k as int)) == Ok::<Seq<usize>, Seq<char>>(values@),
        decreases pieces@.len() - k,
    {
        let piece = pieces[k].as_str();
        let ghost part = sp.subrange(0, k + 1);
        proof {
            assert(part.drop_last() =~= sp.subrange(0, k as int));
            assert(part.last() == piece@);
        }
        let (a, b) = trim_bounds(piece);
        if a < b {
            match parse_usize(piece.substring_char(a, b)) {
                Some(v) => values.push(v),
                None => {
                    proof {
                        lemma_list_error_stays(sp, (k + 1) as nat);
                    }
                    return Err(pieces[k].clone());
                },
            }
        }
        k += 1;
    }
    proof {
        assert(sp.subrange(0, pieces@.len() as int) =~= sp);
    }
    Ok(values)
}

/// The distributions named in a comma-separated list such as `random,ascending`,
/// skipping blank entries. The first entry that names no distribution is returned
/// as the error, as written.
pub fn parse_distribution_list(raw: &str) -> (result: Result<Vec<DataDistribution>, String>)
    ensures
        match result {
            Ok(values) => distribution_list(split_commas(raw@)) == Ok::<
                Seq<DataDistribution>,
                Seq<char>,
            >(values@),
            Err(entry) => distribution_list(split_commas(raw@)) == Err::<
                Seq<DataDistribution>,
                Seq<char>,
            >(entry@),
        },
{
    let pieces = split_commas_exec(raw);
    let ghost sp = split_commas(raw@);
    let mut values: Vec<DataDistribution> = Vec::new();
    let mut k: usize = 0;
    while k < pieces.len()
        invariant
            pieces@.len() == sp.len(),
            sp == split_commas(raw@),
            forall|j: int| 0 <= j < pieces@.len() ==> #[trigger] pieces@[j]@ == sp[j],
            k <= pieces@.len(),
            distribution_list(sp.subrange(0, k as int)) == Ok::<Seq<DataDistribution>, Seq<char>>(
                values@,
            ),
        decreases pieces@.len() - k,
    {
        let piece = pieces[k].as_str();
        let ghost part = sp.subrange(0, k + 1);
        proof {
            assert(part.drop_last() =~= sp.subrange(0, k as int));
            assert(part.last() == piece@);
        }
        let (a, b) = trim_bounds(piece);
        if a < b {
            match DataDistribution::parse(piece.substring_char(a, b)) {
                Some(d) => values.push(d),
                None => {
                    proof {
                        lemma_distribution_error_stays(sp, (k + 1) as nat);
                    }
                    return Err(pieces[k].clone());
                },
            }
        }
        k += 1;
    }
    proof {
        assert(sp.subrange(0, pieces@.len() as int) =~= sp);
    }
    Ok(values)
}

proof fn lemma_list_error_stays(sp: Seq<Seq<char>>, m: nat)
    requires
        m <= sp.len(),
        usize_list(sp.subrange(0, m as int)) is Err,
    ensures
        usize_list(sp) == usize_list(sp.subrange(0, m as int)),
    decreases sp.len() - m,
{
    if m < sp.len() {
        let next = sp.subrange(0, (m + 1) as int);
        assert(next.drop_last() =~= sp.subrange(0, m as int));
        lemma_list_error_stays(sp, (m + 1) as nat);
    } else {
        assert(sp.subrange(0, m as int) =~= sp);
    }
}

proof fn lemma_distribution_error_stays(sp: Seq<Seq<char>>, m: nat)
    requires
        m <= sp.len(),
        distribution_list(sp.subrange(0, m as int)) is Err,
    ensures
        distribution_list(sp) == distribution_list(sp.subrange(0, m as int)),
    decreases sp.len() - m,
{
    if m < sp.len() {
        let next = sp.subrange(0, (m + 1) as int);
        assert(next.drop_last() =~= sp.subrange(0, m as int));
        lemma_distribution_error_stays(sp, (m + 1) as nat);
    } else {
        assert(sp.subrange(0, m as int) =~= sp);
    }
}

/// The entries of a list that are not blank, in order.
pub open spec fn nonblank_pieces(pieces: Seq<Seq<char>>) -> Seq<Seq<char>>
    decreases pieces.len(),
{
    if pieces.len() == 0 {
        Seq::empty()
    } else if trimmed(pieces.last()).len() == 0 {
        nonblank_pieces(pieces.drop_last())
    } else {
        nonblank_pieces(pieces.drop_last()).push(pieces.last())
    }
}

/// A list of numbers is read entry by entry: it is accepted exactly when every
/// non-blank entry is a number, and then it holds one value per non-blank entry, in
/// order, each the number that entry holds, however many entries there are.
pub proof fn lemma_usize_list_entries(pieces: Seq<Seq<char>>)
    ensures
        usize_list(pieces) is Ok <==> forall|k: int|
            0 <= k < nonblank_pieces(pieces).len() ==> #[trigger] usize_from_text(
                trimmed(nonblank_pieces(pieces)[k]),
            ) is Some,
        usize_list(pieces) matches Ok(vs) ==> {
            &&& vs.len() == nonblank_pieces(pieces).len()
            &&& forall|k: int|
                0 <= k < vs.len() ==> usize_from_text(trimmed(nonblank_pieces(pieces)[k])) == Some(
                    #[trigger] vs[k],
                )
        },
    decreases pieces.len(),
{
    if pieces.len() > 0 {
        let rest = pieces.drop_last();
        lemma_usize_list_entries(rest);
        let nb = nonblank_pieces(pieces);
        let nr = nonblank_pieces(rest);
        if trimmed(pieces.last()).len() != 0 {
            assert(nb == nr.push(pieces.last()));
            if usize_list(pieces) is Ok {
                assert forall|k: int| 0 <= k < nr.len() implies #[trigger] usize_from_text(
                    trimmed(nr[k]),
                ) is Some by {
                    assert(nb[k] == nr[k]);
                    assert(usize_from_text(trimmed(nb[k])) is Some);
                }
            } else if usize_list(rest) is Ok {
                let k = nr.len() as int;
                assert(nb[k] == pieces.last());
                assert(usize_from_text(trimmed(nb[k])) is None);
            } else {
                let k = choose|k: int|
                    0 <= k < nr.len() && !(#[trigger] usize_from_text(trimmed(nr[k])) is Some);
                assert(nb[k] == nr[k]);
            }
        } else {
            assert(nb == nr);
        }
    }
}

/// The distribution list is read entry by entry in the same way: accepted exactly
/// when every non-blank entry names a distribution, and then one distribution per
/// non-blank entry, in order.
pub proof fn lemma_distribution_list_entries(pieces: Seq<Seq<char>>)
    ensures
        distribution_list(pieces) is Ok <==> forall|k: int|
            0 <= k < nonblank_pieces(pieces).len() ==> #[trigger] distribution_named(
                trimmed(nonblank_pieces(pieces)[k]),
            ) is Some,
        distribution_list(pieces) matches Ok(ds) ==> {
            &&& ds.len() == nonblank_pieces(pieces).len()
            &&& forall|k: int|
                0 <= k < ds.len() ==> distribution_named(trimmed(nonblank_pieces(pieces)[k]))
                    == Some(#[trigger] ds[k])
        },
    decreases pieces.len(),
{
    if pieces.len() > 0 {
        let rest = pieces.drop_last();
        lemma_distribution_list_entries(rest);
        let nb = nonblank_pieces(pieces);
        let nr = nonblank_pieces(rest);
        if trimmed(pieces.last()).len() != 0 {
            assert(nb == nr.push(pieces.last()));
            if distribution_list(pieces) is Ok {
                assert forall|k: int| 0 <= k < nr.len() implies #[trigger] distribution_named(
                    trimmed(nr[k]),
                ) is Some by {
                    assert(nb[k] == nr[k]);
                    assert(distribution_named(trimmed(nb[k])) is Some);
                }
            } else if distribution_list(rest) is Ok {
                let k = nr.len() as int;
                assert(nb[k] == pieces.last());
                assert(distribution_named(trimmed(nb[k])) is None);
            } else {
                let k = choose|k: int|
                    0 <= k < nr.len() && !(#[trigger] distribution_named(trimmed(nr[k])) is Some);
                assert(nb[k] == nr[k]);
            }
        } else {
            assert(nb == nr);
        }
    }
}

/// A number written in decimal, with or without a leading `+`, reads back as that
/// number whenever it fits in `usize`.
pub proof fn lemma_decimal_reads_back(n: nat)
    requires
        n <= usize::MAX,
    ensures
        usize_from_text(crate::text::decimal(n)) == Some(n as usize),
        usize_from_text(seq!['+'] + crate::text::decimal(n)) == Some(n as usize),
{
    crate::inspect::lemma_decimal_digits(n);
    let d = crate::text::decimal(n);
    assert(is_digit(d[0]));
    assert(d[0] != '+');
    assert(unsigned_digits(d) == d);
    let p = seq!['+'] + d;
    assert(p.drop_first() =~= d);
    assert(unsigned_digits(p) == d);
}

} // verus!
