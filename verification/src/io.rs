//! The on-disk record format: each value is eight little-endian bytes, one
//! record after the other.
use vstd::prelude::*;
use vstd::bytes::*;

verus! {

/// The bytes of a sequence of values written record after record.
pub open spec fn encode_values(values: Seq<u64>) -> Seq<u8> {
    Seq::new(values.len() * 8, |j: int| spec_u64_to_le_bytes(values[j / 8])[j % 8])
}

/// The values held by a byte sequence, one per complete record.
pub open spec fn decode_values(bytes: Seq<u8>) -> Seq<u64> {
    Seq::new(bytes.len() / 8, |i: int| spec_u64_from_le_bytes(bytes.subrange(i * 8, i * 8 + 8)))
}

/// Writing values and reading them back gives the same values.
pub proof fn lemma_decode_encode(values: Seq<u64>)
    ensures
        decode_values(encode_values(values)) =~= values,
{
    lemma_auto_spec_u64_to_from_le_bytes();
    let bytes = encode_values(values);
    assert(bytes.len() / 8 == values.len());
    assert forall|i: int| 0 <= i < values.len() implies #[trigger] decode_values(bytes)[i]
        == values[i] by {
        let rec = bytes.subrange(i * 8, i * 8 + 8);
        assert(rec =~= spec_u64_to_le_bytes(values[i]));
    }
}

/// Reading records and writing them back gives the same bytes.
pub proof fn lemma_encode_decode(bytes: Seq<u8>)
    requires
        bytes.len() % 8 == 0,
    ensures
        encode_values(decode_values(bytes)) =~= bytes,
{
    lemma_auto_spec_u64_to_from_le_bytes();
    let values = decode_values(bytes);
    assert forall|j: int| 0 <= j < bytes.len() implies #[trigger] encode_values(values)[j]
        == bytes[j] by {
        let i = j / 8;
        let rec = bytes.subrange(i * 8, i * 8 + 8);
        assert(spec_u64_to_le_bytes(spec_u64_from_le_bytes(rec)) == rec);
    }
}

/// The bytes of `values`, record after record.
pub fn encode_u64s(values: &[u64]) -> (bytes: Vec<u8>)
    requires
        values@.len() * 8 <= usize::MAX,
    ensures
        bytes@ =~= encode_values(values@),
{
    proof {
        lemma_auto_spec_u64_to_from_le_bytes();
    }
    let mut bytes: Vec<u8> = Vec::new();
    let mut i: usize = 0;
    while i < values.len()
        invariant
            i <= values@.len(),
            values@.len() * 8 <= usize::MAX,
            bytes@.len() == i * 8,
            forall|j: int|
                0 <= j < i * 8 ==> #[trigger] bytes@[j] == spec_u64_to_le_bytes(values@[j / 8])[j
                    % 8],
        decreases values@.len() - i,
    {
        let rec = u64_to_le_bytes(values[i]);
        let mut k: usize = 0;
        while k < 8
            invariant
                k <= 8,
                i < values@.len(),
                rec@ == spec_u64_to_le_bytes(values@[i as int]),
                rec@.len() == 8,
                bytes@.len() == i * 8 + k,
                forall|j: int|
                    0 <= j < i * 8 + k ==> #[trigger] bytes@[j] == spec_u64_to_le_bytes(
                        values@[j / 8],
                    )[j % 8],
            decreases 8 - k,
        {
            bytes.push(rec[k]);
            k += 1;
        }
        i += 1;
    }
    bytes
}

/// The values of a block of whole records; `None` when the block ends inside a record.
pub fn decode_u64s(bytes: &[u8]) -> (values: Option<Vec<u64>>)
    ensures
        bytes@.len() % 8 != 0 <==> values is None,
        values matches Some(v) ==> v@ =~= decode_values(bytes@),
{
    if bytes.len() % 8 != 0 {
        return None;
    }
    let len = bytes.len();
    let count = len / 8;
    let mut values: Vec<u64> = Vec::new();
    let mut i: usize = 0;
    while i < count
        invariant
            len == bytes@.len(),
            count == len / 8,
            i <= count,
            values@.len() == i,
            forall|k: int|
                0 <= k < i ==> #[trigger] values@[k] == spec_u64_from_le_bytes(
                    bytes@.subrange(k * 8, k * 8 + 8),
                ),
        decreases count - i,
    {
        let rec = &bytes[i * 8..i * 8 + 8];
        values.push(u64_from_le_bytes(rec));
        i += 1;
    }
    Some(values)
}

} // verus!
