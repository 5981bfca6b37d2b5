//! The packed forms of typed values: two bits to a boolean, nine bytes to a float.

use vstd::prelude::*;

use crate::encoding::{le_u64, push_u64_le, read_u64_le, u64_le};

verus! {

/// The two bits of an entry: 11 for true, 10 for false, 00 for absent.
pub open spec fn pair_of(value: Option<bool>) -> int {
    match value {
        Some(true) => 3,
        Some(false) => 2,
        None => 0,
    }
}

/// The entry that two bits stand for: 11 is true, 10 is false, anything else absent.
pub open spec fn value_of_pair(pair: int) -> Option<bool> {
    if pair == 3 {
        Some(true)
    } else if pair == 2 {
        Some(false)
    } else {
        None
    }
}

/// The entry at `i`, or absent past the end.
pub open spec fn entry_or_absent(values: Seq<Option<bool>>, i: int) -> Option<bool> {
    if 0 <= i < values.len() {
        values[i]
    } else {
        None
    }
}

/// Byte `k` of the packed form: the entries `4k` to `4k + 3`, the first in
/// the two most significant bits.
pub open spec fn packed_byte(values: Seq<Option<bool>>, k: int) -> int {
    pair_of(entry_or_absent(values, 4 * k)) * 64 + pair_of(entry_or_absent(values, 4 * k + 1)) * 16
        + pair_of(entry_or_absent(values, 4 * k + 2)) * 4 + pair_of(
        entry_or_absent(values, 4 * k + 3),
    )
}

/// The packed form of the entries: four to a byte, the last byte filled
/// up with absent entries.
pub open spec fn packed(values: Seq<Option<bool>>) -> Seq<u8> {
    Seq::new(((values.len() + 3) / 4) as nat, |k: int| packed_byte(values, k) as u8)
}

/// The two bits of entry `i` of a byte, counted from the most significant.
pub open spec fn pair_in(byte: u8, i: int) -> int {
    if i == 0 {
        byte as int / 64
    } else if i == 1 {
        byte as int / 16 % 4
    } else if i == 2 {
        byte as int / 4 % 4
    } else {
        byte as int % 4
    }
}

/// The entries that packed bytes hold: four for every byte.
pub open spec fn unpacked(raw: Seq<u8>) -> Seq<Option<bool>> {
    Seq::new(4 * raw.len(), |j: int| value_of_pair(pair_in(raw[j / 4], j % 4)))
}

/// Packing round trip. Unpacking the packed form of some entries gives
/// those entries back, followed by absent entries up to the next multiple
/// of four; for a multiple of four entries it gives exactly those entries.
pub proof fn lemma_packing_round_trip(values: Seq<Option<bool>>)
    ensures
        unpacked(packed(values)).len() == 4 * ((values.len() + 3) / 4),
        forall|j: int|
            0 <= j < unpacked(packed(values)).len() ==> #[trigger] unpacked(packed(values))[j]
                == entry_or_absent(values, j),
        values.len() % 4 == 0 ==> unpacked(packed(values)) == values,
{
    let raw = packed(values);
    let back = unpacked(raw);
    assert forall|j: int| 0 <= j < back.len() implies #[trigger] back[j] == entry_or_absent(
        values,
        j,
    ) by {
        let k = j / 4;
        let a = pair_of(entry_or_absent(values, 4 * k));
        let b = pair_of(entry_or_absent(values, 4 * k + 1));
        let c = pair_of(entry_or_absent(values, 4 * k + 2));
        let d = pair_of(entry_or_absent(values, 4 * k + 3));
        assert(raw[k] as int == a * 64 + b * 16 + c * 4 + d);
        assert(value_of_pair(pair_of(entry_or_absent(values, j))) == entry_or_absent(values, j));
    }
    if values.len() % 4 == 0 {
        assert(back =~= values);
    }
}

/// Packs optional booleans: two bits to an entry, four entries to a byte,
/// the first entry in the most significant bits.
pub fn serialize_bools(values: &Vec<Option<bool>>) -> (buf: Vec<u8>)
    ensures
        buf@ == packed(values@),
{
    let count = values.len();
    let bytes = count / 4 + (if count % 4 == 0 { 0 } else { 1 });
    let mut buf: Vec<u8> = Vec::new();
    let mut k: usize = 0;
    while k < bytes
        invariant
            k <= bytes,
            count == values@.len(),
            bytes == (count + 3) / 4,
            buf@.len() == k,
            forall|j: int| 0 <= j < k ==> #[trigger] buf@[j] == packed_byte(values@, j) as u8,
        decreases bytes - k,
    {
        let mut byte: u8 = 0;
        let mut i: usize = 0;
        let base = 4 * k;
        while i < 4
            invariant
                i <= 4,
                base == 4 * k,
                base + 3 < count + 4,
                count == values@.len(),
                i == 0 ==> byte == 0,
                i == 1 ==> byte as int == pair_of(entry_or_absent(values@, base as int)),
                i == 2 ==> byte as int == pair_of(entry_or_absent(values@, base as int)) * 4
                    + pair_of(entry_or_absent(values@, base + 1)),
                i == 3 ==> byte as int == pair_of(entry_or_absent(values@, base as int)) * 16
                    + pair_of(entry_or_absent(values@, base + 1)) * 4 + pair_of(
                    entry_or_absent(values@, base + 2),
                ),
                i == 4 ==> byte as int == packed_byte(values@, k as int),
            decreases 4 - i,
        {
            let pair: u8 = if base + i < count {
                match values[base + i] {
                    Some(true) => 3,
                    Some(false) => 2,
                    None => 0,
                }
            } else {
                0
            };
            byte = byte * 4 + pair;
            i += 1;
        }
        buf.push(byte);
        k += 1;
    }
    assert(buf@ =~= packed(values@));
    buf
}

/// Unpacks optional booleans: four entries for every byte.
pub fn deserialize_1(raw: &[u8]) -> (values: Vec<Option<bool>>)
    ensures
        values@ == unpacked(raw@),
{
    let mut values: Vec<Option<bool>> = Vec::new();
    let mut k: usize = 0;
    while k < raw.len()
        invariant
            k <= raw@.len(),
            values@.len() == 4 * k,
            forall|j: int|
                0 <= j < 4 * k ==> #[trigger] values@[j] == value_of_pair(
                    pair_in(raw@[j / 4], j % 4),
                ),
        decreases raw.len() - k,
    {
        let byte = raw[k];
        values.push(entry_of_pair(byte / 64));
        values.push(entry_of_pair(byte / 16 % 4));
        values.push(entry_of_pair(byte / 4 % 4));
        values.push(entry_of_pair(byte % 4));
        k += 1;
    }
    assert(values@ =~= unpacked(raw@));
    values
}

/// The entry that two bits stand for.
pub fn entry_of_pair(pair: u8) -> (value: Option<bool>)
    ensures
        value == value_of_pair(pair as int),
{
    if pair == 3 {
        Some(true)
    } else if pair == 2 {
        Some(false)
    } else {
        None
    }
}

/// Unpacks optional booleans: four entries for every byte.
pub fn deserialize_bools(raw: &[u8]) -> (values: Vec<Option<bool>>)
    ensures
        values@ == unpacked(raw@),
{
    deserialize_1(raw)
}

/// The nine bytes of an optional float: 1 and the bits of the float, least
/// significant byte first, or nine zero bytes for an absent one.
pub open spec fn float_record(value: Option<u64>) -> Seq<u8> {
    match value {
        Some(bits) => seq![1u8] + u64_le(bits as int),
        None => seq![0u8] + u64_le(0),
    }
}

/// The records of the first `k` optional floats, one after the other.
pub open spec fn float_records(values: Seq<Option<u64>>, k: int) -> Seq<u8>
    decreases k,
{
    if k <= 0 {
        Seq::empty()
    } else {
        float_records(values, k - 1) + float_record(values[k - 1])
    }
}

/// The optional float that a record of nine bytes holds: absent for a first byte of 0.
pub open spec fn float_of_record(record: Seq<u8>) -> Option<u64> {
    if record[0] == 0 {
        None
    } else {
        Some(le_u64(record.skip(1)) as u64)
    }
}

/// The optional floats that records hold: one for every nine bytes.
pub open spec fn floats_of(raw: Seq<u8>) -> Seq<Option<u64>> {
    Seq::new(raw.len() / 9, |k: int| float_of_record(raw.subrange(9 * k, 9 * k + 9)))
}

/// Packs optional floats, given by their bits: nine bytes to an entry.
pub fn serialize_floats(values: &Vec<Option<u64>>) -> (buf: Vec<u8>)
    ensures
        buf@ == float_records(values@, values@.len() as int),
{
    let mut buf: Vec<u8> = Vec::new();
    let mut k: usize = 0;
    while k < values.len()
        invariant
            k <= values@.len(),
            buf@ == float_records(values@, k as int),
        decreases values.len() - k,
    {
        let ghost before = buf@;
        match values[k] {
            Some(bits) => {
                buf.push(1);
                push_u64_le(&mut buf, bits);
            },
            None => {
                buf.push(0);
                push_u64_le(&mut buf, 0);
            },
        }
        assert(buf@ =~= before + float_record(values@[k as int]));
        k += 1;
    }
    buf
}

/// Unpacks optional floats: one for every nine bytes; a trailing partial
/// record is left out.
pub fn deserialize_floats(raw: &[u8]) -> (values: Vec<Option<u64>>)
    ensures
        values@ == floats_of(raw@),
{
    let total = raw.len();
    let count = total / 9;
    let mut values: Vec<Option<u64>> = Vec::new();
    let mut k: usize = 0;
    while k < count
        invariant
            k <= count,
            total == raw@.len(),
            count == total / 9,
            values@ == floats_of(raw@).take(k as int),
        decreases count - k,
    {
        let record = vstd::slice::slice_subrange(raw, 9 * k, 9 * k + 9);
        let value = if record[0] == 0 {
            None
        } else {
            let field = vstd::slice::slice_subrange(record, 1, 9);
            assert(field@ =~= record@.skip(1));
            Some(read_u64_le(field))
        };
        values.push(value);
        assert(values@ =~= floats_of(raw@).take(k as int + 1));
        k += 1;
    }
    assert(floats_of(raw@).take(count as int) =~= floats_of(raw@));
    values
}

} // verus!
