//! The mathematical model of the block's binary layout.
//!
//! An entry is `[key_len: u16][key][value_len: u16][value]`; a block's data
//! segment is the concatenation of its entries, indexed by a parallel array
//! of 16-bit byte offsets; the encoded wire form is
//! `data ++ offsets (2 bytes each) ++ count (2 bytes)`. All multi-byte
//! integers are big-endian.

use vstd::prelude::*;

verus! {

/// The high byte of `x` in big-endian order.
pub open spec fn u16_hi(x: u16) -> u8 {
    (x / 256) as u8
}

/// The low byte of `x` in big-endian order.
pub open spec fn u16_lo(x: u16) -> u8 {
    (x % 256) as u8
}

/// The two big-endian bytes of `x`.
pub open spec fn u16_be(x: u16) -> Seq<u8> {
    seq![u16_hi(x), u16_lo(x)]
}

/// The 16-bit value stored as big-endian bytes `hi`, `lo`.
pub open spec fn u16_of(hi: u8, lo: u8) -> u16 {
    (hi as u16 * 256 + lo as u16) as u16
}

/// Reading back the two big-endian bytes of `x` yields `x`.
pub proof fn lemma_u16_be_round_trip(x: u16)
    ensures
        u16_of(u16_hi(x), u16_lo(x)) == x,
{
    assert(x as int == (x as int / 256) * 256 + (x as int % 256)) by (nonlinear_arith);
}

/// The serialized bytes of one entry.
pub open spec fn entry_bytes(key: Seq<u8>, value: Seq<u8>) -> Seq<u8> {
    u16_be(key.len() as u16) + key + u16_be(value.len() as u16) + value
}

/// The key-length field of the entry starting at byte `off` of `data`.
pub open spec fn key_len_at(data: Seq<u8>, off: int) -> int {
    u16_of(data[off], data[off + 1]) as int
}

/// The key of the entry starting at byte `off` of `data`.
pub open spec fn key_at(data: Seq<u8>, off: int) -> Seq<u8> {
    data.subrange(off + 2, off + 2 + key_len_at(data, off))
}

/// The value-length field of the entry starting at byte `off` of `data`.
pub open spec fn value_len_at(data: Seq<u8>, off: int) -> int {
    u16_of(data[off + 2 + key_len_at(data, off)], data[off + 3 + key_len_at(data, off)]) as int
}

/// The byte where the value of the entry starting at `off` begins.
pub open spec fn value_start_at(data: Seq<u8>, off: int) -> int {
    off + 4 + key_len_at(data, off)
}

/// The byte just past the entry starting at `off`.
pub open spec fn entry_end(data: Seq<u8>, off: int) -> int {
    value_start_at(data, off) + value_len_at(data, off)
}

/// The value of the entry starting at byte `off` of `data`.
pub open spec fn value_at(data: Seq<u8>, off: int) -> Seq<u8> {
    data.subrange(value_start_at(data, off), entry_end(data, off))
}

/// The entry starting at `off` lies entirely within `data`, so every field
/// read it calls for is in range.
pub open spec fn entry_fits(data: Seq<u8>, off: int) -> bool {
    0 <= off && entry_end(data, off) <= data.len()
}

/// The byte offset of entry `i`, as a mathematical integer.
pub open spec fn nth_off(offsets: Seq<u16>, i: int) -> int {
    offsets[i] as int
}

/// The key of entry `i`.
pub open spec fn nth_key(data: Seq<u8>, offsets: Seq<u16>, i: int) -> Seq<u8> {
    key_at(data, nth_off(offsets, i))
}

/// The value of entry `i`.
pub open spec fn nth_value(data: Seq<u8>, offsets: Seq<u16>, i: int) -> Seq<u8> {
    value_at(data, nth_off(offsets, i))
}

/// Well-formedness of a block's data segment and offset index: each offset
/// addresses an entry that lies within `data` and carries a non-empty key,
/// entry `i + 1` begins exactly where entry `i` ends, the first entry begins
/// at byte 0, and the last entry ends exactly at the end of `data`.
pub open spec fn block_wf(data: Seq<u8>, offsets: Seq<u16>) -> bool {
    &&& offsets.len() <= u16::MAX
    &&& (offsets.len() == 0 ==> data.len() == 0)
    &&& (offsets.len() > 0 ==> nth_off(offsets, 0) == 0 && entry_end(
        data,
        nth_off(offsets, offsets.len() - 1),
    ) == data.len())
    &&& forall|i: int| 0 <= i < offsets.len() ==> entry_fits(data, #[trigger] nth_off(offsets, i))
    &&& forall|i: int|
        0 <= i < offsets.len() ==> key_len_at(data, #[trigger] nth_off(offsets, i)) >= 1
    &&& forall|i: int|
        0 <= i && i + 1 < offsets.len() ==> nth_off(offsets, i + 1) == entry_end(
            data,
            #[trigger] nth_off(offsets, i),
        )
}

/// In a well-formed block every entry takes at least 5 bytes, so entry `i`
/// cannot begin before byte `5 * i`.
pub proof fn lemma_nth_off_lower_bound(data: Seq<u8>, offsets: Seq<u16>, i: int)
    requires
        block_wf(data, offsets),
        0 <= i < offsets.len(),
    ensures
        nth_off(offsets, i) >= 5 * i,
    decreases i,
{
    if i > 0 {
        lemma_nth_off_lower_bound(data, offsets, i - 1);
        assert(nth_off(offsets, i) == entry_end(data, nth_off(offsets, i - 1)));
    }
}

/// A well-formed block holds at most `data.len() / 5` entries.
pub proof fn lemma_entry_count_bound(data: Seq<u8>, offsets: Seq<u16>)
    requires
        block_wf(data, offsets),
    ensures
        5 * offsets.len() <= data.len(),
{
    if offsets.len() > 0 {
        let last = offsets.len() - 1;
        lemma_nth_off_lower_bound(data, offsets, last);
        assert(entry_end(data, nth_off(offsets, last)) == data.len());
    }
}

/// Parsing the entry freshly appended at the end of `data` recovers exactly
/// the key and value it was written from.
pub proof fn lemma_entry_bytes_parse(data: Seq<u8>, key: Seq<u8>, value: Seq<u8>)
    requires
        1 <= key.len() <= u16::MAX,
        value.len() <= u16::MAX,
    ensures
        ({
            let d2 = data + entry_bytes(key, value);
            let off = data.len() as int;
            &&& key_len_at(d2, off) == key.len()
            &&& key_at(d2, off) == key
            &&& value_len_at(d2, off) == value.len()
            &&& value_at(d2, off) == value
            &&& entry_end(d2, off) == d2.len()
            &&& entry_fits(d2, off)
        }),
{
    let d2 = data + entry_bytes(key, value);
    let off = data.len() as int;
    let kl = key.len() as u16;
    let vl = value.len() as u16;
    assert(d2[off] == u16_hi(kl));
    assert(d2[off + 1] == u16_lo(kl));
    lemma_u16_be_round_trip(kl);
    assert(key_len_at(d2, off) == key.len());
    assert(key_at(d2, off) =~= key);
    assert(d2[off + 2 + key.len()] == u16_hi(vl));
    assert(d2[off + 3 + key.len()] == u16_lo(vl));
    lemma_u16_be_round_trip(vl);
    assert(value_len_at(d2, off) == value.len());
    assert(value_at(d2, off) =~= value);
}

/// Extending `data` on the right does not change how the entry at `off`,
/// which lies entirely within the original `data`, is parsed.
pub proof fn lemma_entry_parse_stable(data: Seq<u8>, ext: Seq<u8>, off: int)
    requires
        entry_fits(data, off),
    ensures
        key_len_at(data + ext, off) == key_len_at(data, off),
        key_at(data + ext, off) == key_at(data, off),
        value_len_at(data + ext, off) == value_len_at(data, off),
        value_at(data + ext, off) == value_at(data, off),
        entry_end(data + ext, off) == entry_end(data, off),
        entry_fits(data + ext, off),
{
    let d2 = data + ext;
    assert(d2[off] == data[off]);
    assert(d2[off + 1] == data[off + 1]);
    assert(key_len_at(d2, off) == key_len_at(data, off));
    assert(d2[off + 2 + key_len_at(data, off)] == data[off + 2 + key_len_at(data, off)]);
    assert(d2[off + 3 + key_len_at(data, off)] == data[off + 3 + key_len_at(data, off)]);
    assert(key_at(d2, off) =~= key_at(data, off));
    assert(value_at(d2, off) =~= value_at(data, off));
}

/// Entries are kept in the order they were appended: writing one more entry
/// at the end of a well-formed block extends its entry sequence by exactly
/// that key-value pair and leaves every earlier entry unchanged.
#[verifier::spinoff_prover]
#[verifier::rlimit(100)]
pub proof fn lemma_block_wf_after_add(data: Seq<u8>, offsets: Seq<u16>, key: Seq<u8>, value: Seq<u8>)
    requires
        block_wf(data, offsets),
        1 <= key.len() <= u16::MAX,
        value.len() <= u16::MAX,
        data.len() <= u16::MAX,
        offsets.len() < u16::MAX,
    ensures
        ({
            let d2 = data + entry_bytes(key, value);
            let o2 = offsets.push(data.len() as u16);
            &&& block_wf(d2, o2)
            &&& o2.len() == offsets.len() + 1
            &&& nth_key(d2, o2, offsets.len() as int) == key
            &&& nth_value(d2, o2, offsets.len() as int) == value
            &&& forall|i: int|
                0 <= i < offsets.len() ==> nth_key(d2, o2, i) == nth_key(data, offsets, i)
                    && nth_value(d2, o2, i) == nth_value(data, offsets, i)
        }),
{
    let ext = entry_bytes(key, value);
    let d2 = data + ext;
    let o2 = offsets.push(data.len() as u16);
    let n = offsets.len() as int;
    lemma_entry_bytes_parse(data, key, value);
    assert(nth_off(o2, n) == data.len());
    assert forall|i: int| 0 <= i < n implies nth_off(o2, i) == nth_off(offsets, i) by {
        assert(o2[i] == offsets[i]);
    }
    assert forall|i: int| 0 <= i < n implies entry_fits(d2, #[trigger] nth_off(o2, i))
        && key_len_at(d2, nth_off(o2, i)) == key_len_at(data, nth_off(offsets, i)) && key_at(
        d2,
        nth_off(o2, i),
    ) == key_at(data, nth_off(offsets, i)) && value_at(d2, nth_off(o2, i)) == value_at(
        data,
        nth_off(offsets, i),
    ) && entry_end(d2, nth_off(o2, i)) == entry_end(data, nth_off(offsets, i)) by {
        assert(entry_fits(data, nth_off(offsets, i)));
        lemma_entry_parse_stable(data, ext, nth_off(offsets, i));
    }
    if n > 0 {
        assert(nth_off(o2, n) == entry_end(d2, nth_off(o2, n - 1)));
    }
    assert(o2.len() > 0 && nth_off(o2, 0) == 0) by {
        if n == 0 {
            assert(data.len() == 0);
        }
    }
    assert(entry_end(d2, nth_off(o2, o2.len() - 1)) == d2.len());
    assert forall|i: int| 0 <= i < o2.len() implies entry_fits(d2, #[trigger] nth_off(o2, i)) by {
        if i < n {
        } else {
            assert(entry_fits(d2, nth_off(o2, n)));
        }
    }
    assert forall|i: int| 0 <= i < o2.len() implies key_len_at(d2, #[trigger] nth_off(o2, i))
        >= 1 by {
        if i < n {
            assert(key_len_at(data, nth_off(offsets, i)) >= 1);
        } else {
            assert(key_len_at(d2, nth_off(o2, n)) == key.len());
        }
    }
    assert forall|i: int| 0 <= i && i + 1 < o2.len() implies nth_off(o2, i + 1) == entry_end(
        d2,
        #[trigger] nth_off(o2, i),
    ) by {
        if i + 1 < n {
            assert(nth_off(o2, i) == nth_off(offsets, i));
            assert(nth_off(o2, i + 1) == nth_off(offsets, i + 1));
            assert(nth_off(offsets, i + 1) == entry_end(data, nth_off(offsets, i)));
            assert(entry_end(d2, nth_off(o2, i)) == entry_end(data, nth_off(offsets, i)));
        } else {
            assert(i == n - 1);
            assert(nth_off(o2, i) == nth_off(offsets, i));
            assert(entry_end(data, nth_off(offsets, i)) == data.len());
            assert(entry_end(d2, nth_off(o2, i)) == entry_end(data, nth_off(offsets, i)));
            assert(nth_off(o2, i + 1) == data.len());
        }
    }
    assert(block_wf(d2, o2));
}

/// The offset index serialized as consecutive big-endian 16-bit values.
pub open spec fn offsets_bytes(offsets: Seq<u16>) -> Seq<u8>
    decreases offsets.len(),
{
    if offsets.len() == 0 {
        Seq::empty()
    } else {
        offsets_bytes(offsets.drop_last()) + u16_be(offsets.last())
    }
}

/// The encoded wire form of a block: `data ++ offsets ++ count`.
pub open spec fn block_encoding(data: Seq<u8>, offsets: Seq<u16>) -> Seq<u8> {
    data + offsets_bytes(offsets) + u16_be(offsets.len() as u16)
}

/// The entry count read back from the last two bytes of an encoded block.
pub open spec fn encoded_count(bytes: Seq<u8>) -> int {
    u16_of(bytes[bytes.len() - 2], bytes[bytes.len() - 1]) as int
}

/// The encoded bytes are long enough to hold the count field and the offset
/// array the count announces; every slice `decode` takes is then in range.
pub open spec fn encoded_wf(bytes: Seq<u8>) -> bool {
    &&& bytes.len() >= 2
    &&& 2 + 2 * encoded_count(bytes) <= bytes.len()
}

/// The byte where the data segment of an encoded block ends.
pub open spec fn encoded_data_end(bytes: Seq<u8>) -> int {
    bytes.len() - 2 - 2 * encoded_count(bytes)
}

/// The data segment recovered from an encoded block.
pub open spec fn encoded_data(bytes: Seq<u8>) -> Seq<u8> {
    bytes.subrange(0, encoded_data_end(bytes))
}

/// The offset index recovered from an encoded block.
pub open spec fn encoded_offsets(bytes: Seq<u8>) -> Seq<u16> {
    Seq::new(
        encoded_count(bytes) as nat,
        |i: int|
            u16_of(
                bytes[encoded_data_end(bytes) + 2 * i],
                bytes[encoded_data_end(bytes) + 2 * i + 1],
            ),
    )
}

/// The serialized offset index takes two bytes per offset.
pub proof fn lemma_offsets_bytes_len(offsets: Seq<u16>)
    ensures
        offsets_bytes(offsets).len() == 2 * offsets.len(),
    decreases offsets.len(),
{
    if offsets.len() > 0 {
        lemma_offsets_bytes_len(offsets.drop_last());
    }
}

/// Offset `i` occupies bytes `2 * i` and `2 * i + 1` of the serialized
/// offset index, in big-endian order.
pub proof fn lemma_offsets_bytes_index(offsets: Seq<u16>, i: int)
    requires
        0 <= i < offsets.len(),
    ensures
        offsets_bytes(offsets)[2 * i] == u16_hi(offsets[i]),
        offsets_bytes(offsets)[2 * i + 1] == u16_lo(offsets[i]),
    decreases offsets.len(),
{
    lemma_offsets_bytes_len(offsets.drop_last());
    if i == offsets.len() - 1 {
    } else {
        lemma_offsets_bytes_index(offsets.drop_last(), i);
    }
}

/// Round trip of the block codec: decoding the encoded wire form of any
/// data segment and offset index recovers both exactly.
pub proof fn lemma_encoding_round_trip(data: Seq<u8>, offsets: Seq<u16>)
    requires
        offsets.len() <= u16::MAX,
    ensures
        encoded_wf(block_encoding(data, offsets)),
        encoded_count(block_encoding(data, offsets)) == offsets.len(),
        encoded_data(block_encoding(data, offsets)) == data,
        encoded_offsets(block_encoding(data, offsets)) == offsets,
{
    let bytes = block_encoding(data, offsets);
    let cnt = offsets.len() as u16;
    lemma_offsets_bytes_len(offsets);
    assert(bytes.len() == data.len() + 2 * offsets.len() + 2);
    assert(bytes[bytes.len() - 2] == u16_hi(cnt));
    assert(bytes[bytes.len() - 1] == u16_lo(cnt));
    lemma_u16_be_round_trip(cnt);
    assert(encoded_count(bytes) == offsets.len());
    assert(encoded_data_end(bytes) == data.len());
    assert(encoded_data(bytes) =~= data);
    assert forall|i: int| 0 <= i < offsets.len() implies encoded_offsets(bytes)[i]
        == offsets[i] by {
        lemma_offsets_bytes_index(offsets, i);
        assert(bytes[data.len() + 2 * i] == offsets_bytes(offsets)[2 * i]);
        assert(bytes[data.len() + 2 * i + 1] == offsets_bytes(offsets)[2 * i + 1]);
        lemma_u16_be_round_trip(offsets[i]);
    }
    assert(encoded_offsets(bytes) =~= offsets);
}

} // verus!
