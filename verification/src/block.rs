//! The block itself: an immutable container of concatenated entries plus a
//! parallel offset index, with the codec between that in-memory form and a
//! single contiguous byte sequence.

use vstd::prelude::*;

use crate::layout;
use crate::order;

verus! {

/// The smallest unit of read and caching in an LSM tree: an immutable,
/// sorted collection of key-value entries.
pub struct Block {
    /// All serialized key-value entries, back to back.
    pub data: Vec<u8>,
    /// The byte offset within `data` where each entry begins, one per entry.
    pub offsets: Vec<u16>,
}

impl Block {
    /// Every offset addresses a valid entry with a non-empty key, the
    /// entries tile `data` exactly, and the entry count fits the 16-bit
    /// count field.
    pub open spec fn wf(&self) -> bool {
        layout::block_wf(self.data@, self.offsets@)
    }

    /// How many entries the block holds.
    pub open spec fn num_entries(&self) -> int {
        self.offsets@.len() as int
    }

    /// The key of entry `i`.
    pub open spec fn key_of(&self, i: int) -> Seq<u8> {
        layout::nth_key(self.data@, self.offsets@, i)
    }

    /// The value of entry `i`.
    pub open spec fn value_of(&self, i: int) -> Seq<u8> {
        layout::nth_value(self.data@, self.offsets@, i)
    }

    /// The keys are strictly ascending. Keeping them so is the caller's
    /// responsibility when adding entries; the binary search relies on it.
    pub open spec fn sorted(&self) -> bool {
        forall|i: int, j: int|
            0 <= i < j < self.num_entries() ==> order::key_lt(
                #[trigger] self.key_of(i),
                #[trigger] self.key_of(j),
            )
    }

    /// Serializes the block as `data ++ offsets ++ count`. Always succeeds
    /// for a well-formed block.
    pub fn encode(&self) -> (r: Vec<u8>)
        requires
            self.offsets@.len() <= u16::MAX,
        ensures
            r@ == layout::block_encoding(self.data@, self.offsets@),
            r@.len() == self.data@.len() + 2 * self.offsets@.len() + 2,
    {
        let mut out: Vec<u8> = vstd::slice::slice_to_vec(self.data.as_slice());
        let n = self.offsets.len();
        let mut i: usize = 0;
        while i < n
            invariant
                n == self.offsets@.len(),
                i <= n,
                out@ == self.data@ + layout::offsets_bytes(self.offsets@.take(i as int)),
            decreases n - i,
        {
            let off = self.offsets[i];
            crate::push_u16_be(&mut out, off);
            proof {
                let pre = self.offsets@.take(i as int + 1);
                assert(pre.drop_last() =~= self.offsets@.take(i as int));
                assert(pre.last() == self.offsets@[i as int]);
                assert(out@ =~= self.data@ + layout::offsets_bytes(pre));
            }
            i += 1;
        }
        proof {
            assert(self.offsets@.take(n as int) =~= self.offsets@);
        }
        crate::push_u16_be(&mut out, n as u16);
        proof {
            assert(out@ =~= layout::block_encoding(self.data@, self.offsets@));
            layout::lemma_offsets_bytes_len(self.offsets@);
        }
        out
    }

    /// Rebuilds a block from its encoded wire form: the trailing 16 bits are
    /// the entry count, the `count * 2` bytes before them the offset index,
    /// and the remaining prefix the data segment. The caller guarantees the
    /// bytes were produced by `encode` or are otherwise well-formed.
    pub fn decode(bytes: &[u8]) -> (r: Block)
        requires
            layout::encoded_wf(bytes@),
        ensures
            r.data@ == layout::encoded_data(bytes@),
            r.offsets@ == layout::encoded_offsets(bytes@),
    {
        let len = bytes.len();
        let hi = bytes[len - 2];
        let lo = bytes[len - 1];
        let n: usize = (hi as usize) * 256 + (lo as usize);
        proof {
            assert(n == layout::encoded_count(bytes@));
        }
        let data_end = len - 2 - n * 2;
        let mut offsets: Vec<u16> = Vec::new();
        let mut i: usize = 0;
        while i < n
            invariant
                layout::encoded_wf(bytes@),
                n == layout::encoded_count(bytes@),
                len == bytes@.len(),
                data_end == layout::encoded_data_end(bytes@),
                i <= n,
                offsets@.len() == i,
                forall|j: int| 0 <= j < i ==> offsets@[j] == layout::encoded_offsets(bytes@)[j],
            decreases n - i,
        {
            let oh = bytes[data_end + i * 2];
            let ol = bytes[data_end + i * 2 + 1];
            let v: u16 = (oh as u16) * 256 + (ol as u16);
            offsets.push(v);
            i += 1;
        }
        let data = vstd::slice::slice_to_vec(vstd::slice::slice_subrange(bytes, 0, data_end));
        proof {
            assert(offsets@ =~= layout::encoded_offsets(bytes@));
            assert(data@ =~= layout::encoded_data(bytes@));
        }
        Block { data, offsets }
    }
}

} // verus!
