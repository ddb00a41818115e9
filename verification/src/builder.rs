//! The incremental builder that packs entries into a size-bounded block.

use vstd::prelude::*;

use crate::block::Block;
use crate::layout;
use crate::order;

verus! {

/// A write-once accumulator that appends entries while they respect a target
/// byte budget, then yields a finalized [`Block`].
pub struct BlockBuilder {
    /// Offsets of each key-value entry.
    pub offsets: Vec<u16>,
    /// All serialized key-value pairs in the block.
    pub data: Vec<u8>,
    /// The expected block size.
    pub block_size: usize,
    /// The first key in the block; empty while no entry has been added.
    pub first_key: Vec<u8>,
}

impl BlockBuilder {
    /// The size the block would occupy if finalized now: the count field,
    /// the offset index, and the data segment.
    pub open spec fn current_size(&self) -> int {
        2 + 2 * (self.offsets@.len() as int) + self.data@.len()
    }

    /// How many entries have been added.
    pub open spec fn num_entries(&self) -> int {
        self.offsets@.len() as int
    }

    /// The key of entry `i`.
    pub open spec fn key_of(&self, i: int) -> Seq<u8> {
        layout::nth_key(self.data@, self.offsets@, i)
    }

    /// The value of entry `i`.
    pub open spec fn value_of(&self, i: int) -> Seq<u8> {
        layout::nth_value(self.data@, self.offsets@, i)
    }

    /// The accumulated entries are well formed, `first_key` caches the first
    /// entry's key (empty exactly while no entry exists), and the budget
    /// check of `add` has been respected: once a second entry is in, the
    /// finalized size fits `block_size`, and a lone first entry — admitted
    /// regardless of the budget — is at most one maximal entry long.
    pub open spec fn wf(&self) -> bool {
        &&& layout::block_wf(self.data@, self.offsets@)
        &&& (self.num_entries() == 0 ==> self.first_key@.len() == 0)
        &&& (self.num_entries() > 0 ==> self.first_key@ == self.key_of(0))
        &&& (self.num_entries() >= 2 ==> self.current_size() <= self.block_size)
        &&& (self.num_entries() == 1 ==> self.data@.len() <= 4 + 2 * (u16::MAX as int))
    }

    /// The accumulated keys are strictly ascending. Keeping them so is the
    /// caller's responsibility: `add` does not check it.
    pub open spec fn sorted(&self) -> bool {
        forall|i: int, j: int|
            0 <= i < j < self.num_entries() ==> order::key_lt(
                #[trigger] self.key_of(i),
                #[trigger] self.key_of(j),
            )
    }

    /// The entry would keep the finalized size within the byte budget. Its
    /// cost is the key, the value, and three 16-bit words: the two length
    /// fields and one new offset.
    pub open spec fn entry_fits_budget(&self, key: Seq<u8>, value: Seq<u8>) -> bool {
        self.current_size() + key.len() + value.len() + 6 <= self.block_size
    }

    /// When `add` accepts: always for the first entry, so that a block is
    /// never left empty; afterwards only within the byte budget, and only
    /// while the new entry's byte offset still fits the 16-bit offset field.
    pub open spec fn add_accepted(&self, key: Seq<u8>, value: Seq<u8>) -> bool {
        ||| self.num_entries() == 0
        ||| (self.entry_fits_budget(key, value) && self.data@.len() <= u16::MAX)
    }

    /// Creates a builder for a block of the given target byte size.
    pub fn new(block_size: usize) -> (r: Self)
        ensures
            r.wf(),
            r.block_size == block_size,
            r.num_entries() == 0,
            r.data@.len() == 0,
    {
        Self { offsets: Vec::new(), data: Vec::new(), block_size, first_key: Vec::new() }
    }

    /// The first entry's key is non-empty once an entry exists.
    proof fn lemma_first_key_nonempty(&self)
        requires
            self.wf(),
            self.num_entries() > 0,
        ensures
            self.first_key@.len() >= 1,
    {
        let off = layout::nth_off(self.offsets@, 0);
        assert(layout::entry_fits(self.data@, off));
        assert(layout::key_len_at(self.data@, off) >= 1);
        assert(self.key_of(0).len() == layout::key_len_at(self.data@, off));
    }

    fn estimate_current_size(&self) -> (r: usize)
        requires
            self.wf(),
        ensures
            r == self.current_size(),
    {
        proof {
            layout::lemma_entry_count_bound(self.data@, self.offsets@);
        }
        2 + self.offsets.len() * 2 + self.data.len()
    }

    /// Appends a key-value pair. Returns false, leaving the builder
    /// untouched, when the block is full; the first entry is always
    /// accepted, whatever its size, so a block is never left empty.
    #[must_use]
    pub fn add(&mut self, key: &[u8], value: &[u8]) -> (r: bool)
        requires
            old(self).wf(),
            1 <= key@.len() <= u16::MAX,
            value@.len() <= u16::MAX,
        ensures
            final(self).wf(),
            final(self).block_size == old(self).block_size,
            r == old(self).add_accepted(key@, value@),
            r ==> final(self).data@ == old(self).data@ + layout::entry_bytes(key@, value@)
                && final(self).offsets@ == old(self).offsets@.push(old(self).data@.len() as u16)
                && final(self).num_entries() == old(self).num_entries() + 1 && final(self).key_of(
                old(self).num_entries(),
            ) == key@ && final(self).value_of(old(self).num_entries()) == value@ && (forall|i: int|
                0 <= i < old(self).num_entries() ==> final(self).key_of(i) == old(self).key_of(i)
                    && final(self).value_of(i) == old(self).value_of(i)),
            !r ==> final(self).data@ == old(self).data@ && final(self).offsets@ == old(
                self,
            ).offsets@ && final(self).first_key@ == old(self).first_key@,
    {
        let est = self.estimate_current_size();
        let extra = key.len() + value.len() + 6;
        let over_budget = if est > self.block_size {
            true
        } else {
            extra > self.block_size - est
        };
        let first = self.first_key.len() == 0;
        proof {
            if old(self).num_entries() > 0 {
                old(self).lemma_first_key_nonempty();
            }
        }
        if (over_budget || self.data.len() > 65535) && !first {
            return false;
        }
        proof {
            layout::lemma_entry_count_bound(self.data@, self.offsets@);
            layout::lemma_block_wf_after_add(self.data@, self.offsets@, key@, value@);
        }
        let off = self.data.len() as u16;
        self.offsets.push(off);
        let ghost data0 = self.data@;
        crate::push_u16_be(&mut self.data, key.len() as u16);
        crate::push_bytes(&mut self.data, key);
        crate::push_u16_be(&mut self.data, value.len() as u16);
        crate::push_bytes(&mut self.data, value);
        proof {
            assert(self.data@ =~= data0 + layout::entry_bytes(key@, value@));
        }
        if first {
            self.first_key = vstd::slice::slice_to_vec(key);
        }
        true
    }

    /// True iff no key-value pair has been added.
    pub fn is_empty(&self) -> (r: bool)
        ensures
            r == (self.num_entries() == 0),
    {
        self.offsets.len() == 0
    }

    /// Finalizes the accumulated entries, consuming the builder.
    pub fn build(self) -> (r: Block)
        requires
            self.wf(),
        ensures
            r.wf(),
            r.data@ == self.data@,
            r.offsets@ == self.offsets@,
            self.sorted() ==> r.sorted(),
    {
        let r = Block { data: self.data, offsets: self.offsets };
        proof {
            if self.sorted() {
                assert forall|i: int, j: int| 0 <= i < j < r.num_entries() implies order::key_lt(
                    #[trigger] r.key_of(i),
                    #[trigger] r.key_of(j),
                ) by {
                    assert(order::key_lt(self.key_of(i), self.key_of(j)));
                }
            }
        }
        r
    }
}

/// Keys appended in strictly ascending order keep the accumulated entries
/// sorted: the builder hands each new entry the next index, so the block
/// preserves the order in which entries were added. The hypotheses are
/// exactly what `add` ensures of an accepted entry whose key exceeds the
/// last one.
pub proof fn lemma_add_keeps_sorted(pre: BlockBuilder, post: BlockBuilder, key: Seq<u8>)
    requires
        pre.sorted(),
        post.num_entries() == pre.num_entries() + 1,
        post.key_of(pre.num_entries()) == key,
        forall|i: int| 0 <= i < pre.num_entries() ==> #[trigger] post.key_of(i) == pre.key_of(i),
        pre.num_entries() > 0 ==> order::key_lt(pre.key_of(pre.num_entries() - 1), key),
    ensures
        post.sorted(),
{
    let n = pre.num_entries();
    assert forall|i: int, j: int| 0 <= i < j < post.num_entries() implies order::key_lt(
        #[trigger] post.key_of(i),
        #[trigger] post.key_of(j),
    ) by {
        if j < n {
            assert(order::key_lt(pre.key_of(i), pre.key_of(j)));
        } else {
            if i < n - 1 {
                assert(order::key_lt(pre.key_of(i), pre.key_of(n - 1)));
                order::lemma_key_lt_trans(pre.key_of(i), pre.key_of(n - 1), key);
            }
        }
    }
}

} // verus!
