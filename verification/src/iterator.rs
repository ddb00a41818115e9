//! The read-only cursor over a shared, immutable block: forward iteration
//! and binary-search positioning.

use std::sync::Arc;
use vstd::prelude::*;

use crate::block::Block;
use crate::layout;
use crate::order;

verus! {

/// A cursor over one entry of a shared [`Block`]. Many iterators may coexist
/// over one block: no operation ever mutates it.
pub struct BlockIterator {
    /// The underlying block, shared and never mutated.
    pub block: Arc<Block>,
    /// The current entry's key; empty means the iterator is invalid.
    pub current_key: Vec<u8>,
    /// The half-open byte range of the current entry's value in the block's
    /// data segment.
    pub value_range: (usize, usize),
    /// The index of the current entry.
    pub idx: usize,
    /// The first key in the block.
    pub first_key: Vec<u8>,
}

impl BlockIterator {
    /// How many entries the underlying block holds.
    pub open spec fn num_entries(&self) -> int {
        self.block.num_entries()
    }

    /// The key of entry `i` of the underlying block.
    pub open spec fn key_of(&self, i: int) -> Seq<u8> {
        self.block.key_of(i)
    }

    /// The value of entry `i` of the underlying block.
    pub open spec fn value_of(&self, i: int) -> Seq<u8> {
        self.block.value_of(i)
    }

    /// The iterator is valid: it stands on an entry. An empty current key is
    /// the invalid sentinel, which a stored key never is, keys being
    /// non-empty in a well-formed block.
    pub open spec fn valid(&self) -> bool {
        self.current_key@.len() > 0
    }

    /// The cursor fields describe entry `i` exactly.
    pub open spec fn positioned_at(&self, i: int) -> bool {
        &&& 0 <= i < self.num_entries()
        &&& self.idx == i
        &&& self.current_key@ == self.key_of(i)
        &&& self.value_range.0 == layout::value_start_at(
            self.block.data@,
            layout::nth_off(self.block.offsets@, i),
        )
        &&& self.value_range.1 == layout::entry_end(
            self.block.data@,
            layout::nth_off(self.block.offsets@, i),
        )
    }

    /// The part of the invariant that concerns only the underlying block:
    /// it is well formed, holds at least one entry, and the cached first
    /// key is its first entry's key.
    pub open spec fn block_inv(&self) -> bool {
        &&& self.block.wf()
        &&& self.num_entries() >= 1
        &&& self.first_key@ == self.key_of(0)
    }

    /// The iterator invariant: the block part above, `idx` in range, a valid
    /// iterator standing exactly on entry `idx`, and an invalid one
    /// terminal — advancing can never bring it back onto an entry.
    pub open spec fn inv(&self) -> bool {
        &&& self.block_inv()
        &&& (self.idx as int) < self.num_entries()
        &&& (self.valid() ==> self.positioned_at(self.idx as int))
        &&& (!self.valid() ==> self.idx as int + 1 >= self.num_entries())
    }

    /// Entry `i` is the first whose key is at least `target`.
    pub open spec fn lands_on_first_at_least(&self, target: Seq<u8>, i: int) -> bool {
        &&& 0 <= i < self.num_entries()
        &&& order::key_le(target, self.key_of(i))
        &&& forall|j: int| 0 <= j < i ==> order::key_lt(#[trigger] self.key_of(j), target)
    }

    fn new(block: Arc<Block>) -> (r: Self)
        requires
            block.wf(),
            block.num_entries() >= 1,
        ensures
            r.block_inv(),
            r.block == block,
            !r.valid(),
            r.idx == 0,
    {
        proof {
            assert(layout::entry_fits(block.data@, layout::nth_off(block.offsets@, 0)));
        }
        let off0 = block.offsets[0];
        let first_key = read_key_at(&*block, off0 as usize);
        BlockIterator {
            block,
            current_key: Vec::new(),
            value_range: (0, 0),
            idx: 0,
            first_key,
        }
    }

    /// Creates a block iterator positioned on the first entry.
    pub fn create_and_seek_to_first(block: Arc<Block>) -> (r: Self)
        requires
            block.wf(),
            block.num_entries() >= 1,
        ensures
            r.inv(),
            r.block == block,
            r.positioned_at(0),
    {
        let mut iterator = BlockIterator::new(block);
        iterator.seek_to_first();
        iterator
    }

    /// Returns the current entry's key.
    pub fn key(&self) -> (r: &[u8])
        requires
            self.inv(),
            self.valid(),
        ensures
            r@ == self.key_of(self.idx as int),
    {
        self.current_key.as_slice()
    }

    /// Returns the current entry's value, as a view into the block's data
    /// segment.
    pub fn value(&self) -> (r: &[u8])
        requires
            self.inv(),
            self.valid(),
        ensures
            r@ == self.value_of(self.idx as int),
    {
        proof {
            assert(layout::entry_fits(
                self.block.data@,
                layout::nth_off(self.block.offsets@, self.idx as int),
            ));
        }
        vstd::slice::slice_subrange(
            self.block.data.as_slice(),
            self.value_range.0,
            self.value_range.1,
        )
    }

    /// True iff the iterator stands on an entry.
    pub fn is_valid(&self) -> (r: bool)
        ensures
            r == self.valid(),
    {
        self.current_key.len() > 0
    }

    /// Positions the iterator on the first entry of the block.
    pub fn seek_to_first(&mut self)
        requires
            old(self).block_inv(),
        ensures
            final(self).inv(),
            final(self).block == old(self).block,
            final(self).first_key == old(self).first_key,
            final(self).positioned_at(0),
    {
        self.seek_to_key_with_index(0);
    }

    /// Decodes the entry beginning at `start_offset`: reads the key length,
    /// copies the key, reads the value length, and records the value's byte
    /// range. A single probe, independent of every other entry.
    fn seek_to_key_with_offset(&mut self, start_offset: usize)
        requires
            old(self).block_inv(),
            layout::entry_fits(old(self).block.data@, start_offset as int),
        ensures
            final(self).block == old(self).block,
            final(self).first_key == old(self).first_key,
            final(self).idx == old(self).idx,
            final(self).current_key@ == layout::key_at(old(self).block.data@, start_offset as int),
            final(self).value_range.0 == layout::value_start_at(
                old(self).block.data@,
                start_offset as int,
            ),
            final(self).value_range.1 == layout::entry_end(
                old(self).block.data@,
                start_offset as int,
            ),
    {
        let key_len = read_u16_at(&self.block.data, start_offset) as usize;
        let key_len_end = start_offset + 2;
        let key_end = key_len_end + key_len;
        self.current_key = vstd::slice::slice_to_vec(
            vstd::slice::slice_subrange(self.block.data.as_slice(), key_len_end, key_end),
        );
        let value_length = read_u16_at(&self.block.data, key_end) as usize;
        let value_length_end = key_end + 2;
        self.value_range = (value_length_end, value_length_end + value_length);
    }

    /// Positions the iterator on entry `index`, or invalidates it when
    /// `index` is past the last entry.
    fn seek_to_key_with_index(&mut self, index: usize)
        requires
            old(self).block_inv(),
            index as int >= old(self).num_entries() ==> (old(self).idx as int) < old(
                self,
            ).num_entries() && old(self).idx as int + 1 >= old(self).num_entries(),
        ensures
            final(self).inv(),
            final(self).block == old(self).block,
            final(self).first_key == old(self).first_key,
            (index as int) < old(self).num_entries() ==> final(self).positioned_at(index as int)
                && final(self).valid(),
            index as int >= old(self).num_entries() ==> !final(self).valid() && final(self).idx
                == old(self).idx,
    {
        if index >= self.block.offsets.len() {
            self.current_key.clear();
            self.value_range = (0, 0);
            return ;
        }
        self.idx = index;
        let offset = self.block.offsets[index];
        proof {
            assert(layout::entry_fits(
                self.block.data@,
                layout::nth_off(self.block.offsets@, index as int),
            ));
            assert(layout::key_len_at(
                self.block.data@,
                layout::nth_off(self.block.offsets@, index as int),
            ) >= 1);
        }
        self.seek_to_key_with_offset(offset as usize);
    }

    /// Advances to the next entry; past the last entry the iterator becomes
    /// invalid, and stays so: repeated calls never make it valid again.
    pub fn next(&mut self)
        requires
            old(self).inv(),
        ensures
            final(self).inv(),
            final(self).block == old(self).block,
            final(self).first_key == old(self).first_key,
            old(self).valid() && old(self).idx as int + 1 < old(self).num_entries() ==> final(self).positioned_at(old(self).idx as int + 1),
            old(self).valid() && old(self).idx as int + 1 >= old(self).num_entries() ==> !final(self).valid(),
            !old(self).valid() ==> !final(self).valid(),
    {
        let i = self.idx + 1;
        self.seek_to_key_with_index(i);
    }

    /// Runs the lower-bound seek and reports how many entries the binary
    /// search decoded and compared. The bound in the contract is the
    /// search's cost guarantee: over `n` entries it probes at most
    /// `ceil(log2(n + 1))` of them.
    #[verifier::spinoff_prover]
    #[verifier::rlimit(100)]
    pub fn seek_to_key_probed(&mut self, key: &[u8]) -> (probes: usize)
        requires
            old(self).block_inv(),
            (old(self).idx as int) < old(self).num_entries(),
            old(self).block.sorted(),
        ensures
            final(self).inv(),
            final(self).block == old(self).block,
            final(self).first_key == old(self).first_key,
            final(self).valid() ==> final(self).lands_on_first_at_least(
                key@,
                final(self).idx as int,
            ),
            !final(self).valid() ==> (forall|i: int|
                0 <= i < old(self).num_entries() ==> order::key_lt(
                    #[trigger] old(self).key_of(i),
                    key@,
                )),
            (exists|i: int|
                0 <= i < old(self).num_entries() && order::key_le(
                    key@,
                    #[trigger] old(self).key_of(i),
                )) ==> final(self).valid(),
            probes as int <= log2_ceil(old(self).num_entries() + 1),
    {
        let ghost blk = old(self).block;
        let n = self.block.offsets.len();
        let mut low: usize = 0;
        let mut high: usize = n;
        let mut probes: usize = 0;
        proof {
            lemma_log2_ceil_nonneg(n as int + 1);
        }
        while low < high
            invariant
                self.block_inv(),
                self.block == blk,
                blk == old(self).block,
                self.first_key == old(self).first_key,
                blk.sorted(),
                n as int == blk.num_entries(),
                low <= high <= n,
                (self.idx as int) < n as int,
                forall|j: int| 0 <= j < low ==> order::key_lt(#[trigger] blk.key_of(j), key@),
                forall|j: int| high <= j < n ==> order::key_le(key@, #[trigger] blk.key_of(j)),
                low == n ==> self.idx as int + 1 == n as int,
                probes as int + log2_ceil(high - low + 1) <= log2_ceil(n as int + 1),
            decreases high - low,
        {
            let mid = low + (high - low) / 2;
            let ghost s = high as int - low as int;
            self.seek_to_key_with_index(mid);
            proof {
                assert(self.positioned_at(mid as int));
                assert(self.current_key@ == blk.key_of(mid as int));
                assert(mid as int == low as int + s / 2);
                lemma_log2_ceil_nonneg((s + 2) / 2);
                lemma_log2_ceil_linear(n as int + 1);
                assert(log2_ceil(s + 1) == 1 + log2_ceil((s + 2) / 2));
                assert(probes as int <= n as int);
            }
            probes = probes + 1;
            match order::compare_keys(self.current_key.as_slice(), key) {
                order::KeyOrdering::Less => {
                    proof {
                        assert forall|j: int| 0 <= j < mid + 1 implies order::key_lt(
                            #[trigger] blk.key_of(j),
                            key@,
                        ) by {
                            if j < mid {
                                assert(order::key_lt(blk.key_of(j), blk.key_of(mid as int)));
                                order::lemma_key_lt_trans(
                                    blk.key_of(j),
                                    blk.key_of(mid as int),
                                    key@,
                                );
                            }
                        }
                        assert(probes as int + log2_ceil((high - mid - 1) + 1) <= log2_ceil(
                            n as int + 1,
                        )) by {
                            lemma_log2_ceil_halving(s);
                            assert(high as int - (mid as int + 1) == s - s / 2 - 1);
                        }
                    }
                    low = mid + 1;
                }
                order::KeyOrdering::Greater => {
                    proof {
                        assert forall|j: int| mid <= j < n implies order::key_le(
                            key@,
                            #[trigger] blk.key_of(j),
                        ) by {
                            if j > mid {
                                assert(order::key_lt(blk.key_of(mid as int), blk.key_of(j)));
                                order::lemma_key_lt_trans(
                                    key@,
                                    blk.key_of(mid as int),
                                    blk.key_of(j),
                                );
                            }
                        }
                        assert(probes as int + log2_ceil((mid - low) + 1) <= log2_ceil(
                            n as int + 1,
                        )) by {
                            lemma_log2_ceil_halving(s);
                            assert(mid as int - low as int == s / 2);
                        }
                    }
                    high = mid;
                }
                order::KeyOrdering::Equal => {
                    proof {
                        assert(blk.key_of(mid as int) == key@);
                        assert forall|j: int| 0 <= j < mid implies order::key_lt(
                            #[trigger] blk.key_of(j),
                            key@,
                        ) by {
                            assert(order::key_lt(blk.key_of(j), blk.key_of(mid as int)));
                        }
                        assert(self.lands_on_first_at_least(key@, mid as int));
                    }
                    return probes;
                }
            }
        }
        proof {
            lemma_log2_ceil_nonneg(high - low + 1);
            if low < n {
                assert(order::key_le(key@, blk.key_of(low as int)));
            } else {
                assert forall|i: int| 0 <= i < n implies !order::key_le(
                    key@,
                    #[trigger] blk.key_of(i),
                ) by {
                    assert(order::key_lt(blk.key_of(i), key@));
                    order::lemma_key_trichotomy(key@, blk.key_of(i));
                }
            }
        }
        self.seek_to_key_with_index(low);
        probes
    }

    /// Positions the iterator on the first entry whose key is at least
    /// `key`, or invalidates it when every stored key is smaller. Assumes,
    /// as the caller guaranteed while adding, that the block's keys are
    /// sorted.
    pub fn seek_to_key(&mut self, key: &[u8])
        requires
            old(self).inv(),
            old(self).block.sorted(),
        ensures
            final(self).inv(),
            final(self).block == old(self).block,
            final(self).first_key == old(self).first_key,
            final(self).valid() ==> final(self).lands_on_first_at_least(
                key@,
                final(self).idx as int,
            ),
            !final(self).valid() ==> (forall|i: int|
                0 <= i < old(self).num_entries() ==> order::key_lt(
                    #[trigger] old(self).key_of(i),
                    key@,
                )),
            (exists|i: int|
                0 <= i < old(self).num_entries() && order::key_le(
                    key@,
                    #[trigger] old(self).key_of(i),
                )) ==> final(self).valid(),
    {
        self.seek_to_key_probed(key);
    }

    /// Creates a block iterator positioned on the first entry whose key is
    /// at least `key`, invalid when there is none.
    pub fn create_and_seek_to_key(block: Arc<Block>, key: &[u8]) -> (r: Self)
        requires
            block.wf(),
            block.num_entries() >= 1,
            block.sorted(),
        ensures
            r.inv(),
            r.block == block,
            r.valid() ==> r.lands_on_first_at_least(key@, r.idx as int),
            !r.valid() ==> (forall|i: int|
                0 <= i < block.num_entries() ==> order::key_lt(#[trigger] block.key_of(i), key@)),
            (exists|i: int|
                0 <= i < block.num_entries() && order::key_le(key@, #[trigger] block.key_of(i)))
                ==> r.valid(),
    {
        let mut iterator = BlockIterator::new(block);
        let ghost pre = iterator;
        iterator.seek_to_key_probed(key);
        proof {
            assert forall|i: int| 0 <= i < block.num_entries() implies pre.key_of(i)
                == #[trigger] block.key_of(i) by {}
        }
        iterator
    }
}

/// `ceil(log2(n))`: the number of times a span of `n` slots can be halved
/// before it closes.
pub open spec fn log2_ceil(n: int) -> int
    decreases n,
{
    if n <= 1 {
        0
    } else {
        1 + log2_ceil((n + 1) / 2)
    }
}

/// `log2_ceil` is never negative.
pub proof fn lemma_log2_ceil_nonneg(n: int)
    ensures
        log2_ceil(n) >= 0,
    decreases n,
{
    if n > 1 {
        lemma_log2_ceil_nonneg((n + 1) / 2);
    }
}

/// `log2_ceil` is monotone.
pub proof fn lemma_log2_ceil_mono(a: int, b: int)
    requires
        a <= b,
    ensures
        log2_ceil(a) <= log2_ceil(b),
    decreases b,
{
    if a <= 1 {
        lemma_log2_ceil_nonneg(b);
    } else {
        lemma_log2_ceil_mono((a + 1) / 2, (b + 1) / 2);
    }
}

/// `log2_ceil(n)` is at most `n` for non-negative `n`.
pub proof fn lemma_log2_ceil_linear(n: int)
    requires
        n >= 0,
    ensures
        log2_ceil(n) <= n,
    decreases n,
{
    if n > 1 {
        lemma_log2_ceil_linear((n + 1) / 2);
    }
}

/// One halving step of a span of `s` slots eats one unit of the
/// `log2_ceil` budget, whichever half the search keeps.
pub proof fn lemma_log2_ceil_halving(s: int)
    requires
        s >= 1,
    ensures
        log2_ceil(s / 2 + 1) <= log2_ceil(s + 1) - 1,
        log2_ceil((s - s / 2 - 1) + 1) <= log2_ceil(s + 1) - 1,
{
    assert(log2_ceil(s + 1) == 1 + log2_ceil((s + 2) / 2));
    lemma_log2_ceil_mono(s / 2 + 1, (s + 2) / 2);
    lemma_log2_ceil_mono(s - s / 2, (s + 2) / 2);
}

/// Reads the 16-bit big-endian integer at byte `off` of `data`.
fn read_u16_at(data: &Vec<u8>, off: usize) -> (r: u16)
    requires
        off + 1 < data@.len(),
    ensures
        r == layout::u16_of(data@[off as int], data@[off as int + 1]),
{
    let len = data.len();
    proof {
        assert(off + 1 < len);
    }
    let hi = data[off];
    let lo = data[off + 1];
    (hi as u16) * 256 + (lo as u16)
}

/// Copies the key of the entry beginning at byte `off` of the block's data.
fn read_key_at(block: &Block, off: usize) -> (r: Vec<u8>)
    requires
        layout::entry_fits(block.data@, off as int),
    ensures
        r@ == layout::key_at(block.data@, off as int),
{
    let dlen = block.data.len();
    let key_len = read_u16_at(&block.data, off) as usize;
    proof {
        assert(layout::entry_end(block.data@, off as int) >= off + 4 + key_len);
        assert(off + 2 + key_len <= dlen);
    }
    vstd::slice::slice_to_vec(
        vstd::slice::slice_subrange(block.data.as_slice(), off + 2, off + 2 + key_len),
    )
}

} // verus!
