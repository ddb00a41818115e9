//! A sorted, size-bounded block of key-value entries: the smallest unit of
//! read, cache, and disk transfer in a log-structured-merge storage engine.
//!
//! The crate provides the block's binary codec ([`Block`]), the incremental
//! builder that packs entries into a size-bounded block, and a cursor with
//! sequential and binary-search positioned access.

use vstd::prelude::*;

pub mod block;
pub mod builder;
pub mod iterator;
pub mod layout;
pub mod order;

pub use block::Block;
pub use builder::BlockBuilder;
pub use iterator::BlockIterator;

verus! {

/// Writes `x` as two big-endian bytes onto the end of `out`.
pub fn push_u16_be(out: &mut Vec<u8>, x: u16)
    ensures
        final(out)@ == old(out)@ + layout::u16_be(x),
{
    out.push((x / 256) as u8);
    out.push((x % 256) as u8);
}

/// Appends the bytes of `src` to `dst`.
pub fn push_bytes(dst: &mut Vec<u8>, src: &[u8])
    ensures
        final(dst)@ == old(dst)@ + src@,
{
    let mut i: usize = 0;
    while i < src.len()
        invariant
            i <= src@.len(),
            dst@ == old(dst)@ + src@.take(i as int),
        decreases src@.len() - i,
    {
        dst.push(src[i]);
        proof {
            assert(old(dst)@ + src@.take(i as int) + seq![src@[i as int]] =~= old(dst)@ + src@.take(
                i as int + 1,
            ));
        }
        i += 1;
    }
    proof {
        assert(old(dst)@ + src@.take(src@.len() as int) =~= old(dst)@ + src@);
    }
}

} // verus!
