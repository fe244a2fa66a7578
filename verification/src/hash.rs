//! Key hash: a multiply-xor block mix over the key bytes, eight bytes at
//! a time with a byte-wise tail. Equal keys always hash equal because the
//! result is a function of the bytes alone; the exact value is pinned by
//! `hash_spec`.

use vstd::prelude::*;

verus! {

/// The multiplier that mixes each block into the state.
pub const HASH_PRIME: u64 = 0x517cc1b727220a95;

/// One mixing step: fold a block into the state.
pub open spec fn mix(state: u64, block: u64) -> u64 {
    (block ^ state).wrapping_mul(HASH_PRIME)
}

/// Eight bytes starting at `i`, read as a little-endian word.
pub open spec fn block_at(s: Seq<u8>, i: int) -> u64 {
    (s[i] as u64) | ((s[i + 1] as u64) << 8) | ((s[i + 2] as u64) << 16) | ((s[i + 3] as u64)
        << 24) | ((s[i + 4] as u64) << 32) | ((s[i + 5] as u64) << 40) | ((s[i + 6] as u64) << 48)
        | ((s[i + 7] as u64) << 56)
}

/// The state after mixing in the bytes from `i` on: whole blocks first,
/// then the remaining bytes one at a time.
pub open spec fn hash_from(state: u64, s: Seq<u8>, i: int) -> u64
    decreases s.len() - i when 0 <= i <= s.len()
{
    if s.len() - i >= 8 {
        hash_from(mix(state, block_at(s, i)), s, i + 8)
    } else if i < s.len() {
        hash_from(mix(state, s[i] as u64), s, i + 1)
    } else {
        state
    }
}

/// The hash of a key: all its bytes mixed into a zero state.
pub open spec fn hash_spec(s: Seq<u8>) -> u64 {
    hash_from(0, s, 0)
}

/// Hashes a key; the result depends on the bytes alone.
pub fn hash_bytes(bytes: &[u8]) -> (h: u64)
    ensures
        h == hash_spec(bytes@),
{
    let n = bytes.len();
    let mut state: u64 = 0;
    let mut i: usize = 0;
    while n - i >= 8
        invariant
            0 <= i <= n,
            n == bytes@.len(),
            hash_spec(bytes@) == hash_from(state, bytes@, i as int),
        decreases n - i,
    {
        let block: u64 = (bytes[i] as u64) | ((bytes[i + 1] as u64) << 8u64) | ((bytes[i
            + 2] as u64) << 16u64) | ((bytes[i + 3] as u64) << 24u64) | ((bytes[i + 4] as u64)
            << 32u64) | ((bytes[i + 5] as u64) << 40u64) | ((bytes[i + 6] as u64) << 48u64) | ((
        bytes[i + 7] as u64) << 56u64);
        proof {
            assert(block == block_at(bytes@, i as int));
        }
        state = (block ^ state).wrapping_mul(HASH_PRIME);
        i = i + 8;
    }
    while i < n
        invariant
            0 <= i <= n,
            n == bytes@.len(),
            n - i < 8,
            hash_spec(bytes@) == hash_from(state, bytes@, i as int),
        decreases n - i,
    {
        state = ((bytes[i] as u64) ^ state).wrapping_mul(HASH_PRIME);
        i = i + 1;
    }
    state
}

} // verus!
