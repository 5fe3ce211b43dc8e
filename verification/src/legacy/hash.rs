use vstd::prelude::*;
use crate::random::{rotl32, rotate_left_u32};

verus! {

/// The little-endian word of the four bytes of `key` from `4 * i` on.
pub open spec fn le_word(key: Seq<u8>, i: int) -> u32 {
    (key[4 * i] as u32) | ((key[4 * i + 1] as u32) << 8u32) | ((key[4 * i + 2] as u32) << 16u32) | ((
    key[4 * i + 3] as u32) << 24u32)
}

/// The scrambled block `k` that MurmurHash3 mixes in.
pub open spec fn murmur_block(k: u32) -> u32 {
    rotl32(k.wrapping_mul(0xcc9e2d51), 15).wrapping_mul(0x1b873593)
}

/// The state after mixing in the first `i` blocks of `key`.
pub open spec fn murmur_state(key: Seq<u8>, seed: u32, i: nat) -> u32
    decreases i,
{
    if i == 0 {
        seed
    } else {
        let h = murmur_state(key, seed, (i - 1) as nat) ^ murmur_block(le_word(key, i - 1));
        rotl32(h, 13).wrapping_mul(5).wrapping_add(0xe6546b64)
    }
}

/// The final avalanche of MurmurHash3.
pub open spec fn murmur_finish(h: u32) -> u32 {
    let h1 = (h ^ (h >> 16u32)).wrapping_mul(0x85ebca6b);
    let h2 = (h1 ^ (h1 >> 13u32)).wrapping_mul(0xc2b2ae35);
    h2 ^ (h2 >> 16u32)
}

/// MurmurHash3 (32-bit) of a key whose length is a multiple of four.
pub fn murmur3_32(key: &[u8], seed: u32) -> (h: u32)
    requires
        key@.len() % 4 == 0,
        key@.len() <= u32::MAX,
    ensures
        h == murmur_finish(murmur_state(key@, seed, (key@.len() / 4) as nat) ^ (key@.len() as u32)),
{
    let mut hash = seed;
    let blocks = key.len() / 4;
    let mut i: usize = 0;
    while i < blocks
        invariant
            blocks == key@.len() / 4,
            key@.len() % 4 == 0,
            key@.len() <= usize::MAX,
            i <= blocks,
            hash == murmur_state(key@, seed, i as nat),
        decreases blocks - i,
    {
        assert(4 * i + 3 < key@.len()) by (nonlinear_arith)
            requires
                i < blocks,
                blocks == key@.len() / 4,
                key@.len() % 4 == 0,
        ;
        let k = (key[4 * i] as u32) | ((key[4 * i + 1] as u32) << 8u32) | ((key[4 * i + 2] as u32) << 16u32)
            | ((key[4 * i + 3] as u32) << 24u32);
        let k = rotate_left_u32(k.wrapping_mul(0xcc9e2d51), 15).wrapping_mul(0x1b873593);
        hash = hash ^ k;
        hash = rotate_left_u32(hash, 13).wrapping_mul(5).wrapping_add(0xe6546b64);
        i += 1;
    }
    hash = hash ^ (key.len() as u32);
    hash = (hash ^ (hash >> 16u32)).wrapping_mul(0x85ebca6b);
    hash = (hash ^ (hash >> 13u32)).wrapping_mul(0xc2b2ae35);
    hash ^ (hash >> 16u32)
}

} // verus!
