pub mod pcg;
pub mod xoshiro;
pub mod basic;

use vstd::prelude::*;

verus! {

/// A source of random words.
pub trait RngCore {
    fn next_u32(&mut self) -> u32;

    fn next_u64(&mut self) -> u64;
}

/// `x` rotated right by `r` bits, for `r < 32`.
pub open spec fn rotr32(x: u32, r: u32) -> u32 {
    if r == 0 {
        x
    } else {
        ((x >> r) | (x << ((32 - r) as u32))) as u32
    }
}

/// `x` rotated left by `r` bits, for `r < 32`.
pub open spec fn rotl32(x: u32, r: u32) -> u32 {
    if r == 0 {
        x
    } else {
        ((x << r) | (x >> ((32 - r) as u32))) as u32
    }
}

/// `x` rotated left by `r` bits, for `r < 64`.
pub open spec fn rotl64(x: u64, r: u64) -> u64 {
    if r == 0 {
        x
    } else {
        ((x << r) | (x >> ((64 - r) as u64))) as u64
    }
}

pub fn rotate_right_u32(x: u32, r: u32) -> (y: u32)
    requires
        r < 32,
    ensures
        y == rotr32(x, r),
{
    if r == 0 {
        x
    } else {
        (x >> r) | (x << (32 - r))
    }
}

pub fn rotate_left_u32(x: u32, r: u32) -> (y: u32)
    requires
        r < 32,
    ensures
        y == rotl32(x, r),
{
    if r == 0 {
        x
    } else {
        (x << r) | (x >> (32 - r))
    }
}

pub fn rotate_left_u64(x: u64, r: u64) -> (y: u64)
    requires
        r < 64,
    ensures
        y == rotl64(x, r),
{
    if r == 0 {
        x
    } else {
        (x << r) | (x >> (64 - r))
    }
}

/// The PCG multiplier and increment.
pub const PCG_MUL: u64 = 5129263795064623965;

pub const PCG_INC: u64 = 4280768313201238837;

/// The state after one PCG step.
pub open spec fn pcg_step(s: u64) -> u64 {
    s.wrapping_mul(PCG_MUL).wrapping_add(PCG_INC)
}

/// The PCG-XSH-RR output for the state `s`.
pub open spec fn pcg_output(s: u64) -> u32 {
    let x = (s ^ (s >> 18u64)) as u64;
    rotr32((x >> 27u64) as u32, (x >> 59u64) as u32)
}

pub(crate) fn pcg_advance(s: u64) -> (r: (u64, u32))
    ensures
        r.0 == pcg_step(s),
        r.1 == pcg_output(s),
{
    let mut x = s;
    let next = x.wrapping_mul(PCG_MUL).wrapping_add(PCG_INC);
    x ^= x >> 18;
    let hi = (x >> 59) as u32;
    assert(x >> 59 < 32) by (bit_vector);
    let out = rotate_right_u32((x >> 27) as u32, hi);
    (next, out)
}

} // verus!
