use vstd::prelude::*;
use crate::random::{RngCore, rotl64, rotate_left_u64};

verus! {

/// The state after one xoshiro256++ step.
pub open spec fn xoshiro_step(s: [u64; 4]) -> [u64; 4] {
    let t = (s[1] << 17u64) as u64;
    let s2 = s[2] ^ s[0];
    let s3 = s[3] ^ s[1];
    let s1 = s[1] ^ s2;
    let s0 = s[0] ^ s3;
    [s0, s1, s2 ^ t, rotl64(s3, 45)]
}

/// The xoshiro256++ output for the state `s`.
pub open spec fn xoshiro_output(s: [u64; 4]) -> u64 {
    rotl64(s[0].wrapping_add(s[3]), 23).wrapping_add(s[0])
}

/// The xoshiro256++ generator.
#[derive(Clone, Copy, PartialEq, Eq, Debug)]
pub struct Xoshiro([u64; 4]);

impl Xoshiro {
    pub closed spec fn state(&self) -> [u64; 4] {
        self.0
    }

    /// The generator whose state is four successive outputs of
    /// [`SplitMix`] seeded with `seed`.
    pub fn seed_from_u64(seed: u64) -> (g: Self)
        ensures
            g.state()@ == seq![
                splitmix_output(splitmix_step(seed)),
                splitmix_output(splitmix_step(splitmix_step(seed))),
                splitmix_output(splitmix_step(splitmix_step(splitmix_step(seed)))),
                splitmix_output(splitmix_step(splitmix_step(splitmix_step(splitmix_step(seed))))),
            ],
    {
        let mut sm = SplitMix::seed_from_u64(seed);
        let a = sm.next_u64();
        let b = sm.next_u64();
        let c = sm.next_u64();
        let d = sm.next_u64();
        let g = Xoshiro([a, b, c, d]);
        assert(g.state()@ =~= seq![a, b, c, d]);
        g
    }
}

impl RngCore for Xoshiro {
    /// The high half of [`RngCore::next_u64`].
    fn next_u32(&mut self) -> (r: u32)
        ensures
            r == (xoshiro_output(old(self).state()) >> 32u64) as u32,
            final(self).state() == xoshiro_step(old(self).state()),
    {
        let x = self.next_u64();
        (x >> 32) as u32
    }

    fn next_u64(&mut self) -> (r: u64)
        ensures
            r == xoshiro_output(old(self).state()),
            final(self).state() == xoshiro_step(old(self).state()),
    {
        let s = self.0;
        let res = rotate_left_u64(s[0].wrapping_add(s[3]), 23).wrapping_add(s[0]);
        let t = s[1] << 17;
        let s2 = s[2] ^ s[0];
        let s3 = s[3] ^ s[1];
        let s1 = s[1] ^ s2;
        let s0 = s[0] ^ s3;
        let s3r = rotate_left_u64(s3, 45);
        self.0 = [s0, s1, s2 ^ t, s3r];
        res
    }
}

/// The state after one SplitMix64 step.
pub open spec fn splitmix_step(s: u64) -> u64 {
    s.wrapping_add(0x9e3779b97f4a7c15)
}

/// The SplitMix64 output for the (already advanced) state `s`.
pub open spec fn splitmix_output(s: u64) -> u64 {
    let z1 = (s ^ (s >> 30u64)).wrapping_mul(0xbf58476d1ce4e5b9);
    let z2 = (z1 ^ (z1 >> 27u64)).wrapping_mul(0x94d049bb133111eb);
    z2 ^ (z2 >> 31u64)
}

/// The SplitMix64 generator.
#[derive(Clone, Copy, PartialEq, Eq, Structural, Debug)]
pub struct SplitMix(u64);

impl SplitMix {
    pub closed spec fn state(&self) -> u64 {
        self.0
    }

    pub fn seed_from_u64(seed: u64) -> (g: Self)
        ensures
            g.state() == seed,
    {
        SplitMix(seed)
    }
}

impl RngCore for SplitMix {
    /// The high half of [`RngCore::next_u64`].
    fn next_u32(&mut self) -> (r: u32)
        ensures
            r == (splitmix_output(splitmix_step(old(self).state())) >> 32u64) as u32,
            final(self).state() == splitmix_step(old(self).state()),
    {
        let x = self.next_u64();
        (x >> 32) as u32
    }

    fn next_u64(&mut self) -> (r: u64)
        ensures
            r == splitmix_output(splitmix_step(old(self).state())),
            final(self).state() == splitmix_step(old(self).state()),
    {
        self.0 = self.0.wrapping_add(0x9e3779b97f4a7c15);
        let mut z = self.0;
        z = (z ^ (z >> 30)).wrapping_mul(0xbf58476d1ce4e5b9);
        z = (z ^ (z >> 27)).wrapping_mul(0x94d049bb133111eb);
        z ^ (z >> 31)
    }
}

} // verus!
