use vstd::prelude::*;
use crate::random::{RngCore, pcg_advance, pcg_step, pcg_output, PCG_INC};

verus! {

/// The PCG-XSH-RR generator.
#[derive(Clone, Copy, PartialEq, Eq, Structural, Debug)]
pub struct Pcg(u64);

impl Pcg {
    pub closed spec fn state(&self) -> u64 {
        self.0
    }

    /// The generator whose state is `seed + INC` (wrapping).
    pub fn seed_from_u64(seed: u64) -> (g: Self)
        ensures
            g.state() == seed.wrapping_add(PCG_INC),
    {
        Pcg(seed.wrapping_add(PCG_INC))
    }
}

impl RngCore for Pcg {
    fn next_u32(&mut self) -> (r: u32)
        ensures
            r == pcg_output(old(self).state()),
            final(self).state() == pcg_step(old(self).state()),
    {
        let (s, out) = pcg_advance(self.0);
        self.0 = s;
        out
    }

    /// Two outputs, the first in the high half.
    fn next_u64(&mut self) -> (r: u64)
        ensures
            r == (pcg_output(old(self).state()) as u64) << 32u64 | pcg_output(pcg_step(old(self).state())) as u64,
            final(self).state() == pcg_step(pcg_step(old(self).state())),
    {
        let a = self.next_u32();
        let b = self.next_u32();
        (a as u64) << 32 | b as u64
    }
}

} // verus!
