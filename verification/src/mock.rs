//! The integer core of the deterministic mock series: a string hash that seeds each symbol,
//! and the linear congruential generator the random walk draws from. No floats enter here,
//! so the same symbol yields the same draws on every target.
use vstd::prelude::*;

verus! {

/// The 64-bit FNV offset basis.
pub const FNV_OFFSET: u64 = 0xcbf2_9ce4_8422_2325;

/// The 64-bit FNV prime.
pub const FNV_PRIME: u64 = 0x0000_0100_0000_01b3;

/// FNV-1a over `bs`: for each byte, xor it in, then multiply by the prime modulo 2^64.
pub open spec fn fnv_of(bs: Seq<u8>) -> u64
    decreases bs.len(),
{
    if bs.len() == 0 {
        FNV_OFFSET
    } else {
        vstd::wrapping::u64_specs::wrapping_mul(fnv_of(bs.drop_last()) ^ (bs.last() as u64), FNV_PRIME)
    }
}

/// The FNV-1a hash of `s`'s UTF-8 bytes: the seed of a symbol's mock series.
pub fn fnv(s: &str) -> (h: u64)
    ensures
        h == fnv_of(vstd::utf8::encode_utf8(s@)),
{
    let bytes = s.as_bytes();
    let mut h: u64 = FNV_OFFSET;
    for i in 0..bytes.len()
        invariant
            h == fnv_of(bytes@.take(i as int)),
    {
        h = h ^ (bytes[i] as u64);
        h = h.wrapping_mul(FNV_PRIME);
        assert(bytes@.take(i + 1).drop_last() =~= bytes@.take(i as int));
    }
    assert(bytes@.take(bytes.len() as int) =~= bytes@);
    h
}

/// The generator's multiplier.
pub const LCG_MUL: u64 = 6_364_136_223_846_793_005;

/// The generator's increment.
pub const LCG_INC: u64 = 1_442_695_040_888_963_407;

/// The state after one step: `state * LCG_MUL + LCG_INC` modulo 2^64.
pub open spec fn lcg_advance(state: u64) -> u64 {
    vstd::wrapping::u64_specs::wrapping_add(
        vstd::wrapping::u64_specs::wrapping_mul(state, LCG_MUL),
        LCG_INC,
    )
}

/// A 64-bit linear congruential generator.
pub struct Lcg {
    pub state: u64,
}

impl Lcg {
    /// A generator whose first draw advances from `seed`.
    pub fn new(seed: u64) -> (r: Lcg)
        ensures
            r.state == seed,
    {
        Lcg { state: seed }
    }

    /// Advance one step and draw the state's top 31 bits.
    pub fn next(&mut self) -> (r: u64)
        ensures
            final(self).state == lcg_advance(old(self).state),
            r == lcg_advance(old(self).state) >> 33u64,
    {
        self.state = self.state.wrapping_mul(LCG_MUL).wrapping_add(LCG_INC);
        self.state >> 33
    }

    /// The integer part of a step in cents within `±max_cents`: one draw reduced modulo
    /// `2 * max_cents + 1`. The step itself is this value minus `max_cents`, in cents.
    pub fn step_draw(&mut self, max_cents: u64) -> (r: u64)
        requires
            max_cents <= (u64::MAX - 1) / 2,
        ensures
            final(self).state == lcg_advance(old(self).state),
            r as int == ((lcg_advance(old(self).state) >> 33u64) as int) % (2 * max_cents + 1),
            r <= 2 * max_cents,
    {
        let span = max_cents * 2 + 1;
        self.next() % span
    }
}

} // verus!
