//! Deterministic xorshift64 generator.
use vstd::prelude::*;

verus! {

/// Seed used in place of zero (xorshift never leaves the all-zero state).
pub const ZERO_SEED_REPLACEMENT: u64 = 0x9E3779B97F4A7C15;

/// `2^53`: the denominator of a 53-bit uniform draw.
pub const UNIT53: u64 = 0x20_0000_0000_0000;

/// One xorshift64 transition: `x ^= x << 13; x ^= x >> 7; x ^= x << 17`.
pub open spec fn xorshift(x: u64) -> u64 {
    let a = x ^ (x << 13u64);
    let b = a ^ (a >> 7u64);
    b ^ (b << 17u64)
}

/// The generator state after `n` draws from state `s`.
pub open spec fn xorshift_n(s: u64, n: nat) -> u64
    decreases n,
{
    if n == 0 {
        s
    } else {
        xorshift(xorshift_n(s, (n - 1) as nat))
    }
}

/// The state a generator seeded with `seed` starts from.
pub open spec fn seed_state(seed: u64) -> u64 {
    if seed == 0 {
        ZERO_SEED_REPLACEMENT
    } else {
        seed
    }
}

/// Deterministic xorshift64 RNG (no dependencies, WASM-safe).
#[derive(Clone, Debug)]
pub struct XorShift64 {
    state: u64,
}

impl View for XorShift64 {
    type V = u64;

    closed spec fn view(&self) -> u64 {
        self.state
    }
}

impl XorShift64 {
    pub fn new(seed: u64) -> (r: Self)
        ensures
            r@ == seed_state(seed),
            r@ != 0,
    {
        let s = if seed == 0 { ZERO_SEED_REPLACEMENT } else { seed };
        XorShift64 { state: s }
    }

    pub fn next_u64(&mut self) -> (r: u64)
        ensures
            r == xorshift(old(self)@),
            final(self)@ == r,
            old(self)@ != 0 ==> r != 0,
    {
        proof {
            if self.state != 0 {
                lemma_xorshift_nonzero(self.state);
            }
        }
        let mut x = self.state;
        x ^= x << 13u64;
        x ^= x >> 7u64;
        x ^= x << 17u64;
        self.state = x;
        x
    }

    /// The top 53 bits of the next output: the numerator of the uniform
    /// draw `next_u53() / 2^53` in `[0, 1)`.
    pub fn next_u53(&mut self) -> (r: u64)
        ensures
            r == xorshift(old(self)@) >> 11u64,
            r < UNIT53,
            final(self)@ == xorshift(old(self)@),
            old(self)@ != 0 ==> final(self)@ != 0,
    {
        let x = self.next_u64();
        assert(x >> 11u64 < 0x20_0000_0000_0000u64) by (bit_vector);
        x >> 11u64
    }
}

/// The xorshift transition never reaches the all-zero state from a nonzero
/// state, so a generator built by `XorShift64::new` never gets stuck.
pub proof fn lemma_xorshift_nonzero(x: u64)
    requires
        x != 0,
    ensures
        xorshift(x) != 0,
{
    let a = x ^ (x << 13u64);
    let b = a ^ (a >> 7u64);
    assert(x != 0 ==> (x ^ (x << 13u64)) != 0) by (bit_vector);
    assert(a != 0 ==> (a ^ (a >> 7u64)) != 0) by (bit_vector);
    assert(b != 0 ==> (b ^ (b << 17u64)) != 0) by (bit_vector);
}

/// A seeded stream never sticks: every state reached from a seed, after
/// any number of draws, is nonzero (so every output is nonzero).
pub proof fn lemma_seeded_stream_nonzero(seed: u64, n: nat)
    ensures
        xorshift_n(seed_state(seed), n) != 0,
    decreases n,
{
    if n > 0 {
        lemma_seeded_stream_nonzero(seed, (n - 1) as nat);
        lemma_xorshift_nonzero(xorshift_n(seed_state(seed), (n - 1) as nat));
    }
}

} // verus!
