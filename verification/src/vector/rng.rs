//! A tiny deterministic pseudo-random generator.
//!
//! The graph index assigns each node a random level drawn from an exponential
//! distribution. A fixed seed makes index construction reproducible. This is
//! `xorshift64*`; it is not cryptographic and is not meant to be.

use vstd::prelude::*;

verus! {

/// What is mixed into a seed.
pub const MIX: u64 = 0x9E37_79B9_7F4A_7C15;

/// The output multiplier, which also replaces a state of zero.
pub const MULTIPLIER: u64 = 0x2545_F491_4F6C_DD1D;

/// How many values the top 53 bits of a draw can take.
pub const UNIT_RANGE: u64 = 0x20_0000_0000_0000;

/// One step of the shift register.
pub open spec fn scramble(x: u64) -> u64 {
    let a = x ^ (x >> 12u64);
    let b = a ^ (a << 25u64);
    b ^ (b >> 27u64)
}

/// The state of the shift register for a seed. A seed that would leave the
/// register at zero is remapped.
pub open spec fn seeded(seed: u64) -> u64 {
    if seed ^ MIX == 0 {
        MULTIPLIER
    } else {
        seed ^ MIX
    }
}

/// The value drawn when the shift register holds `state`.
pub open spec fn value_of(state: u64) -> u64 {
    (scramble(state) * MULTIPLIER % 0x1_0000_0000_0000_0000) as u64
}

/// The fraction drawn when the shift register holds `state`.
pub open spec fn unit_of(state: u64) -> Fraction {
    Fraction {
        numerator: (value_of(state) / 2048 + 1) as u64,
        denominator: (UNIT_RANGE + 1) as u64,
    }
}

/// The state of the shift register after `n` draws.
pub open spec fn after(state: u64, n: nat) -> u64
    decreases n,
{
    if n == 0 {
        state
    } else {
        scramble(after(state, (n - 1) as nat))
    }
}

/// A fraction strictly between zero and one.
#[derive(Clone, Copy, Debug, PartialEq, Eq, Structural)]
pub struct Fraction {
    pub numerator: u64,
    pub denominator: u64,
}

/// A `xorshift64*` generator.
pub struct Rng {
    state: u64,
}

impl Rng {
    /// The state of the shift register.
    pub closed spec fn view(&self) -> u64 {
        self.state
    }

    /// The register is never zero, a state it could not leave.
    pub open spec fn wf(&self) -> bool {
        self@ != 0
    }

    /// Creates a generator from `seed`. A seed that would leave the register at
    /// zero is remapped.
    pub fn new(seed: u64) -> (r: Rng)
        ensures
            r.wf(),
            r@ == seeded(seed),
    {
        let state: u64 = seed ^ MIX;
        Rng {
            state: if state == 0 {
                MULTIPLIER
            } else {
                state
            },
        }
    }

    /// The next 64-bit value.
    pub fn next_u64(&mut self) -> (r: u64)
        requires
            old(self).wf(),
        ensures
            final(self).wf(),
            final(self)@ == scramble(old(self)@),
            r == value_of(old(self)@),
    {
        let mut x: u64 = self.state;
        proof {
            lemma_scramble_keeps_nonzero(x);
        }
        x = x ^ (x >> 12u64);
        x = x ^ (x << 25u64);
        x = x ^ (x >> 27u64);
        self.state = x;
        x.wrapping_mul(MULTIPLIER)
    }

    /// A uniform fraction in the open interval (0, 1), so that its logarithm
    /// exists and is negative.
    pub fn unit(&mut self) -> (r: Fraction)
        requires
            old(self).wf(),
        ensures
            final(self).wf(),
            final(self)@ == scramble(old(self)@),
            r == unit_of(old(self)@),
            0 < r.numerator < r.denominator,
    {
        // The top 53 bits give a uniform integer in [0, 2^53).
        let draw: u64 = self.next_u64();
        Fraction { numerator: draw / 2048 + 1, denominator: UNIT_RANGE + 1 }
    }
}

proof fn lemma_scramble_keeps_nonzero(x: u64)
    requires
        x != 0,
    ensures
        scramble(x) != 0,
{
    let a = x ^ (x >> 12u64);
    let b = a ^ (a << 25u64);
    assert(x != 0 ==> x ^ (x >> 12u64) != 0) by (bit_vector);
    assert(a != 0 ==> a ^ (a << 25u64) != 0) by (bit_vector);
    assert(b != 0 ==> b ^ (b >> 27u64) != 0) by (bit_vector);
}

/// However many values have been drawn, the register has not come to zero, the
/// one state that it could not leave.
pub proof fn law_register_never_comes_to_zero(seed: u64, n: nat)
    ensures
        after(seeded(seed), n) != 0,
    decreases n,
{
    if n > 0 {
        law_register_never_comes_to_zero(seed, (n - 1) as nat);
        lemma_scramble_keeps_nonzero(after(seeded(seed), (n - 1) as nat));
    }
}

/// Every draw lies strictly between zero and one, whatever the state.
pub proof fn law_draws_lie_in_the_open_unit_interval(state: u64)
    ensures
        0 < unit_of(state).numerator < unit_of(state).denominator,
{
}

/// Different states lead to different states, so that the register runs through
/// them without merging.
pub proof fn law_states_do_not_merge(x: u64, y: u64)
    requires
        scramble(x) == scramble(y),
    ensures
        x == y,
{
    let a = x ^ (x >> 12u64);
    let b = a ^ (a << 25u64);
    let c = y ^ (y >> 12u64);
    let d = c ^ (c << 25u64);
    assert(b ^ (b >> 27u64) == d ^ (d >> 27u64) ==> b == d) by (bit_vector);
    assert(a ^ (a << 25u64) == c ^ (c << 25u64) ==> a == c) by (bit_vector);
    assert(x ^ (x >> 12u64) == y ^ (y >> 12u64) ==> x == y) by (bit_vector);
}

/// Drawing `a` values and then `b` more leaves the register where drawing `a + b`
/// does.
pub proof fn law_draws_add_up(state: u64, a: nat, b: nat)
    ensures
        after(after(state, a), b) == after(state, a + b),
    decreases b,
{
    if b > 0 {
        law_draws_add_up(state, a, (b - 1) as nat);
    }
}

/// A draw is made of the top 53 bits of the value: the fraction is larger just if
/// they are.
pub proof fn law_fraction_follows_the_top_bits(a: u64, b: u64)
    ensures
        unit_of(a).denominator == unit_of(b).denominator == 0x20_0000_0000_0001,
        unit_of(a).numerator == (value_of(a) >> 11u64) + 1,
        unit_of(a).numerator < unit_of(b).numerator <==> value_of(a) >> 11u64 < value_of(b)
            >> 11u64,
{
    let x = value_of(a);
    let y = value_of(b);
    assert(x >> 11u64 == x / 2048) by (bit_vector);
    assert(y >> 11u64 == y / 2048) by (bit_vector);
}

/// Seeds that differ give registers that differ, unless one of them is remapped.
pub proof fn law_seeds_do_not_merge(a: u64, b: u64)
    requires
        a != b,
        a ^ MIX != 0,
        b ^ MIX != 0,
    ensures
        seeded(a) != seeded(b),
{
    assert(a ^ 0x9E37_79B9_7F4A_7C15u64 == b ^ 0x9E37_79B9_7F4A_7C15u64 ==> a == b)
        by (bit_vector);
}

} // verus!
