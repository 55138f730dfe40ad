use vstd::prelude::*;

verus! {

/// State that a zero seed is replaced with, so that the generator never
/// enters the all-zero orbit.
pub const ZERO_SEED_STATE: u64 = 0x9E37_79B9_7F4A_7C15;

/// Odd multiplier applied to the state to produce the output word.
pub const OUTPUT_MULTIPLIER: u64 = 0x2545_F491_4F6C_DD1D;

/// Denominator of a signed unit draw: 2^52.
pub const UNIT_SCALE: i64 = 0x10_0000_0000_0000;

/// The state a generator starts in when seeded with `seed`.
pub open spec fn seed_state(seed: u64) -> u64 {
    if seed == 0 {
        ZERO_SEED_STATE
    } else {
        seed
    }
}

/// One xorshift round with the shift triple 12, 25, 27.
pub open spec fn xorshift(x: u64) -> u64 {
    let a = x ^ (x >> 12);
    let b = a ^ (a << 25);
    b ^ (b >> 27)
}

/// The output word that belongs to a state.
pub open spec fn output_word(state: u64) -> u64 {
    state.wrapping_mul(OUTPUT_MULTIPLIER)
}

/// The state reached from `state` after `draws` draws.
pub open spec fn state_after(state: u64, draws: nat) -> u64
    decreases draws,
{
    if draws == 0 {
        state
    } else {
        xorshift(state_after(state, (draws - 1) as nat))
    }
}

/// The word returned by draw number `index` (counted from zero) of a
/// generator that starts in `state`.
pub open spec fn word_at(state: u64, index: nat) -> u64 {
    output_word(state_after(state, index + 1))
}

/// Numerator, over `UNIT_SCALE`, of the signed unit value `2u - 1`, where
/// `u` is the top 53 bits of `word` divided by 2^53.
pub open spec fn signed_unit(word: u64) -> int {
    (word >> 11) as int - UNIT_SCALE as int
}

/// The signed unit numerator returned by draw number `index`.
pub open spec fn unit_at(state: u64, index: nat) -> int {
    signed_unit(word_at(state, index))
}

/// A xorshift round maps no state but zero to zero.
pub proof fn lemma_xorshift_keeps_nonzero(x: u64)
    ensures
        xorshift(x) == 0 <==> x == 0,
{
    assert(xorshift(x) == 0 <==> x == 0) by (bit_vector);
}

/// Distinct states stay distinct: a xorshift round is one to one.
pub proof fn lemma_xorshift_injective(x: u64, y: u64)
    ensures
        xorshift(x) == xorshift(y) <==> x == y,
{
    assert(xorshift(x) == xorshift(y) <==> x == y) by (bit_vector);
}

/// Every signed unit numerator lies in `[-UNIT_SCALE, UNIT_SCALE)`, and the
/// lower end is met exactly by the words below 2^11.
pub proof fn lemma_signed_unit_range(word: u64)
    ensures
        -UNIT_SCALE <= signed_unit(word) < UNIT_SCALE,
        signed_unit(word) == -UNIT_SCALE <==> word < 2048,
{
    assert((word >> 11) < 0x20_0000_0000_0000u64) by (bit_vector);
    assert((word >> 11) == 0 <==> word < 2048) by (bit_vector);
}

/// A generator never reaches the zero state.
pub proof fn lemma_state_after_nonzero(state: u64, draws: nat)
    requires
        state != 0,
    ensures
        state_after(state, draws) != 0,
    decreases draws,
{
    if draws > 0 {
        lemma_state_after_nonzero(state, (draws - 1) as nat);
        lemma_xorshift_keeps_nonzero(state_after(state, (draws - 1) as nat));
    }
}

/// Reproducibility: two generators whose seeds give the same start state
/// pass through the same states and draw the same words and signed units,
/// draw after draw. Seed zero and the seed `ZERO_SEED_STATE` are such a
/// pair.
pub proof fn lemma_equal_seeds_equal_draws(seed: u64, other: u64, index: nat)
    requires
        seed_state(seed) == seed_state(other),
    ensures
        state_after(seed_state(seed), index) == state_after(seed_state(other), index),
        word_at(seed_state(seed), index) == word_at(seed_state(other), index),
        unit_at(seed_state(seed), index) == unit_at(seed_state(other), index),
        seed_state(0) == seed_state(ZERO_SEED_STATE),
{
}

/// Deterministic 64-bit generator: xorshift state, multiplied output.
#[derive(Debug)]
pub struct Rng {
    state: u64,
}

impl View for Rng {
    type V = u64;

    closed spec fn view(&self) -> u64 {
        self.state
    }
}

impl Clone for Rng {
    fn clone(&self) -> (copy: Rng)
        ensures
            copy@ == self@,
    {
        proof {
            use_type_invariant(self);
        }
        Rng { state: self.state }
    }
}

impl Rng {
    #[verifier::type_invariant]
    spec fn state_is_nonzero(self) -> bool {
        self.state != 0
    }

    /// Seeds a generator; seed zero is replaced by `ZERO_SEED_STATE`.
    pub fn new(seed: u64) -> (rng: Rng)
        ensures
            rng@ == seed_state(seed),
            rng@ != 0,
    {
        if seed == 0 {
            Rng { state: ZERO_SEED_STATE }
        } else {
            Rng { state: seed }
        }
    }

    /// Advances the state by one round and returns its output word.
    pub fn next_u64(&mut self) -> (word: u64)
        ensures
            final(self)@ == xorshift(old(self)@),
            final(self)@ != 0,
            word == output_word(final(self)@),
    {
        proof {
            use_type_invariant(&*self);
            lemma_xorshift_keeps_nonzero(self.state);
        }
        let mut x: u64 = self.state;
        x = x ^ (x >> 12);
        x = x ^ (x << 25);
        x = x ^ (x >> 27);
        self.state = x;
        x.wrapping_mul(OUTPUT_MULTIPLIER)
    }

    /// Draws the next signed unit value `2u - 1`, as a numerator over
    /// `UNIT_SCALE`, where `u` is the top 53 bits of the next output word
    /// over 2^53. The value lies in `[-1, 1)`.
    pub fn next_signed_unit(&mut self) -> (unit: i64)
        ensures
            final(self)@ == xorshift(old(self)@),
            final(self)@ != 0,
            unit == signed_unit(output_word(final(self)@)),
            -UNIT_SCALE <= unit < UNIT_SCALE,
    {
        let word = self.next_u64();
        proof {
            lemma_signed_unit_range(word);
        }
        let top: u64 = word >> 11;
        (top as i64) - UNIT_SCALE
    }
}

} // verus!
