//! Integer random-number generators behind the random cuts of the trees.
//!
//! Two generators are in use: a xorshift32 sequence whose state lives in each
//! tree, and a linear congruential generator (the classic `1103515245 * x +
//! 12345` recurrence) used both by the node splitter and by the signal
//! generator of the evaluation harness.
use vstd::prelude::*;

verus! {

/// Multiplier of the linear congruential generator.
pub const LCG_MULTIPLIER: u32 = 1103515245;

/// Increment of the linear congruential generator.
pub const LCG_INCREMENT: u32 = 12345;

/// One xorshift32 step: xor with the state shifted left by 13, then right by
/// 17, then left by 5 (shifts drop the bits that leave the word).
pub open spec fn xorshift32_step(seed: u32) -> u32 {
    let a = seed ^ (seed << 13u32);
    let b = a ^ (a >> 17u32);
    b ^ (b << 5u32)
}

/// Advances a xorshift32 state in place and returns the new state.
pub fn xorshift32(seed: &mut u32) -> (r: u32)
    ensures
        *final(seed) == xorshift32_step(*old(seed)),
        r == *final(seed),
{
    *seed = *seed ^ (*seed << 13u32);
    *seed = *seed ^ (*seed >> 17u32);
    *seed = *seed ^ (*seed << 5u32);
    *seed
}

/// A xorshift32 state that is not zero never becomes zero, and zero stays zero:
/// the generator cannot fall into its only fixed point from anywhere else.
pub proof fn lemma_xorshift32_zero_iff(seed: u32)
    ensures
        (xorshift32_step(seed) == 0) <==> (seed == 0),
{
    let a = seed ^ (seed << 13u32);
    let b = a ^ (a >> 17u32);
    let c = b ^ (b << 5u32);
    assert(seed == 0 ==> a == 0) by (bit_vector)
        requires a == seed ^ (seed << 13u32);
    assert(a == 0 ==> b == 0) by (bit_vector)
        requires b == a ^ (a >> 17u32);
    assert(b == 0 ==> c == 0) by (bit_vector)
        requires c == b ^ (b << 5u32);
    assert(a == 0 ==> seed == 0) by (bit_vector)
        requires a == seed ^ (seed << 13u32);
    assert(b == 0 ==> a == 0) by (bit_vector)
        requires b == a ^ (a >> 17u32);
    assert(c == 0 ==> b == 0) by (bit_vector)
        requires c == b ^ (b << 5u32);
}

/// The linear congruential step `state * 1103515245 + 12345` modulo 2^32.
pub open spec fn lcg_step(state: u32) -> u32 {
    ((state as int * LCG_MULTIPLIER as int + LCG_INCREMENT as int) % 0x1_0000_0000) as u32
}

/// A pseudo-random number generator over the linear congruential recurrence.
pub struct Prng {
    pub state: u32,
}

impl Prng {
    /// A generator whose state is `seed`.
    pub fn new(seed: u32) -> (r: Prng)
        ensures
            r.state == seed,
    {
        Prng { state: seed }
    }

    /// Advances the state by one step and returns the new state.
    pub fn next(&mut self) -> (r: u32)
        ensures
            final(self).state == lcg_step(old(self).state),
            r == final(self).state,
    {
        let m = self.state.wrapping_mul(LCG_MULTIPLIER);
        let s = m.wrapping_add(LCG_INCREMENT);
        proof {
            lemma_lcg_wrapping(old(self).state, m, s);
        }
        self.state = s;
        s
    }
}

/// The wrapped multiply-then-add that the generator performs is the
/// recurrence reduced modulo 2^32.
proof fn lemma_lcg_wrapping(x: u32, m: u32, s: u32)
    requires
        m == (x as nat * LCG_MULTIPLIER as nat) % 0x1_0000_0000,
        s == (if m + LCG_INCREMENT > u32::MAX {
            (m + LCG_INCREMENT - 0x1_0000_0000) as u32
        } else {
            (m + LCG_INCREMENT) as u32
        }),
    ensures
        s == lcg_step(x),
{
    let p: int = x as int * LCG_MULTIPLIER as int;
    let big: int = 0x1_0000_0000;
    assert(p >= 0) by (nonlinear_arith)
        requires p == x as int * LCG_MULTIPLIER as int;
    vstd::arithmetic::div_mod::lemma_add_mod_noop(p, LCG_INCREMENT as int, big);
    vstd::arithmetic::div_mod::lemma_small_mod(LCG_INCREMENT as nat, big as nat);
    vstd::arithmetic::div_mod::lemma_mod_bound(p, big);
}

/// Two different states never step to the same state: the recurrence is a
/// permutation of the 32-bit states, so the sequence from any seed runs
/// through distinct states until it returns to the seed.
pub proof fn lemma_lcg_step_injective(x: u32, y: u32)
    ensures
        lcg_step(x) == lcg_step(y) ==> x == y,
{
    lemma_lcg_step_inverse(x);
    lemma_lcg_step_inverse(y);
}

/// Undoing a step: subtracting the increment and multiplying by 4005161829,
/// the inverse of the multiplier modulo 2^32, gives the state back.
proof fn lemma_lcg_step_inverse(x: u32)
    ensures
        ((lcg_step(x) as int - LCG_INCREMENT as int) * 4005161829) % 0x1_0000_0000 == x as int,
{
    let big: int = 0x1_0000_0000;
    let m: int = LCG_MULTIPLIER as int;
    let inv: int = 4005161829;
    let p: int = x as int * m + LCG_INCREMENT as int;
    let s: int = lcg_step(x) as int;
    assert(s == p % big);
    vstd::arithmetic::div_mod::lemma_fundamental_div_mod(p, big);
    let q: int = p / big;
    assert(s - LCG_INCREMENT as int == x as int * m - q * big);
    assert((s - LCG_INCREMENT as int) * inv == x as int * (m * inv) - (q * inv) * big) by (nonlinear_arith)
        requires
            s - LCG_INCREMENT as int == x as int * m - q * big,
    ;
    assert(m * inv == 1 + 1029054899 * big);
    assert(x as int * (m * inv) == x as int + (x as int * 1029054899) * big) by (nonlinear_arith)
        requires
            m * inv == 1 + 1029054899 * big,
    ;
    let k: int = x as int * 1029054899 - q * inv;
    assert((s - LCG_INCREMENT as int) * inv == x as int + k * big) by (nonlinear_arith)
        requires
            (s - LCG_INCREMENT as int) * inv == x as int * (m * inv) - (q * inv) * big,
            x as int * (m * inv) == x as int + (x as int * 1029054899) * big,
            k == x as int * 1029054899 - q * inv,
    ;
    assert(x as int + k * big == big * k + x as int) by (nonlinear_arith);
    vstd::arithmetic::div_mod::lemma_mod_multiples_vanish(k, x as int, big);
    vstd::arithmetic::div_mod::lemma_small_mod(x as nat, big as nat);
}

} // verus!
