//! Deterministic generators: the same seed gives the same sequence, on every machine.

use vstd::prelude::*;

verus! {

/// The state that a zero seed is replaced by: the all-zero state would never leave zero.
pub const XORSHIFT_FALLBACK: u64 = 0x9E37_79B9_7F4A_7C15;

/// What a seed is moved by before it becomes the state of an [`Lcg`].
pub const LCG_SEED_OFFSET: u64 = 0x9E37_79B9_7F4A_7C15;

pub const LCG_MULTIPLIER: u64 = 6364136223846793005;

pub const LCG_INCREMENT: u64 = 1442695040888963407;

pub const LCG_OUTPUT_MULTIPLIER: u64 = 0xDA94_2042_E4DD_58B5;

/// One more than the greatest numerator that [`Lcg::next_numerator`] and
/// [`Xorshift64::next_numerator`] return.
pub const UNIT_DENOMINATOR: u64 = 0x20_0000_0000_0000;

/// The state that follows `x` in an xorshift sequence.
pub open spec fn xorshift_after(x: u64) -> u64 {
    let a = x ^ (x << 13);
    let b = a ^ (a >> 7);
    b ^ (b << 17)
}

/// The state `n` steps after `x`.
pub open spec fn xorshift_iterate(x: u64, n: nat) -> u64
    decreases n,
{
    if n == 0 {
        x
    } else {
        xorshift_after(xorshift_iterate(x, (n - 1) as nat))
    }
}

/// A 64-bit xorshift generator, for turbulence and jitter.
#[derive(Clone, Copy, Debug, PartialEq, Eq, Structural)]
pub struct Xorshift64 {
    pub state: u64,
}

impl Xorshift64 {
    pub fn new(seed: u64) -> (r: Self)
        ensures
            r.state == if seed == 0 {
                XORSHIFT_FALLBACK
            } else {
                seed
            },
    {
        Xorshift64 { state: if seed == 0 { XORSHIFT_FALLBACK } else { seed } }
    }

    /// Moves to the next state and returns it.
    pub fn next_u64(&mut self) -> (r: u64)
        ensures
            r == xorshift_after(old(self).state),
            final(self).state == r,
    {
        let x: u64 = self.state;
        let a: u64 = x ^ (x << 13);
        let b: u64 = a ^ (a >> 7);
        let c: u64 = b ^ (b << 17);
        self.state = c;
        c
    }

    /// The numerator, over [`UNIT_DENOMINATOR`], of the next number in `[0, 1)`.
    pub fn next_numerator(&mut self) -> (r: u64)
        ensures
            final(self).state == xorshift_after(old(self).state),
            r == final(self).state / 2048,
            r < UNIT_DENOMINATOR,
    {
        let x: u64 = self.next_u64();
        x / 2048
    }
}

/// No two states have the same successor, so a sequence never runs into another one.
pub proof fn lemma_xorshift_injective(x: u64, y: u64)
    ensures
        xorshift_after(x) == xorshift_after(y) ==> x == y,
{
    let a = x ^ (x << 13);
    let b = a ^ (a >> 7);
    let c = y ^ (y << 13);
    let d = c ^ (c >> 7);
    assert(b ^ (b << 17) == d ^ (d << 17) ==> b == d) by (bit_vector);
    assert(a ^ (a >> 7) == c ^ (c >> 7) ==> a == c) by (bit_vector);
    assert(x ^ (x << 13) == y ^ (y << 13) ==> x == y) by (bit_vector);
}

/// A generator never reaches the all-zero state, however long it runs and whatever its seed.
pub proof fn lemma_xorshift_never_zero(x: u64, n: nat)
    requires
        x != 0,
    ensures
        xorshift_iterate(x, n) != 0,
    decreases n,
{
    if n > 0 {
        lemma_xorshift_never_zero(x, (n - 1) as nat);
        lemma_xorshift_injective(xorshift_iterate(x, (n - 1) as nat), 0);
        assert(0u64 ^ (0u64 << 13) == 0) by (bit_vector);
        assert(0u64 ^ (0u64 >> 7) == 0) by (bit_vector);
        assert(0u64 ^ (0u64 << 17) == 0) by (bit_vector);
    }
}

/// The state that follows `s` in a linear congruential sequence, modulo the word size.
pub open spec fn lcg_after(s: u64) -> int {
    (s * LCG_MULTIPLIER + LCG_INCREMENT) % 0x1_0000_0000_0000_0000
}

/// The numerator that a state is turned into: its bits are folded, multiplied, folded again, and
/// the upper ones kept.
pub open spec fn lcg_output(s: u64) -> u64 {
    let a = s ^ (s >> 33);
    let b = ((a * LCG_OUTPUT_MULTIPLIER) % 0x1_0000_0000_0000_0000) as u64;
    (b ^ (b >> 32)) / 2048
}

/// A linear congruential generator, for wind and sensor noise.
#[derive(Clone, Copy, Debug, PartialEq, Eq, Structural)]
pub struct Lcg {
    pub state: u64,
}

impl Lcg {
    pub fn new(seed: u64) -> (r: Self)
        ensures
            r.state == (seed + LCG_SEED_OFFSET) % 0x1_0000_0000_0000_0000,
    {
        Lcg { state: seed.wrapping_add(LCG_SEED_OFFSET) }
    }

    /// Moves to the next state and returns the numerator, over [`UNIT_DENOMINATOR`], of the next
    /// number in `[0, 1)`.
    pub fn next_numerator(&mut self) -> (r: u64)
        ensures
            final(self).state == lcg_after(old(self).state),
            r == lcg_output(final(self).state),
            r < UNIT_DENOMINATOR,
    {
        let s: u64 = self.state.wrapping_mul(LCG_MULTIPLIER).wrapping_add(LCG_INCREMENT);
        proof {
            let p = 0x1_0000_0000_0000_0000int;
            let prod = self.state * LCG_MULTIPLIER;
            vstd::arithmetic::div_mod::lemma_add_mod_noop(prod, LCG_INCREMENT as int, p);
            vstd::arithmetic::div_mod::lemma_small_mod(LCG_INCREMENT as nat, p as nat);
        }
        self.state = s;
        let a: u64 = s ^ (s >> 33);
        let b: u64 = a.wrapping_mul(LCG_OUTPUT_MULTIPLIER);
        (b ^ (b >> 32)) / 2048
    }
}

/// No two states have the same successor.
pub proof fn lemma_lcg_injective(a: u64, b: u64)
    ensures
        lcg_after(a) == lcg_after(b) ==> a == b,
{
    let p = 0x1_0000_0000_0000_0000int;
    let k = LCG_MULTIPLIER as int;
    // k * inv == 1 + q * p
    let inv = 13877824140714322085int;
    let q = 4787856489426250814int;
    assert(k * inv == 1 + q * p);
    if lcg_after(a) == lcg_after(b) {
        let u = a * k + LCG_INCREMENT;
        let v = b * k + LCG_INCREMENT;
        vstd::arithmetic::div_mod::lemma_fundamental_div_mod(u, p);
        vstd::arithmetic::div_mod::lemma_fundamental_div_mod(v, p);
        let d = u / p - v / p;
        assert(u - v == p * d) by (nonlinear_arith)
            requires
                u == p * (u / p) + u % p,
                v == p * (v / p) + v % p,
                u % p == v % p,
                d == u / p - v / p,
        ;
        let w = a - b;
        assert(w * k == u - v) by (nonlinear_arith)
            requires
                u == a * k + LCG_INCREMENT,
                v == b * k + LCG_INCREMENT,
                w == a - b,
        ;
        let m = d * inv - w * q;
        assert(w == p * m) by (nonlinear_arith)
            requires
                w * k == p * d,
                k * inv == 1 + q * p,
                m == d * inv - w * q,
        {
            assert(w * k * inv == p * d * inv);
            assert(w * (k * inv) == w * k * inv);
            assert(w * (1 + q * p) == w + w * q * p);
        }
        assert(m == 0) by (nonlinear_arith)
            requires
                w == p * m,
                -p < w < p,
                p > 0,
        ;
    }
}

/// A step of the xorshift sequence in numbers: the bits are combined with those of the number times
/// two to the thirteenth, of a 128th of the result, and of that result times two to the seventeenth,
/// each modulo the word size.
pub proof fn lemma_xorshift_in_numbers(x: u64, a: u64, b: u64, up: u64, down: u64, far: u64)
    requires
        up == (x * 0x2000) % 0x1_0000_0000_0000_0000,
        a == x ^ up,
        down == a / 128,
        b == a ^ down,
        far == (b * 0x2_0000) % 0x1_0000_0000_0000_0000,
    ensures
        xorshift_after(x) == b ^ far,
{
    assert(x << 13 == (x * 0x2000) % 0x1_0000_0000_0000_0000) by (bit_vector);
    assert(a >> 7 == a / 128) by (bit_vector);
    assert(b << 17 == (b * 0x2_0000) % 0x1_0000_0000_0000_0000) by (bit_vector);
}

/// A step of the linear congruential sequence, and what it yields, in numbers.
pub proof fn lemma_lcg_in_numbers(s: u64, a: u64, b: u64, high: u64, upper: u64)
    requires
        high == s / 0x2_0000_0000,
        a == s ^ high,
        b == (a * 0xDA94_2042_E4DD_58B5) % 0x1_0000_0000_0000_0000,
        upper == b / 0x1_0000_0000,
    ensures
        lcg_after(s) == (s * 6364136223846793005 + 1442695040888963407) % 0x1_0000_0000_0000_0000,
        lcg_output(s) == (b ^ upper) / 2048,
{
    assert(s >> 33 == s / 0x2_0000_0000) by (bit_vector);
    assert(b >> 32 == b / 0x1_0000_0000) by (bit_vector);
}

/// The seeds are moved by the same amount, and a fraction has so many parts.
pub proof fn lemma_seeds()
    ensures
        XORSHIFT_FALLBACK == 0x9E37_79B9_7F4A_7C15,
        LCG_SEED_OFFSET == XORSHIFT_FALLBACK,
        UNIT_DENOMINATOR * 2048 == 0x1_0000_0000_0000_0000,
{
}

} // verus!
