//! Floating-point numbers by their bit patterns: order, sign and classification.

use vstd::prelude::*;

verus! {

/// A binary32 number held as its bit pattern.
///
/// The simulator computes with hardware floating point; what this library decides about such a
/// number (its order, its sign, whether it is a number at all) depends on the bit pattern alone.
/// `==` on this type compares bit patterns; [`Float32::lt`] and its siblings compare as numbers.
#[derive(Clone, Copy, Debug, PartialEq, Eq, Structural)]
pub struct Float32 {
    pub bits: u32,
}

impl Float32 {
    /// The bits below the sign bit.
    pub open spec fn payload(self) -> int {
        self.bits as int % 0x8000_0000
    }

    pub open spec fn negative(self) -> bool {
        self.bits >= 0x8000_0000
    }

    /// The biased exponent field.
    pub open spec fn exponent(self) -> int {
        self.payload() / 0x80_0000
    }

    /// The fraction field.
    pub open spec fn fraction(self) -> int {
        self.payload() % 0x80_0000
    }

    pub open spec fn nan(self) -> bool {
        self.exponent() == 255 && self.fraction() != 0
    }

    pub open spec fn finite(self) -> bool {
        self.exponent() < 255
    }

    /// The absolute value, in units of the least positive number. An infinity gets the value that
    /// continues the scale beyond the greatest finite number.
    pub open spec fn magnitude(self) -> int {
        if self.exponent() == 0 {
            self.fraction()
        } else {
            (0x80_0000 + self.fraction()) * vstd::arithmetic::power2::pow2(
                (self.exponent() - 1) as nat,
            ) as int
        }
    }

    /// The number, in units of the least positive number.
    pub open spec fn value(self) -> int {
        if self.negative() {
            -self.magnitude()
        } else {
            self.magnitude()
        }
    }

    /// The position of the number on the scale of all representable numbers, zero at zero.
    /// It orders the numbers as [`Float32::value`] does: see [`lemma_rank32_orders_values`].
    pub open spec fn rank(self) -> int {
        if self.negative() {
            -self.payload()
        } else {
            self.payload()
        }
    }

    /// `self < other` of the floating-point standard: false where either is no number.
    pub open spec fn less(self, other: Self) -> bool {
        !self.nan() && !other.nan() && self.rank() < other.rank()
    }

    /// `self <= other` of the floating-point standard.
    pub open spec fn at_most(self, other: Self) -> bool {
        !self.nan() && !other.nan() && self.rank() <= other.rank()
    }

    /// The same number with the opposite sign.
    pub open spec fn negated(self) -> Self {
        Float32 {
            bits: if self.bits >= 0x8000_0000 {
                (self.bits - 0x8000_0000) as u32
            } else {
                (self.bits + 0x8000_0000) as u32
            },
        }
    }

    /// The number without its sign.
    pub open spec fn absolute(self) -> Self {
        Float32 { bits: (self.bits as int % 0x8000_0000) as u32 }
    }

    /// The greater of two, where one that is no number counts for nothing.
    pub open spec fn greater_of(self, other: Self) -> Self {
        if self.nan() {
            other
        } else if other.nan() || other.rank() <= self.rank() {
            self
        } else {
            other
        }
    }

    /// The lesser of two, where one that is no number counts for nothing.
    pub open spec fn lesser_of(self, other: Self) -> Self {
        if self.nan() {
            other
        } else if other.nan() || self.rank() <= other.rank() {
            self
        } else {
            other
        }
    }

    /// The number held between two bounds; one that is no number stays as it is.
    pub open spec fn held_between(self, lo: Self, hi: Self) -> Self {
        if self.less(lo) {
            lo
        } else if hi.less(self) {
            hi
        } else {
            self
        }
    }

    #[verifier::allow_in_spec]
    pub fn from_bits(bits: u32) -> (r: Self)
        returns
            (Float32 { bits }),
    {
        Float32 { bits }
    }

    pub fn to_bits(self) -> (r: u32)
        ensures
            r == self.bits,
    {
        self.bits
    }

    fn signed_rank(self) -> (r: i64)
        ensures
            r == self.rank(),
    {
        let m: i64 = (self.bits % 0x8000_0000) as i64;
        if self.bits >= 0x8000_0000 {
            -m
        } else {
            m
        }
    }

    pub fn is_nan(self) -> (r: bool)
        ensures
            r == self.nan(),
    {
        self.bits % 0x8000_0000 > 0x7F80_0000
    }

    pub fn is_finite(self) -> (r: bool)
        ensures
            r == self.finite(),
    {
        self.bits % 0x8000_0000 < 0x7F80_0000
    }

    pub fn lt(self, other: Self) -> (r: bool)
        ensures
            r == self.less(other),
    {
        !self.is_nan() && !other.is_nan() && self.signed_rank() < other.signed_rank()
    }

    pub fn le(self, other: Self) -> (r: bool)
        ensures
            r == self.at_most(other),
    {
        !self.is_nan() && !other.is_nan() && self.signed_rank() <= other.signed_rank()
    }

    pub fn neg(self) -> (r: Self)
        ensures
            r == self.negated(),
    {
        if self.bits >= 0x8000_0000 {
            Float32 { bits: self.bits - 0x8000_0000 }
        } else {
            Float32 { bits: self.bits + 0x8000_0000 }
        }
    }

    pub fn abs(self) -> (r: Self)
        ensures
            r == self.absolute(),
    {
        Float32 { bits: self.bits % 0x8000_0000 }
    }

    pub fn max(self, other: Self) -> (r: Self)
        ensures
            r == self.greater_of(other),
    {
        if self.is_nan() || self.lt(other) {
            other
        } else {
            self
        }
    }

    pub fn min(self, other: Self) -> (r: Self)
        ensures
            r == self.lesser_of(other),
    {
        if self.is_nan() || other.lt(self) {
            other
        } else {
            self
        }
    }

    pub fn clamp(self, lo: Self, hi: Self) -> (r: Self)
        requires
            lo.at_most(hi),
        ensures
            r == self.held_between(lo, hi),
    {
        if self.lt(lo) {
            lo
        } else if hi.lt(self) {
            hi
        } else {
            self
        }
    }
}

proof fn lemma_magnitude32_strict(a: Float32, b: Float32)
    requires
        a.payload() < b.payload(),
    ensures
        a.magnitude() < b.magnitude(),
{
    let (ea, fa) = (a.exponent(), a.fraction());
    let (eb, fb) = (b.exponent(), b.fraction());
    assert(a.payload() == ea * 0x80_0000 + fa);
    assert(b.payload() == eb * 0x80_0000 + fb);
    assert(ea <= eb);
    if eb > 0 {
        let pb = vstd::arithmetic::power2::pow2((eb - 1) as nat) as int;
        vstd::arithmetic::power2::lemma_pow2_pos((eb - 1) as nat);
        if ea == 0 {
            assert((0x80_0000 + fb) * pb >= 0x80_0000) by (nonlinear_arith)
                requires
                    pb >= 1,
                    fb >= 0,
            ;
        } else {
            let pa = vstd::arithmetic::power2::pow2((ea - 1) as nat) as int;
            vstd::arithmetic::power2::lemma_pow2_pos((ea - 1) as nat);
            if ea == eb {
                assert((0x80_0000 + fa) * pa < (0x80_0000 + fb) * pa) by (nonlinear_arith)
                    requires
                        pa >= 1,
                        fa < fb,
                ;
            } else {
                vstd::arithmetic::power2::lemma_pow2_unfold(ea as nat);
                if ea < eb - 1 {
                    vstd::arithmetic::power2::lemma_pow2_strictly_increases(
                        ea as nat,
                        (eb - 1) as nat,
                    );
                }
                assert(2 * pa <= pb);
                assert((0x80_0000 + fa) * pa < (0x80_0000 + fb) * pb) by (nonlinear_arith)
                    requires
                        2 * pa <= pb,
                        pa >= 1,
                        0 <= fa < 0x80_0000,
                        fb >= 0,
                ;
            }
        }
    }
}

/// Rank and value order any two numbers alike; they agree on which are equal too, and zero, of
/// either sign, is the one number of value zero.
pub proof fn lemma_rank32_orders_values(a: Float32, b: Float32)
    ensures
        a.rank() < b.rank() <==> a.value() < b.value(),
        a.rank() == b.rank() <==> a.value() == b.value(),
        a.rank() == 0 <==> a.value() == 0,
{
    lemma_magnitude32_nonneg(a);
    lemma_magnitude32_nonneg(b);
    if a.payload() < b.payload() {
        lemma_magnitude32_strict(a, b);
    } else if b.payload() < a.payload() {
        lemma_magnitude32_strict(b, a);
    } else {
        assert(a.exponent() == b.exponent());
        assert(a.magnitude() == b.magnitude());
    }
}

proof fn lemma_magnitude32_nonneg(a: Float32)
    ensures
        a.payload() == 0 ==> a.magnitude() == 0,
        a.payload() > 0 ==> a.magnitude() > 0,
        a.magnitude() >= 0,
{
    if a.payload() > 0 {
        let zero = Float32 { bits: 0 };
        assert(zero.magnitude() == 0);
        lemma_magnitude32_strict(zero, a);
    }
}

/// Changing the sign twice gives the number back, bit for bit; once, it reflects the scale.
pub proof fn lemma_negation32(a: Float32)
    ensures
        a.negated().negated() == a,
        a.negated().rank() == -a.rank(),
        a.negated().nan() == a.nan(),
        a.negated().finite() == a.finite(),
        a.negated().absolute() == a.absolute(),
{
}

/// Any two numbers stand in exactly one of the three relations less, equal and greater; one that
/// is no number stands in none.
pub proof fn lemma_trichotomy32(a: Float32, b: Float32)
    ensures
        a.nan() || b.nan() ==> !a.less(b) && !b.less(a) && !a.at_most(b) && !b.at_most(a),
        !a.nan() && !b.nan() ==> (a.less(b) || b.less(a) || a.rank() == b.rank()),
        !(a.less(b) && b.less(a)),
        a.less(b) ==> a.rank() != b.rank(),
        !a.nan() && !b.nan() ==> (a.at_most(b) <==> !b.less(a)),
{
}

/// Numbers are compared by what they are worth. One that is no number is neither less nor more than
/// any other.
pub proof fn lemma_order32(a: Float32, b: Float32)
    ensures
        a.less(b) <==> !a.nan() && !b.nan() && a.value() < b.value(),
        a.at_most(b) <==> !a.nan() && !b.nan() && a.value() <= b.value(),
{
    lemma_rank32_orders_values(a, b);
}

/// The least patterns count the least positive number, and from there on the next power of two holds
/// the same numbers twice as large.
pub proof fn lemma_scale32(a: Float32, b: Float32)
    ensures
        a.payload() < 0x80_0000 ==> a.magnitude() == a.payload(),
        0x80_0000 <= a.payload() < 2 * 0x80_0000 ==> a.magnitude() == a.payload(),
        a.payload() >= 0x80_0000 && b.payload() == a.payload() + 0x80_0000 ==> b.magnitude() == 2
            * a.magnitude(),
        a.value() == a.magnitude() || a.value() == -a.magnitude(),
        a.magnitude() >= 0,
{
    lemma_magnitude32_nonneg(a);
    vstd::arithmetic::power2::lemma2_to64();
    if a.payload() >= 0x80_0000 {
        let e = a.exponent();
        let h = vstd::arithmetic::power2::pow2((e - 1) as nat) as int;
        if e == 1 {
            assert((0x80_0000 + a.fraction()) * h == 0x80_0000 + a.fraction()) by (nonlinear_arith)
                requires
                    h == 1,
            ;
        }
        if b.payload() == a.payload() + 0x80_0000 {
            assert(b.exponent() == e + 1);
            assert(b.fraction() == a.fraction());
            vstd::arithmetic::power2::lemma_pow2_unfold(e as nat);
            let m = 0x80_0000 + a.fraction();
            assert(m * (2 * h) == 2 * (m * h)) by (nonlinear_arith);
        }
    }
}

/// A number without its sign is worth as much or as much the other way, and never less than nothing.
/// Turning the sign round turns the worth round.
pub proof fn lemma_signs32(a: Float32)
    ensures
        a.absolute().value() == if a.value() < 0 {
            -a.value()
        } else {
            a.value()
        },
        a.negated().value() == -a.value(),
        a.absolute().nan() == a.nan(),
        a.negated().nan() == a.nan(),
        a.absolute().finite() == a.finite(),
        a.absolute().payload() == a.payload() && !a.absolute().negative(),
        a.negated().payload() == a.payload() && a.negated().negative() != a.negative(),
        a.value() > 0 ==> !a.negative(),
        a.value() < 0 ==> a.negative(),
        a.nan() <==> a.payload() > 0x7F80_0000,
        a.finite() <==> a.payload() < 0x7F80_0000,
{
    lemma_magnitude32_nonneg(a);
    assert(a.absolute().payload() == a.payload());
    assert(a.negated().payload() == a.payload());
    assert(a.absolute().magnitude() == a.magnitude());
    assert(a.negated().magnitude() == a.magnitude());
}

/// The greater and the lesser of two numbers are these two, in this order, and of two that are worth
/// the same both are the first; one that is no number leaves the other as it is.
pub proof fn lemma_extremes32(a: Float32, b: Float32)
    ensures
        !a.nan() && !b.nan() ==> {
            &&& a.greater_of(b) == a || a.greater_of(b) == b
            &&& a.lesser_of(b) == a || a.lesser_of(b) == b
            &&& a.value() <= a.greater_of(b).value() && b.value() <= a.greater_of(b).value()
            &&& a.lesser_of(b).value() <= a.value() && a.lesser_of(b).value() <= b.value()
            &&& a.value() == b.value() ==> a.greater_of(b) == a && a.lesser_of(b) == a
        },
        a.nan() ==> a.greater_of(b) == b && a.lesser_of(b) == b,
        !a.nan() && b.nan() ==> a.greater_of(b) == a && a.lesser_of(b) == a,
{
    lemma_rank32_orders_values(a, b);
    lemma_rank32_orders_values(b, a);
}

/// A number held between two bounds is the nearest to it that lies between them; one that lies there
/// already, and one that is no number, stay as they are.
pub proof fn lemma_held32(a: Float32, lo: Float32, hi: Float32)
    requires
        !lo.nan() && !hi.nan(),
        lo.value() <= hi.value(),
    ensures
        a.nan() ==> a.held_between(lo, hi) == a,
        !a.nan() && lo.value() <= a.value() <= hi.value() ==> a.held_between(lo, hi) == a,
        !a.nan() && a.value() < lo.value() ==> a.held_between(lo, hi) == lo,
        !a.nan() && hi.value() < a.value() ==> a.held_between(lo, hi) == hi,
{
    lemma_order32(a, lo);
    lemma_order32(hi, a);
}

/// One, in units of the least positive number.
pub open spec fn one32() -> int {
    vstd::arithmetic::power2::pow2(149) as int
}

/// The number is the fraction `p` of `q`, as near as it can be held.
pub open spec fn is_ratio32(a: Float32, p: int, q: int) -> bool {
    let miss = a.value() * q - p * one32();
    &&& a.finite()
    &&& q > 0
    &&& miss * 0x100_0000 <= if p < 0 {
        -p * one32()
    } else {
        p * one32()
    }
    &&& -miss * 0x100_0000 <= if p < 0 {
        -p * one32()
    } else {
        p * one32()
    }
}

/// A pattern by its sign, its exponent and its fraction, held against a fraction. `halvings` are those
/// from one to the last place of the pattern.
pub proof fn lemma_ratio32(a: Float32, p: int, q: int, halvings: nat)
    requires
        q > 0,
        1 <= a.exponent() < 255,
        a.exponent() + halvings == 149 + 1,
        ({
            let unit = vstd::arithmetic::power2::pow2(halvings) as int;
            let m = if a.negative() {
                -(0x80_0000 + a.fraction())
            } else {
                0x80_0000 + a.fraction()
            };
            let size = if p < 0 {
                -p * unit
            } else {
                p * unit
            };
            &&& (m * q - p * unit) * 0x100_0000 <= size
            &&& -(m * q - p * unit) * 0x100_0000 <= size
        }),
    ensures
        is_ratio32(a, p, q),
{
    let unit = vstd::arithmetic::power2::pow2(halvings) as int;
    let h = vstd::arithmetic::power2::pow2((a.exponent() - 1) as nat) as int;
    vstd::arithmetic::power2::lemma_pow2_adds(halvings, (a.exponent() - 1) as nat);
    vstd::arithmetic::power2::lemma_pow2_pos((a.exponent() - 1) as nat);
    let m = if a.negative() {
        -(0x80_0000 + a.fraction())
    } else {
        0x80_0000 + a.fraction()
    };
    assert((-(0x80_0000 + a.fraction())) * h == -((0x80_0000 + a.fraction()) * h)) by (nonlinear_arith);
    let d = m * q - p * unit;
    let big = if p < 0 {
        -p * unit
    } else {
        p * unit
    };
    let miss = a.value() * q - p * one32();
    assert(miss == d * h) by (nonlinear_arith)
        requires
            miss == (m * h) * q - p * (unit * h),
            d == m * q - p * unit,
    ;
    assert(-p * (unit * h) == (-p * unit) * h) by (nonlinear_arith);
    assert(p * (unit * h) == (p * unit) * h) by (nonlinear_arith);
    assert((d * h) * 0x100_0000 <= big * h) by (nonlinear_arith)
        requires
            d * 0x100_0000 <= big,
            h > 0,
    ;
    assert(-(d * h) * 0x100_0000 <= big * h) by (nonlinear_arith)
        requires
            -d * 0x100_0000 <= big,
            h > 0,
    ;
}

/// A pattern that is a fraction exactly.
pub proof fn lemma_exact32(a: Float32, p: int, q: int, halvings: nat)
    requires
        1 <= a.exponent() < 255,
        a.exponent() + halvings == 149 + 1,
        (if a.negative() {
            -(0x80_0000 + a.fraction())
        } else {
            0x80_0000 + a.fraction()
        }) * q == p * vstd::arithmetic::power2::pow2(halvings),
    ensures
        a.value() * q == p * one32(),
{
    let unit = vstd::arithmetic::power2::pow2(halvings) as int;
    let h = vstd::arithmetic::power2::pow2((a.exponent() - 1) as nat) as int;
    vstd::arithmetic::power2::lemma_pow2_adds(halvings, (a.exponent() - 1) as nat);
    let m = if a.negative() {
        -(0x80_0000 + a.fraction())
    } else {
        0x80_0000 + a.fraction()
    };
    assert((-(0x80_0000 + a.fraction())) * h == -((0x80_0000 + a.fraction()) * h)) by (nonlinear_arith);
    assert((m * h) * q == p * (unit * h)) by (nonlinear_arith)
        requires
            m * q == p * unit,
    ;
}

/// A binary64 number held as its bit pattern.
///
/// The simulator computes with hardware floating point; what this library decides about such a
/// number (its order, its sign, whether it is a number at all) depends on the bit pattern alone.
/// `==` on this type compares bit patterns; [`Float64::lt`] and its siblings compare as numbers.
#[derive(Clone, Copy, Debug, PartialEq, Eq, Structural)]
pub struct Float64 {
    pub bits: u64,
}

impl Float64 {
    /// The bits below the sign bit.
    pub open spec fn payload(self) -> int {
        self.bits as int % 0x8000_0000_0000_0000
    }

    pub open spec fn negative(self) -> bool {
        self.bits >= 0x8000_0000_0000_0000
    }

    /// The biased exponent field.
    pub open spec fn exponent(self) -> int {
        self.payload() / 0x10_0000_0000_0000
    }

    /// The fraction field.
    pub open spec fn fraction(self) -> int {
        self.payload() % 0x10_0000_0000_0000
    }

    pub open spec fn nan(self) -> bool {
        self.exponent() == 2047 && self.fraction() != 0
    }

    pub open spec fn finite(self) -> bool {
        self.exponent() < 2047
    }

    /// The absolute value, in units of the least positive number. An infinity gets the value that
    /// continues the scale beyond the greatest finite number.
    pub open spec fn magnitude(self) -> int {
        if self.exponent() == 0 {
            self.fraction()
        } else {
            (0x10_0000_0000_0000 + self.fraction()) * vstd::arithmetic::power2::pow2(
                (self.exponent() - 1) as nat,
            ) as int
        }
    }

    /// The number, in units of the least positive number.
    pub open spec fn value(self) -> int {
        if self.negative() {
            -self.magnitude()
        } else {
            self.magnitude()
        }
    }

    /// The position of the number on the scale of all representable numbers, zero at zero.
    /// It orders the numbers as [`Float64::value`] does: see [`lemma_rank64_orders_values`].
    pub open spec fn rank(self) -> int {
        if self.negative() {
            -self.payload()
        } else {
            self.payload()
        }
    }

    /// `self < other` of the floating-point standard: false where either is no number.
    pub open spec fn less(self, other: Self) -> bool {
        !self.nan() && !other.nan() && self.rank() < other.rank()
    }

    /// `self <= other` of the floating-point standard.
    pub open spec fn at_most(self, other: Self) -> bool {
        !self.nan() && !other.nan() && self.rank() <= other.rank()
    }

    /// The same number with the opposite sign.
    pub open spec fn negated(self) -> Self {
        Float64 {
            bits: if self.bits >= 0x8000_0000_0000_0000 {
                (self.bits - 0x8000_0000_0000_0000) as u64
            } else {
                (self.bits + 0x8000_0000_0000_0000) as u64
            },
        }
    }

    /// The number without its sign.
    pub open spec fn absolute(self) -> Self {
        Float64 { bits: (self.bits as int % 0x8000_0000_0000_0000) as u64 }
    }

    /// The greater of two, where one that is no number counts for nothing.
    pub open spec fn greater_of(self, other: Self) -> Self {
        if self.nan() {
            other
        } else if other.nan() || other.rank() <= self.rank() {
            self
        } else {
            other
        }
    }

    /// The lesser of two, where one that is no number counts for nothing.
    pub open spec fn lesser_of(self, other: Self) -> Self {
        if self.nan() {
            other
        } else if other.nan() || self.rank() <= other.rank() {
            self
        } else {
            other
        }
    }

    /// The number held between two bounds; one that is no number stays as it is.
    pub open spec fn held_between(self, lo: Self, hi: Self) -> Self {
        if self.less(lo) {
            lo
        } else if hi.less(self) {
            hi
        } else {
            self
        }
    }

    #[verifier::allow_in_spec]
    pub fn from_bits(bits: u64) -> (r: Self)
        returns
            (Float64 { bits }),
    {
        Float64 { bits }
    }

    pub fn to_bits(self) -> (r: u64)
        ensures
            r == self.bits,
    {
        self.bits
    }

    fn signed_rank(self) -> (r: i128)
        ensures
            r == self.rank(),
    {
        let m: i128 = (self.bits % 0x8000_0000_0000_0000) as i128;
        if self.bits >= 0x8000_0000_0000_0000 {
            -m
        } else {
            m
        }
    }

    pub fn is_nan(self) -> (r: bool)
        ensures
            r == self.nan(),
    {
        self.bits % 0x8000_0000_0000_0000 > 0x7FF0_0000_0000_0000
    }

    pub fn is_finite(self) -> (r: bool)
        ensures
            r == self.finite(),
    {
        self.bits % 0x8000_0000_0000_0000 < 0x7FF0_0000_0000_0000
    }

    pub fn lt(self, other: Self) -> (r: bool)
        ensures
            r == self.less(other),
    {
        !self.is_nan() && !other.is_nan() && self.signed_rank() < other.signed_rank()
    }

    pub fn le(self, other: Self) -> (r: bool)
        ensures
            r == self.at_most(other),
    {
        !self.is_nan() && !other.is_nan() && self.signed_rank() <= other.signed_rank()
    }

    pub fn neg(self) -> (r: Self)
        ensures
            r == self.negated(),
    {
        if self.bits >= 0x8000_0000_0000_0000 {
            Float64 { bits: self.bits - 0x8000_0000_0000_0000 }
        } else {
            Float64 { bits: self.bits + 0x8000_0000_0000_0000 }
        }
    }

    pub fn abs(self) -> (r: Self)
        ensures
            r == self.absolute(),
    {
        Float64 { bits: self.bits % 0x8000_0000_0000_0000 }
    }

    pub fn max(self, other: Self) -> (r: Self)
        ensures
            r == self.greater_of(other),
    {
        if self.is_nan() || self.lt(other) {
            other
        } else {
            self
        }
    }

    pub fn min(self, other: Self) -> (r: Self)
        ensures
            r == self.lesser_of(other),
    {
        if self.is_nan() || other.lt(self) {
            other
        } else {
            self
        }
    }

    pub fn clamp(self, lo: Self, hi: Self) -> (r: Self)
        requires
            lo.at_most(hi),
        ensures
            r == self.held_between(lo, hi),
    {
        if self.lt(lo) {
            lo
        } else if hi.lt(self) {
            hi
        } else {
            self
        }
    }
}

proof fn lemma_magnitude64_strict(a: Float64, b: Float64)
    requires
        a.payload() < b.payload(),
    ensures
        a.magnitude() < b.magnitude(),
{
    let (ea, fa) = (a.exponent(), a.fraction());
    let (eb, fb) = (b.exponent(), b.fraction());
    assert(a.payload() == ea * 0x10_0000_0000_0000 + fa);
    assert(b.payload() == eb * 0x10_0000_0000_0000 + fb);
    assert(ea <= eb);
    if eb > 0 {
        let pb = vstd::arithmetic::power2::pow2((eb - 1) as nat) as int;
        vstd::arithmetic::power2::lemma_pow2_pos((eb - 1) as nat);
        if ea == 0 {
            assert((0x10_0000_0000_0000 + fb) * pb >= 0x10_0000_0000_0000) by (nonlinear_arith)
                requires
                    pb >= 1,
                    fb >= 0,
            ;
        } else {
            let pa = vstd::arithmetic::power2::pow2((ea - 1) as nat) as int;
            vstd::arithmetic::power2::lemma_pow2_pos((ea - 1) as nat);
            if ea == eb {
                assert((0x10_0000_0000_0000 + fa) * pa < (0x10_0000_0000_0000 + fb) * pa) by (nonlinear_arith)
                    requires
                        pa >= 1,
                        fa < fb,
                ;
            } else {
                vstd::arithmetic::power2::lemma_pow2_unfold(ea as nat);
                if ea < eb - 1 {
                    vstd::arithmetic::power2::lemma_pow2_strictly_increases(
                        ea as nat,
                        (eb - 1) as nat,
                    );
                }
                assert(2 * pa <= pb);
                assert((0x10_0000_0000_0000 + fa) * pa < (0x10_0000_0000_0000 + fb) * pb) by (nonlinear_arith)
                    requires
                        2 * pa <= pb,
                        pa >= 1,
                        0 <= fa < 0x10_0000_0000_0000,
                        fb >= 0,
                ;
            }
        }
    }
}

/// Rank and value order any two numbers alike; they agree on which are equal too, and zero, of
/// either sign, is the one number of value zero.
pub proof fn lemma_rank64_orders_values(a: Float64, b: Float64)
    ensures
        a.rank() < b.rank() <==> a.value() < b.value(),
        a.rank() == b.rank() <==> a.value() == b.value(),
        a.rank() == 0 <==> a.value() == 0,
{
    lemma_magnitude64_nonneg(a);
    lemma_magnitude64_nonneg(b);
    if a.payload() < b.payload() {
        lemma_magnitude64_strict(a, b);
    } else if b.payload() < a.payload() {
        lemma_magnitude64_strict(b, a);
    } else {
        assert(a.exponent() == b.exponent());
        assert(a.magnitude() == b.magnitude());
    }
}

proof fn lemma_magnitude64_nonneg(a: Float64)
    ensures
        a.payload() == 0 ==> a.magnitude() == 0,
        a.payload() > 0 ==> a.magnitude() > 0,
        a.magnitude() >= 0,
{
    if a.payload() > 0 {
        let zero = Float64 { bits: 0 };
        assert(zero.magnitude() == 0);
        lemma_magnitude64_strict(zero, a);
    }
}

/// Changing the sign twice gives the number back, bit for bit; once, it reflects the scale.
pub proof fn lemma_negation64(a: Float64)
    ensures
        a.negated().negated() == a,
        a.negated().rank() == -a.rank(),
        a.negated().nan() == a.nan(),
        a.negated().finite() == a.finite(),
        a.negated().absolute() == a.absolute(),
{
}

/// Any two numbers stand in exactly one of the three relations less, equal and greater; one that
/// is no number stands in none.
pub proof fn lemma_trichotomy64(a: Float64, b: Float64)
    ensures
        a.nan() || b.nan() ==> !a.less(b) && !b.less(a) && !a.at_most(b) && !b.at_most(a),
        !a.nan() && !b.nan() ==> (a.less(b) || b.less(a) || a.rank() == b.rank()),
        !(a.less(b) && b.less(a)),
        a.less(b) ==> a.rank() != b.rank(),
        !a.nan() && !b.nan() ==> (a.at_most(b) <==> !b.less(a)),
{
}

/// Numbers are compared by what they are worth. One that is no number is neither less nor more than
/// any other.
pub proof fn lemma_order64(a: Float64, b: Float64)
    ensures
        a.less(b) <==> !a.nan() && !b.nan() && a.value() < b.value(),
        a.at_most(b) <==> !a.nan() && !b.nan() && a.value() <= b.value(),
{
    lemma_rank64_orders_values(a, b);
}

/// The least patterns count the least positive number, and from there on the next power of two holds
/// the same numbers twice as large.
pub proof fn lemma_scale64(a: Float64, b: Float64)
    ensures
        a.payload() < 0x10_0000_0000_0000 ==> a.magnitude() == a.payload(),
        0x10_0000_0000_0000 <= a.payload() < 2 * 0x10_0000_0000_0000 ==> a.magnitude() == a.payload(),
        a.payload() >= 0x10_0000_0000_0000 && b.payload() == a.payload() + 0x10_0000_0000_0000 ==> b.magnitude() == 2
            * a.magnitude(),
        a.value() == a.magnitude() || a.value() == -a.magnitude(),
        a.magnitude() >= 0,
{
    lemma_magnitude64_nonneg(a);
    vstd::arithmetic::power2::lemma2_to64();
    if a.payload() >= 0x10_0000_0000_0000 {
        let e = a.exponent();
        let h = vstd::arithmetic::power2::pow2((e - 1) as nat) as int;
        if e == 1 {
            assert((0x10_0000_0000_0000 + a.fraction()) * h == 0x10_0000_0000_0000 + a.fraction()) by (nonlinear_arith)
                requires
                    h == 1,
            ;
        }
        if b.payload() == a.payload() + 0x10_0000_0000_0000 {
            assert(b.exponent() == e + 1);
            assert(b.fraction() == a.fraction());
            vstd::arithmetic::power2::lemma_pow2_unfold(e as nat);
            let m = 0x10_0000_0000_0000 + a.fraction();
            assert(m * (2 * h) == 2 * (m * h)) by (nonlinear_arith);
        }
    }
}

/// A number without its sign is worth as much or as much the other way, and never less than nothing.
/// Turning the sign round turns the worth round.
pub proof fn lemma_signs64(a: Float64)
    ensures
        a.absolute().value() == if a.value() < 0 {
            -a.value()
        } else {
            a.value()
        },
        a.negated().value() == -a.value(),
        a.absolute().nan() == a.nan(),
        a.negated().nan() == a.nan(),
        a.absolute().finite() == a.finite(),
        a.absolute().payload() == a.payload() && !a.absolute().negative(),
        a.negated().payload() == a.payload() && a.negated().negative() != a.negative(),
        a.value() > 0 ==> !a.negative(),
        a.value() < 0 ==> a.negative(),
        a.nan() <==> a.payload() > 0x7FF0_0000_0000_0000,
        a.finite() <==> a.payload() < 0x7FF0_0000_0000_0000,
{
    lemma_magnitude64_nonneg(a);
    assert(a.absolute().payload() == a.payload());
    assert(a.negated().payload() == a.payload());
    assert(a.absolute().magnitude() == a.magnitude());
    assert(a.negated().magnitude() == a.magnitude());
}

/// The greater and the lesser of two numbers are these two, in this order, and of two that are worth
/// the same both are the first; one that is no number leaves the other as it is.
pub proof fn lemma_extremes64(a: Float64, b: Float64)
    ensures
        !a.nan() && !b.nan() ==> {
            &&& a.greater_of(b) == a || a.greater_of(b) == b
            &&& a.lesser_of(b) == a || a.lesser_of(b) == b
            &&& a.value() <= a.greater_of(b).value() && b.value() <= a.greater_of(b).value()
            &&& a.lesser_of(b).value() <= a.value() && a.lesser_of(b).value() <= b.value()
            &&& a.value() == b.value() ==> a.greater_of(b) == a && a.lesser_of(b) == a
        },
        a.nan() ==> a.greater_of(b) == b && a.lesser_of(b) == b,
        !a.nan() && b.nan() ==> a.greater_of(b) == a && a.lesser_of(b) == a,
{
    lemma_rank64_orders_values(a, b);
    lemma_rank64_orders_values(b, a);
}

/// A number held between two bounds is the nearest to it that lies between them; one that lies there
/// already, and one that is no number, stay as they are.
pub proof fn lemma_held64(a: Float64, lo: Float64, hi: Float64)
    requires
        !lo.nan() && !hi.nan(),
        lo.value() <= hi.value(),
    ensures
        a.nan() ==> a.held_between(lo, hi) == a,
        !a.nan() && lo.value() <= a.value() <= hi.value() ==> a.held_between(lo, hi) == a,
        !a.nan() && a.value() < lo.value() ==> a.held_between(lo, hi) == lo,
        !a.nan() && hi.value() < a.value() ==> a.held_between(lo, hi) == hi,
{
    lemma_order64(a, lo);
    lemma_order64(hi, a);
}

/// One, in units of the least positive number.
pub open spec fn one64() -> int {
    vstd::arithmetic::power2::pow2(1074) as int
}

/// The number is the fraction `p` of `q`, as near as it can be held.
pub open spec fn is_ratio64(a: Float64, p: int, q: int) -> bool {
    let miss = a.value() * q - p * one64();
    &&& a.finite()
    &&& q > 0
    &&& miss * 0x20_0000_0000_0000 <= if p < 0 {
        -p * one64()
    } else {
        p * one64()
    }
    &&& -miss * 0x20_0000_0000_0000 <= if p < 0 {
        -p * one64()
    } else {
        p * one64()
    }
}

/// A pattern by its sign, its exponent and its fraction, held against a fraction. `halvings` are those
/// from one to the last place of the pattern.
pub proof fn lemma_ratio64(a: Float64, p: int, q: int, halvings: nat)
    requires
        q > 0,
        1 <= a.exponent() < 2047,
        a.exponent() + halvings == 1074 + 1,
        ({
            let unit = vstd::arithmetic::power2::pow2(halvings) as int;
            let m = if a.negative() {
                -(0x10_0000_0000_0000 + a.fraction())
            } else {
                0x10_0000_0000_0000 + a.fraction()
            };
            let size = if p < 0 {
                -p * unit
            } else {
                p * unit
            };
            &&& (m * q - p * unit) * 0x20_0000_0000_0000 <= size
            &&& -(m * q - p * unit) * 0x20_0000_0000_0000 <= size
        }),
    ensures
        is_ratio64(a, p, q),
{
    let unit = vstd::arithmetic::power2::pow2(halvings) as int;
    let h = vstd::arithmetic::power2::pow2((a.exponent() - 1) as nat) as int;
    vstd::arithmetic::power2::lemma_pow2_adds(halvings, (a.exponent() - 1) as nat);
    vstd::arithmetic::power2::lemma_pow2_pos((a.exponent() - 1) as nat);
    let m = if a.negative() {
        -(0x10_0000_0000_0000 + a.fraction())
    } else {
        0x10_0000_0000_0000 + a.fraction()
    };
    assert((-(0x10_0000_0000_0000 + a.fraction())) * h == -((0x10_0000_0000_0000 + a.fraction()) * h)) by (nonlinear_arith);
    let d = m * q - p * unit;
    let big = if p < 0 {
        -p * unit
    } else {
        p * unit
    };
    let miss = a.value() * q - p * one64();
    assert(miss == d * h) by (nonlinear_arith)
        requires
            miss == (m * h) * q - p * (unit * h),
            d == m * q - p * unit,
    ;
    assert(-p * (unit * h) == (-p * unit) * h) by (nonlinear_arith);
    assert(p * (unit * h) == (p * unit) * h) by (nonlinear_arith);
    assert((d * h) * 0x20_0000_0000_0000 <= big * h) by (nonlinear_arith)
        requires
            d * 0x20_0000_0000_0000 <= big,
            h > 0,
    ;
    assert(-(d * h) * 0x20_0000_0000_0000 <= big * h) by (nonlinear_arith)
        requires
            -d * 0x20_0000_0000_0000 <= big,
            h > 0,
    ;
}

/// A pattern that is a fraction exactly.
pub proof fn lemma_exact64(a: Float64, p: int, q: int, halvings: nat)
    requires
        1 <= a.exponent() < 2047,
        a.exponent() + halvings == 1074 + 1,
        (if a.negative() {
            -(0x10_0000_0000_0000 + a.fraction())
        } else {
            0x10_0000_0000_0000 + a.fraction()
        }) * q == p * vstd::arithmetic::power2::pow2(halvings),
    ensures
        a.value() * q == p * one64(),
{
    let unit = vstd::arithmetic::power2::pow2(halvings) as int;
    let h = vstd::arithmetic::power2::pow2((a.exponent() - 1) as nat) as int;
    vstd::arithmetic::power2::lemma_pow2_adds(halvings, (a.exponent() - 1) as nat);
    let m = if a.negative() {
        -(0x10_0000_0000_0000 + a.fraction())
    } else {
        0x10_0000_0000_0000 + a.fraction()
    };
    assert((-(0x10_0000_0000_0000 + a.fraction())) * h == -((0x10_0000_0000_0000 + a.fraction()) * h)) by (nonlinear_arith);
    assert((m * h) * q == p * (unit * h)) by (nonlinear_arith)
        requires
            m * q == p * unit,
    ;
}

/// Powers of two that fractions are held against.
pub proof fn lemma_halvings()
    ensures
        vstd::arithmetic::power2::pow2(72) == 0x100_0000_0000_0000_0000,
        vstd::arithmetic::power2::pow2(80) == 0x1_0000_0000_0000_0000_0000,
        vstd::arithmetic::power2::pow2(82) == 0x4_0000_0000_0000_0000_0000,
        vstd::arithmetic::power2::pow2(92) == 0x1000_0000_0000_0000_0000_0000,
        forall|k: nat|
            64 <= k <= 92 ==> #[trigger] vstd::arithmetic::power2::pow2(k) == 0x1_0000_0000_0000_0000
                * vstd::arithmetic::power2::pow2((k - 64) as nat),
{
    vstd::arithmetic::power2::lemma2_to64();
    vstd::arithmetic::power2::lemma2_to64_rest();
    assert forall|k: nat|
        64 <= k <= 92 implies #[trigger] vstd::arithmetic::power2::pow2(k)
        == 0x1_0000_0000_0000_0000 * vstd::arithmetic::power2::pow2((k - 64) as nat) by {
        vstd::arithmetic::power2::lemma_pow2_adds(64, (k - 64) as nat);
    }
}

} // verus!
