//! Numbers as decimal text, and decimal text as numbers.
//!
//! The value of a number is exact: [`Float32::value`] counts the least positive number, which is two
//! to the power of minus [`LEAST`].

use crate::ieee::Float32;
use crate::text::{copy_range, push_padded, push_whole, split_chars};
use vstd::prelude::*;

verus! {

/// There are this many halvings from one to the least positive number.
pub const LEAST: u32 = 149;

/// The most digits behind the point that a number is written with or read from.
pub const MOST_BEHIND: usize = 30;

/// The most digits in all that a number is read from.
pub const MOST_DIGITS: usize = 37;

pub open spec fn ten_to(d: nat) -> nat
    decreases d,
{
    if d == 0 {
        1
    } else {
        10 * ten_to((d - 1) as nat)
    }
}

/// One, in units of the least positive number.
pub open spec fn one() -> int {
    vstd::arithmetic::power2::pow2(LEAST as nat) as int
}

/// A difference, without its sign.
pub open spec fn size(x: int) -> int {
    if x < 0 {
        -x
    } else {
        x
    }
}

/// The whole number nearest to a fraction; of two that are equally near, the even one.
pub open spec fn rounded(a: int, b: int) -> int {
    let (q, r) = (a / b, a % b);
    if 2 * r < b || (2 * r == b && q % 2 == 0) {
        q
    } else {
        q + 1
    }
}

/// The nearest whole number is nearest: no other is nearer, and where one is equally near, the
/// nearest is even.
pub proof fn lemma_rounded(a: int, b: int, w: int)
    requires
        b > 0,
    ensures
        2 * size(rounded(a, b) * b - a) <= b,
        size(rounded(a, b) * b - a) <= size(w * b - a),
        w != rounded(a, b) && size(w * b - a) == size(rounded(a, b) * b - a) ==> rounded(a, b) % 2
            == 0,
        a >= 0 ==> rounded(a, b) >= 0,
{
    let (q, r) = (a / b, a % b);
    let m = rounded(a, b);
    vstd::arithmetic::div_mod::lemma_fundamental_div_mod(a, b);
    vstd::arithmetic::div_mod::lemma_mod_bound(a, b);
    assert(b * q == q * b) by (nonlinear_arith);
    assert((q + 1) * b == q * b + b) by (nonlinear_arith);
    let k = w - q;
    assert(w * b == q * b + k * b) by (nonlinear_arith)
        requires
            w == q + k,
    ;
    if k >= 2 {
        assert(k * b >= 2 * b) by (nonlinear_arith)
            requires
                k >= 2,
                b > 0,
        ;
    } else if k == 1 {
        assert(k * b == b) by (nonlinear_arith)
            requires
                k == 1,
        ;
    } else if k == 0 {
        assert(k * b == 0) by (nonlinear_arith)
            requires
                k == 0,
        ;
    } else {
        assert(k * b <= -b) by (nonlinear_arith)
            requires
                k <= -1,
                b > 0,
        ;
    }
    if a >= 0 {
        assert(q >= 0) by (nonlinear_arith)
            requires
                a >= 0,
                b > 0,
                a == q * b + r,
                r < b,
        ;
    }
}

proof fn lemma_ten_to(a: nat, b: nat)
    requires
        a <= b,
    ensures
        0 < ten_to(a) <= ten_to(b),
    decreases b,
{
    if a < b {
        lemma_ten_to(a, (b - 1) as nat);
    } else if a > 0 {
        lemma_ten_to((a - 1) as nat, (b - 1) as nat);
    }
}

proof fn lemma_ten_to_adds(a: nat, b: nat)
    ensures
        ten_to(a + b) == ten_to(a) * ten_to(b),
    decreases b,
{
    if b == 0 {
        assert(ten_to(a) * 1 == ten_to(a)) by (nonlinear_arith);
    } else {
        lemma_ten_to_adds(a, (b - 1) as nat);
        let (x, y) = (ten_to(a), ten_to((b - 1) as nat));
        assert(10 * (x * y) == x * (10 * y)) by (nonlinear_arith);
    }
}

proof fn lemma_great_tens()
    ensures
        ten_to(9) == 1_000_000_000,
        ten_to(28) == 10_000_000_000_000_000_000_000_000_000,
        ten_to(30) == 1_000_000_000_000_000_000_000_000_000_000,
        ten_to(37) == 10_000_000_000_000_000_000_000_000_000_000_000_000,
{
    reveal_with_fuel(ten_to, 10);
    assert(ten_to(9) == 1_000_000_000);
    assert(ten_to(18) == 1_000_000_000_000_000_000);
    assert(ten_to(27) == 1_000_000_000_000_000_000_000_000_000);
    assert(ten_to(36) == 1_000_000_000_000_000_000_000_000_000_000_000_000);
}

proof fn lemma_great_powers()
    ensures
        vstd::arithmetic::power2::pow2(90) == 0x400_0000_0000_0000_0000_0000,
        vstd::arithmetic::power2::pow2(100) == 0x10_0000_0000_0000_0000_0000_0000,
        vstd::arithmetic::power2::pow2(127) == 0x8000_0000_0000_0000_0000_0000_0000_0000,
{
    vstd::arithmetic::power2::lemma2_to64();
    vstd::arithmetic::power2::lemma2_to64_rest();
    vstd::arithmetic::power2::lemma_pow2_adds(45, 45);
    vstd::arithmetic::power2::lemma_pow2_adds(50, 50);
    vstd::arithmetic::power2::lemma_pow2_adds(63, 64);
    assert(0x2000_0000_0000int * 0x2000_0000_0000 == 0x400_0000_0000_0000_0000_0000);
    assert(0x4_0000_0000_0000int * 0x4_0000_0000_0000 == 0x10_0000_0000_0000_0000_0000_0000);
    assert(0x8000_0000_0000_0000int * 0x1_0000_0000_0000_0000
        == 0x8000_0000_0000_0000_0000_0000_0000_0000);
}

/// Ten to a power.
fn power10(d: usize) -> (r: u128)
    requires
        d <= MOST_BEHIND,
    ensures
        r == ten_to(d as nat),
        0 < r <= 1_000_000_000_000_000_000_000_000_000_000,
{
    let mut p: u128 = 1;
    let mut i: usize = 0;
    proof {
        lemma_great_tens();
        lemma_ten_to(d as nat, 30);
    }
    while i < d
        invariant
            i <= d <= MOST_BEHIND,
            p == ten_to(i as nat),
        decreases d - i,
    {
        proof {
            lemma_great_tens();
            lemma_ten_to((i + 1) as nat, 30);
        }
        p = p * 10;
        i += 1;
    }
    p
}

/// Two to a power.
fn power2(k: u32) -> (r: u128)
    requires
        k <= 127,
    ensures
        r == vstd::arithmetic::power2::pow2(k as nat),
        r > 0,
{
    let mut p: u128 = 1;
    let mut i: u32 = 0;
    proof {
        vstd::arithmetic::power2::lemma2_to64();
    }
    while i < k
        invariant
            i <= k <= 127,
            p == vstd::arithmetic::power2::pow2(i as nat),
            p > 0,
        decreases k - i,
    {
        proof {
            lemma_great_powers();
            vstd::arithmetic::power2::lemma_pow2_unfold((i + 1) as nat);
            if i + 1 < 127 {
                vstd::arithmetic::power2::lemma_pow2_strictly_increases((i + 1) as nat, 127);
            }
        }
        p = p * 2;
        i += 1;
    }
    p
}

/// The nearest whole number, computed.
fn round(a: u128, b: u128) -> (r: u128)
    requires
        0 < b <= 0x8000_0000_0000_0000_0000_0000_0000_0000,
        a <= 0x8000_0000_0000_0000_0000_0000_0000_0000,
    ensures
        r == rounded(a as int, b as int),
        r <= a / b + 1,
{
    let q: u128 = a / b;
    let rest: u128 = a % b;
    assert(q <= a) by (nonlinear_arith)
        requires
            q == a / b,
            b > 0,
    ;
    if rest < b - rest || (rest == b - rest && q % 2 == 0) {
        q
    } else {
        q + 1
    }
}

/// A number of units of the last of `d` places behind the point, in decimal.
pub open spec fn fixed(n: nat, d: nat) -> Seq<char> {
    crate::text::decimal(n / ten_to(d)) + if d == 0 {
        Seq::empty()
    } else {
        seq!['.'] + crate::text::padded(n, d)
    }
}

/// A finite number without its sign, in units of the last of `d` places behind the point: the nearest
/// whole number of them.
pub open spec fn places_of(x: Float32, d: nat) -> nat {
    rounded(x.magnitude() * ten_to(d), one()) as nat
}

/// The text of a number with `d` places behind the point.
pub open spec fn number_text(x: Float32, d: nat) -> Seq<char> {
    if x.nan() {
        "NaN"@
    } else if !x.finite() {
        if x.negative() {
            "-inf"@
        } else {
            "inf"@
        }
    } else if x.negative() {
        seq!['-'] + fixed(places_of(x, d), d)
    } else {
        fixed(places_of(x, d), d)
    }
}

proof fn lemma_padded_rest(n: nat, d: nat)
    ensures
        crate::text::padded(n, d) == crate::text::padded(n % ten_to(d), d),
    decreases d,
{
    lemma_ten_to(d, d);
    if d > 0 {
        let e = (d - 1) as nat;
        let m = n % ten_to(d);
        lemma_ten_to(e, e);
        lemma_padded_rest(n / 10, e);
        lemma_padded_rest(m / 10, e);
        vstd::arithmetic::div_mod::lemma_mod_breakdown(n as int, 10, ten_to(e) as int);
        assert(10 * ten_to(e) == ten_to(d));
        assert(m == 10 * ((n / 10) % ten_to(e)) + n % 10);
        assert(m % 10 == n % 10);
        assert(m / 10 == (n / 10) % ten_to(e));
        vstd::arithmetic::div_mod::lemma_small_mod((n / 10) % ten_to(e), ten_to(e));
    }
}

/// Whole units and a rest of them: each is written on its side of the point.
proof fn lemma_fixed(whole: nat, rest: nat, d: nat)
    requires
        rest < ten_to(d),
    ensures
        (whole * ten_to(d) + rest) / ten_to(d) == whole,
        crate::text::padded(whole * ten_to(d) + rest, d) == crate::text::padded(rest, d),
{
    let p = ten_to(d) as int;
    let n = whole * ten_to(d) + rest;
    vstd::arithmetic::div_mod::lemma_fundamental_div_mod_converse(
        n as int,
        p,
        whole as int,
        rest as int,
    );
    lemma_padded_rest(n, d);
}

/// The whole part of a finite number without its sign, and the rest in units of the last place.
fn places(x: Float32, d: usize) -> (r: (u128, u128))
    requires
        x.finite(),
        d <= MOST_BEHIND,
    ensures
        r.0 * ten_to(d as nat) + r.1 == places_of(x, d as nat),
        r.1 < ten_to(d as nat),
{
    let payload: u32 = x.bits % 0x8000_0000;
    let exponent: u32 = payload / 0x80_0000;
    let fraction: u32 = payload % 0x80_0000;
    let m: u32 = if exponent == 0 {
        fraction
    } else {
        0x80_0000 + fraction
    };
    let k: u32 = if exponent == 0 {
        0
    } else {
        exponent - 1
    };
    let p: u128 = power10(d);
    let ghost pk = vstd::arithmetic::power2::pow2(k as nat) as int;
    proof {
        vstd::arithmetic::power2::lemma2_to64();
        vstd::arithmetic::power2::lemma_pow2_pos(LEAST as nat);
        assert(m * 1 == m) by (nonlinear_arith);
        assert(x.magnitude() == m * pk);
    }
    if k >= LEAST {
        let q: u128 = power2(k - LEAST);
        proof {
            lemma_great_powers();
            let top = vstd::arithmetic::power2::pow2(104) as int;
            vstd::arithmetic::power2::lemma_pow2_adds(104, 23);
            vstd::arithmetic::power2::lemma_pow2_adds(104, 24);
            vstd::arithmetic::power2::lemma_pow2_unfold(128);
            if k - LEAST < 104 {
                vstd::arithmetic::power2::lemma_pow2_strictly_increases((k - LEAST) as nat, 104);
            }
            assert(m * q < 0x100_0000 * top) by (nonlinear_arith)
                requires
                    0 <= m < 0x100_0000,
                    0 < q <= top,
            ;
            let unit = one();
            vstd::arithmetic::power2::lemma_pow2_adds((k - LEAST) as nat, LEAST as nat);
            let n = m * q * p;
            assert(m * pk * p == unit * n) by (nonlinear_arith)
                requires
                    pk == q * unit,
                    n == m * q * p,
            ;
            vstd::arithmetic::div_mod::lemma_fundamental_div_mod_converse(
                unit * n,
                unit,
                n,
                0,
            );
            assert(n >= 0) by (nonlinear_arith)
                requires
                    n == m * q * p,
                    m >= 0,
                    q >= 0,
                    p >= 0,
            ;
        }
        (m as u128 * q, 0)
    } else {
        let s: u32 = LEAST - k;
        let a: u128 = places_scaled(m, p);
        let ghost b = vstd::arithmetic::power2::pow2(s as nat) as int;
        proof {
            // a fraction is the same where both parts are taken as many times
            vstd::arithmetic::power2::lemma_pow2_adds(s as nat, k as nat);
            vstd::arithmetic::power2::lemma_pow2_pos(s as nat);
            vstd::arithmetic::power2::lemma_pow2_pos(k as nat);
            lemma_rounded_scaled(a as int, b, pk);
            assert(m * pk * p == a * pk) by (nonlinear_arith)
                requires
                    a == m * p,
            ;
            lemma_rounded(a as int, b, 0);
        }
        if s >= 127 {
            proof {
                lemma_great_powers();
                if s > 127 {
                    vstd::arithmetic::power2::lemma_pow2_strictly_increases(127, s as nat);
                }
                vstd::arithmetic::div_mod::lemma_fundamental_div_mod_converse(
                    a as int,
                    b,
                    0,
                    a as int,
                );
                assert(0 * p == 0) by (nonlinear_arith);
            }
            (0, 0)
        } else {
            let bx: u128 = power2(s);
            proof {
                lemma_great_powers();
                vstd::arithmetic::power2::lemma_pow2_strictly_increases(s as nat, 127);
            }
            let n: u128 = round(a, bx);
            proof {
                vstd::arithmetic::div_mod::lemma_fundamental_div_mod(n as int, p as int);
                assert(p * (n / p) == (n / p) * p) by (nonlinear_arith);
            }
            (n / p, n % p)
        }
    }
}

/// Digits of a number in units of the last place, before they are rounded.
fn places_scaled(m: u32, p: u128) -> (a: u128)
    requires
        m < 0x100_0000,
        p <= 1_000_000_000_000_000_000_000_000_000_000,
    ensures
        a == m * p,
        a < 0x2000_0000_0000_0000_0000_0000_0000_0000,
{
    assert(m * p <= 0x100_0000 * 1_000_000_000_000_000_000_000_000_000_000) by (nonlinear_arith)
        requires
            0 <= m < 0x100_0000,
            0 <= p <= 1_000_000_000_000_000_000_000_000_000_000,
    ;
    m as u128 * p
}

proof fn lemma_rounded_scaled(a: int, b: int, c: int)
    requires
        a >= 0,
        b > 0,
        c > 0,
    ensures
        rounded(a * c, b * c) == rounded(a, b),
{
    let (q, r) = (a / b, a % b);
    vstd::arithmetic::div_mod::lemma_fundamental_div_mod(a, b);
    assert(a * c == q * (b * c) + r * c) by (nonlinear_arith)
        requires
            a == b * q + r,
    ;
    assert(0 <= r * c < b * c) by (nonlinear_arith)
        requires
            0 <= r < b,
            c > 0,
    ;
    vstd::arithmetic::div_mod::lemma_fundamental_div_mod_converse(a * c, b * c, q, r * c);
    assert(2 * (r * c) < b * c <==> 2 * r < b) by (nonlinear_arith)
        requires
            c > 0,
    ;
    assert(2 * (r * c) == b * c <==> 2 * r == b) by (nonlinear_arith)
        requires
            c > 0,
    ;
}

/// Writes a number with `d` places behind the point.
pub fn write_number(x: Float32, d: usize) -> (r: String)
    requires
        d <= MOST_BEHIND,
    ensures
        r@ == number_text(x, d as nat),
        x.nan() ==> r@ == "NaN"@,
        !x.nan() && !x.finite() ==> r@ == if x.negative() {
            "-inf"@
        } else {
            "inf"@
        },
{
    let mut out: String = String::new();
    if x.is_nan() {
        out.append("NaN");
        assert(out@ =~= number_text(x, d as nat));
        return out;
    }
    if x.bits >= 0x8000_0000 {
        out.append("-");
    }
    proof {
        reveal_strlit("-");
        reveal_strlit(".");
        reveal_strlit("inf");
        reveal_strlit("-inf");
    }
    if !x.is_finite() {
        out.append("inf");
        assert(out@ =~= number_text(x, d as nat));
        return out;
    }
    let (whole, rest): (u128, u128) = places(x, d);
    proof {
        lemma_fixed(whole as nat, rest as nat, d as nat);
    }
    push_whole(&mut out, whole);
    if d > 0 {
        out.append(".");
        push_padded(&mut out, rest, d);
    }
    assert(out@ =~= number_text(x, d as nat));
    out
}

pub open spec fn is_digit(c: char) -> bool {
    0x30 <= c as u32 <= 0x39
}

pub open spec fn all_digits(s: Seq<char>) -> bool {
    forall|i: int| 0 <= i < s.len() ==> is_digit(#[trigger] s[i])
}

/// The number that digits stand for.
pub open spec fn value_of(s: Seq<char>) -> nat
    decreases s.len(),
{
    if s.len() == 0 {
        0
    } else {
        10 * value_of(s.drop_last()) + (s.last() as u32 - 0x30) as nat
    }
}

/// A number in plain decimal: a sign, digits, and how many of them stand behind the point.
pub struct Decimal {
    pub minus: bool,
    pub digits: Seq<char>,
    pub behind: nat,
}

/// What a text in plain decimal holds: it begins with a minus sign or none, and has digits before and
/// behind one point.
pub open spec fn decimal_of(text: Seq<char>) -> Option<Decimal> {
    let minus = text.len() > 0 && text[0] == '-';
    let parts = crate::text::split(
        if minus {
            text.skip(1)
        } else {
            text
        },
        '.',
    );
    if parts.len() == 2 && parts[0].len() > 0 && parts[1].len() > 0 && all_digits(parts[0])
        && all_digits(parts[1]) {
        Some(Decimal { minus, digits: parts[0] + parts[1], behind: parts[1].len() })
    } else {
        None
    }
}

/// A text in plain decimal of not too many digits.
pub open spec fn legible(text: Seq<char>) -> bool {
    decimal_of(text) matches Some(t) && t.digits.len() <= MOST_DIGITS && t.behind <= MOST_BEHIND
}

/// How far a number is from a decimal one, in units of the last place of the decimal one and of the
/// least positive number.
pub open spec fn off(t: Decimal, y: Float32) -> int {
    size(
        y.value() * ten_to(t.behind) - (if t.minus {
            -(value_of(t.digits) as int)
        } else {
            value_of(t.digits) as int
        }) * one(),
    )
}

/// `y` is the number nearest to a decimal one: it has the same sign, no finite number is nearer, and
/// where another one is equally near, `y` is the one with the even bit pattern.
pub open spec fn nearest(t: Decimal, y: Float32) -> bool {
    &&& y.finite()
    &&& y.negative() == t.minus
    &&& forall|z: Float32| z.finite() ==> off(t, y) <= #[trigger] off(t, z)
    &&& forall|z: Float32|
        z.finite() && z.value() != y.value() && #[trigger] off(t, z) == off(t, y) ==> y.payload() % 2
            == 0
}

/// `y` is the number that a text in plain decimal stands for.
pub open spec fn stands_for(text: Seq<char>, y: Float32) -> bool {
    decimal_of(text) matches Some(t) && nearest(t, y)
}

fn scan_digits(s: &[char]) -> (r: bool)
    ensures
        r == all_digits(s@),
{
    let mut i: usize = 0;
    while i < s.len()
        invariant
            i <= s@.len(),
            forall|k: int| 0 <= k < i ==> is_digit(#[trigger] s@[k]),
        decreases s@.len() - i,
    {
        let c: u32 = s[i] as u32;
        if c < 0x30 || c > 0x39 {
            assert(!is_digit(s@[i as int]));
            return false;
        }
        i += 1;
    }
    true
}

proof fn lemma_value_bound(s: Seq<char>)
    requires
        all_digits(s),
    ensures
        value_of(s) < ten_to(s.len()),
    decreases s.len(),
{
    if s.len() > 0 {
        assert(is_digit(s[s.len() - 1]));
        assert forall|i: int| 0 <= i < s.drop_last().len() implies is_digit(
            #[trigger] s.drop_last()[i],
        ) by {
            assert(is_digit(s[i]));
        }
        lemma_value_bound(s.drop_last());
    }
}

/// Reads digits on from a number that is already read.
fn read_digits(start: u128, before: Ghost<Seq<char>>, s: &[char]) -> (r: u128)
    requires
        start == value_of(before@),
        all_digits(before@),
        all_digits(s@),
        before@.len() + s@.len() <= MOST_DIGITS,
    ensures
        r == value_of(before@ + s@),
        r < 10_000_000_000_000_000_000_000_000_000_000_000_000,
{
    let mut n: u128 = start;
    let mut i: usize = 0;
    let ghost all = before@ + s@;
    proof {
        assert(all.take(before@.len() as int) =~= before@);
        lemma_great_tens();
        lemma_value_bound(all);
        lemma_ten_to(all.len(), 37);
    }
    while i < s.len()
        invariant
            i <= s@.len(),
            all == before@ + s@,
            all_digits(all),
            all.len() <= MOST_DIGITS,
            n == value_of(all.take(before@.len() + i)),
        decreases s@.len() - i,
    {
        let c: u32 = s[i] as u32;
        proof {
            let next = all.take(before@.len() + i + 1);
            assert(next.drop_last() =~= all.take(before@.len() + i));
            assert(next.last() == s@[i as int]);
            assert(is_digit(all[before@.len() + i]));
            lemma_great_tens();
            assert forall|k: int| 0 <= k < next.len() implies is_digit(#[trigger] next[k]) by {
                assert(is_digit(all[k]));
            }
            lemma_value_bound(next);
            lemma_ten_to(next.len(), 37);
        }
        n = n * 10 + (c - 0x30) as u128;
        i += 1;
    }
    assert(all.take(before@.len() + i) =~= all);
    n
}

/// A finite number is a multiple of two to the `k`, or less than two to the `k + 23`.
proof fn lemma_grid(z: Float32, k: nat)
    requires
        z.finite(),
    ensures
        ({
            let g = vstd::arithmetic::power2::pow2(k) as int;
            &&& g > 0
            &&& z.magnitude() >= 0
            &&& z.magnitude() == (z.magnitude() / g) * g || (k > 0 && z.magnitude() < 0x80_0000 * g)
        }),
{
    let g = vstd::arithmetic::power2::pow2(k) as int;
    vstd::arithmetic::power2::lemma_pow2_pos(k);
    vstd::arithmetic::power2::lemma2_to64();
    let e = z.exponent();
    let f = z.fraction();
    if e == 0 {
        if k == 0 {
            assert(f == (f / 1) * 1);
        } else {
            vstd::arithmetic::power2::lemma_pow2_strictly_increases(0, k);
            assert(f < 0x80_0000 * g);
        }
    } else {
        let m = 0x80_0000 + f;
        let h = vstd::arithmetic::power2::pow2((e - 1) as nat) as int;
        vstd::arithmetic::power2::lemma_pow2_pos((e - 1) as nat);
        assert(m * h >= 0) by (nonlinear_arith)
            requires
                m >= 0,
                h > 0,
        ;
        if e - 1 >= k {
            let c = vstd::arithmetic::power2::pow2((e - 1 - k) as nat) as int;
            vstd::arithmetic::power2::lemma_pow2_adds((e - 1 - k) as nat, k);
            assert(m * h == (m * c) * g) by (nonlinear_arith)
                requires
                    h == c * g,
            ;
            vstd::arithmetic::div_mod::lemma_div_multiples_vanish(m * c, g);
            assert(g * (m * c) == (m * c) * g) by (nonlinear_arith);
        } else {
            let j = (k - e) as nat;
            let c = vstd::arithmetic::power2::pow2(j + 1) as int;
            vstd::arithmetic::power2::lemma_pow2_adds(j + 1, (e - 1) as nat);
            vstd::arithmetic::power2::lemma_pow2_unfold(j + 1);
            vstd::arithmetic::power2::lemma_pow2_pos(j);
            assert(m * h < 0x80_0000 * (c * h)) by (nonlinear_arith)
                requires
                    m < 0x100_0000,
                    c >= 2,
                    h > 0,
            ;
        }
    }
}

/// What is left out of a number that is the nearest multiple of a power of two, beside what any other
/// number leaves out. `a` of `b` is the decimal number over that power of two.
proof fn lemma_no_nearer(
    t: Decimal,
    y: Float32,
    z: Float32,
    a: int,
    b: int,
    k: nat,
)
    requires
        a >= 0,
        b > 0,
        a * ten_to(t.behind) * vstd::arithmetic::power2::pow2(k) == value_of(t.digits) * one() * b,
        k > 0 ==> a >= 0x80_0000 * b,
        y.finite(),
        y.negative() == t.minus,
        y.magnitude() == rounded(a, b) * vstd::arithmetic::power2::pow2(k),
        z.finite(),
    ensures
        off(t, y) <= off(t, z),
        off(t, y) == off(t, z) && z.value() != y.value() ==> rounded(a, b) % 2 == 0,
{
    let p = ten_to(t.behind) as int;
    let g = vstd::arithmetic::power2::pow2(k) as int;
    let n = value_of(t.digits) as int;
    let m = rounded(a, b);
    lemma_ten_to(t.behind, t.behind);
    lemma_grid(z, k);
    lemma_rounded(a, b, m);
    // the same sign for both
    let zz = if t.minus {
        -z.value()
    } else {
        z.value()
    };
    let miss_y = m * g * p - n * one();
    let miss_z = zz * p - n * one();
    assert((-(m * g)) * p == -(m * g * p)) by (nonlinear_arith);
    assert((-n) * one() == -(n * one())) by (nonlinear_arith);
    assert(zz * p == z.value() * p || zz * p == -(z.value() * p)) by (nonlinear_arith)
        requires
            zz == z.value() || zz == -z.value(),
    ;
    assert((-z.value()) * p == -(z.value() * p)) by (nonlinear_arith);
    assert(off(t, y) == size(miss_y));
    assert(off(t, z) == size(miss_z));
    let (dy, dz) = (m * b - a, zz * b - a * g);
    let c = p * g;
    assert(c > 0) by (nonlinear_arith)
        requires
            p > 0,
            g > 0,
            c == p * g,
    ;
    let aim = n * one();
    assert(miss_y * b == m * g * p * b - aim * b) by (nonlinear_arith)
        requires
            miss_y == m * g * p - aim,
    ;
    assert(miss_z * b == zz * p * b - aim * b) by (nonlinear_arith)
        requires
            miss_z == zz * p - aim,
    ;
    assert(m * g * p * b == c * (m * b)) by (nonlinear_arith)
        requires
            c == p * g,
    ;
    assert(a * p * g == c * a) by (nonlinear_arith)
        requires
            c == p * g,
    ;
    assert(a * p * g == p * (a * g)) by (nonlinear_arith);
    assert(zz * p * b == p * (zz * b)) by (nonlinear_arith);
    assert(c * dy == c * (m * b) - c * a) by (nonlinear_arith)
        requires
            dy == m * b - a,
    ;
    assert(p * dz == p * (zz * b) - p * (a * g)) by (nonlinear_arith)
        requires
            dz == zz * b - a * g,
    ;
    // it suffices to hold g * |dy| against |dz|
    assert(g * size(dy) <= size(dz) && (g * size(dy) == size(dz) && zz != m * g ==> m % 2 == 0)) by {
        if zz < 0 || (zz < 0x80_0000 * g && k > 0) {
            let w = if zz < 0 {
                0
            } else {
                0x80_0000
            };
            lemma_rounded(a, b, w);
            assert(w * b - a <= 0) by (nonlinear_arith)
                requires
                    w == 0 && a >= 0 || w == 0x80_0000 && a >= 0x80_0000 * b,
            ;
            assert(g * size(dy) <= g * (a - w * b)) by (nonlinear_arith)
                requires
                    size(dy) <= a - w * b,
                    g > 0,
            ;
            assert(a * g - zz * b > g * (a - w * b)) by (nonlinear_arith)
                requires
                    zz < w * g,
                    b > 0,
            ;
        } else {
            let w = z.magnitude() / g;
            assert(zz == w * g);
            lemma_rounded(a, b, w);
            assert(dz == g * (w * b - a)) by (nonlinear_arith)
                requires
                    dz == w * g * b - a * g,
            ;
            let e = w * b - a;
            assert(size(dz) == g * size(e)) by (nonlinear_arith)
                requires
                    dz == g * e,
                    size(e) == e && e >= 0 || size(e) == -e && e < 0,
                    size(dz) == dz && dz >= 0 || size(dz) == -dz && dz < 0,
                    g > 0,
            ;
            assert(g * size(dy) <= g * size(e)) by (nonlinear_arith)
                requires
                    size(dy) <= size(e),
                    g > 0,
            ;
            if g * size(dy) == size(dz) {
                assert(size(dy) == size(e)) by (nonlinear_arith)
                    requires
                        g * size(dy) == g * size(e),
                        g > 0,
                ;
            }
        }
    }
    let (sy, sz) = (size(miss_y), size(miss_z));
    assert(sy * b == c * size(dy)) by (nonlinear_arith)
        requires
            miss_y * b == c * dy,
            sy == miss_y && miss_y >= 0 || sy == -miss_y && miss_y < 0,
            size(dy) == dy && dy >= 0 || size(dy) == -dy && dy < 0,
            b > 0,
            c > 0,
    ;
    assert(sz * b == p * size(dz)) by (nonlinear_arith)
        requires
            miss_z * b == p * dz,
            sz == miss_z && miss_z >= 0 || sz == -miss_z && miss_z < 0,
            size(dz) == dz && dz >= 0 || size(dz) == -dz && dz < 0,
            b > 0,
            p > 0,
    ;
    let (u, v) = (g * size(dy), size(dz));
    assert(c * size(dy) == p * u) by (nonlinear_arith)
        requires
            c == p * g,
            u == g * size(dy),
    ;
    assert(sy <= sz) by (nonlinear_arith)
        requires
            sy * b == p * u,
            sz * b == p * v,
            u <= v,
            p > 0,
            b > 0,
    ;
    if sy == sz {
        assert(u == v) by (nonlinear_arith)
            requires
                sy * b == p * u,
                sy * b == p * v,
                p > 0,
        ;
    }
}

/// The number nearest to `n` units of the last of `d` places behind the point, with a sign.
fn nearest_number(t: Ghost<Decimal>, minus: bool, n: u128, d: usize) -> (r: Float32)
    requires
        n == value_of(t@.digits),
        d == t@.behind,
        n < 10_000_000_000_000_000_000_000_000_000_000_000_000,
        d <= MOST_BEHIND,
        minus == t@.minus,
    ensures
        nearest(t@, r),
{
    let p: u128 = power10(d);
    let mut a: u128 = n;
    let mut b: u128 = p;
    let mut k: u32 = LEAST;
    proof {
        let (x, y, g) = (n as int, p as int, one());
        assert(x * y * g == x * g * y) by (nonlinear_arith);
        vstd::arithmetic::power2::lemma2_to64();
    }
    if a >= 0x100_0000 * b {
        while a >= 0x100_0000 * b
            invariant
                a == n,
                n == value_of(t@.digits),
                d == t@.behind,
                n < 10_000_000_000_000_000_000_000_000_000_000_000_000,
                LEAST <= k <= 249,
                0 < b,
                0x80_0000 * b <= a,
                b >= vstd::arithmetic::power2::pow2((k - LEAST) as nat),
                a * ten_to(t@.behind) * vstd::arithmetic::power2::pow2(k as nat) == value_of(
                    t@.digits,
                ) * one() * b,
            decreases 10_000_000_000_000_000_000_000_000_000_000_000_000 - b,
        {
            proof {
                let j = (k - LEAST) as nat;
                lemma_great_powers();
                if j >= 100 {
                    if j > 100 {
                        vstd::arithmetic::power2::lemma_pow2_strictly_increases(100, j);
                    }
                    assert(false);
                }
                vstd::arithmetic::power2::lemma_pow2_unfold(j + 1);
                vstd::arithmetic::power2::lemma_pow2_unfold((k + 1) as nat);
                let (x, y, g, bb) = (
                    a as int,
                    ten_to(t@.behind) as int,
                    vstd::arithmetic::power2::pow2(k as nat) as int,
                    b as int,
                );
                let w = value_of(t@.digits) * one();
                assert(x * y * (2 * g) == w * (2 * bb)) by (nonlinear_arith)
                    requires
                        x * y * g == w * bb,
                ;
            }
            b = b * 2;
            k = k + 1;
        }
    } else {
        while k > 0 && a < 0x80_0000 * b
            invariant
                n == value_of(t@.digits),
                d == t@.behind,
                k <= LEAST,
                b == p,
                0 < p <= 1_000_000_000_000_000_000_000_000_000_000,
                a < 0x100_0000 * b,
                a * ten_to(t@.behind) * vstd::arithmetic::power2::pow2(k as nat) == value_of(
                    t@.digits,
                ) * one() * b,
            decreases k,
        {
            proof {
                vstd::arithmetic::power2::lemma_pow2_unfold(k as nat);
                let (x, y, g) = (
                    a as int,
                    ten_to(t@.behind) as int,
                    vstd::arithmetic::power2::pow2((k - 1) as nat) as int,
                );
                assert(2 * x * y * g == x * y * (2 * g)) by (nonlinear_arith);
            }
            a = a * 2;
            k = k - 1;
        }
    }
    let m: u128 = round(a, b);
    proof {
        let q = (a / b) as int;
        vstd::arithmetic::div_mod::lemma_fundamental_div_mod(a as int, b as int);
        assert(q < 0x100_0000) by (nonlinear_arith)
            requires
                a == b * q + a % b,
                a % b >= 0,
                a < 0x100_0000 * b,
                b > 0,
        ;
        if k > 0 {
            lemma_rounded(a as int, b as int, 0x80_0000);
            assert(q >= 0x80_0000) by (nonlinear_arith)
                requires
                    a == b * q + a % b,
                    a % b < b,
                    a >= 0x80_0000 * b,
                    b > 0,
            ;
        }
    }
    let payload: u32 = k * 0x80_0000 + m as u32;
    let r: Float32 = Float32::from_bits(
        if minus {
            0x8000_0000 + payload
        } else {
            payload
        },
    );
    proof {
        let g = vstd::arithmetic::power2::pow2(k as nat) as int;
        assert(r.payload() == payload);
        vstd::arithmetic::power2::lemma2_to64();
        assert(m * 1 == m) by (nonlinear_arith);
        if m == 0x100_0000 {
            assert(r.exponent() == k + 2);
            assert(r.fraction() == 0);
            vstd::arithmetic::power2::lemma_pow2_unfold((k + 1) as nat);
            assert(m * g == 0x100_0000 * g) by (nonlinear_arith)
                requires
                    m == 0x100_0000,
            ;
            assert(r.magnitude() == 0x80_0000 * vstd::arithmetic::power2::pow2((k + 1) as nat));
            assert(r.magnitude() == m * g);
        } else if m >= 0x80_0000 {
            assert(r.exponent() == k + 1);
            assert(r.fraction() == m - 0x80_0000);
            assert(r.magnitude() == (0x80_0000 + r.fraction()) * g);
            assert(0x80_0000 + r.fraction() == m);
            assert(r.magnitude() == m * g);
        } else {
            assert(k == 0);
            assert(r.exponent() == 0);
            assert(g == 1);
            assert(r.magnitude() == m * g);
        }
        assert(r.magnitude() == m * g);
        assert forall|z: Float32| z.finite() implies off(t@, r) <= #[trigger] off(t@, z) by {
            lemma_no_nearer(t@, r, z, a as int, b as int, k as nat);
        }
        assert forall|z: Float32|
            z.finite() && z.value() != r.value() && #[trigger] off(t@, z) == off(
                t@,
                r,
            ) implies r.payload() % 2 == 0 by {
            lemma_no_nearer(t@, r, z, a as int, b as int, k as nat);
        }
    }
    r
}

/// Reads a text in plain decimal as the number nearest to it. There is no number of a text that is
/// not [`legible`].
pub fn read_number(text: &[char]) -> (r: Option<Float32>)
    ensures
        match r {
            Some(y) => legible(text@) && stands_for(text@, y),
            None => !legible(text@),
        },
{
    let minus: bool = text.len() > 0 && text[0] == '-';
    let from: usize = if minus {
        1
    } else {
        0
    };
    let body: Vec<char> = copy_range(text, from, text.len());
    assert(minus ==> body@ =~= text@.skip(1));
    assert(!minus ==> body@ =~= text@);
    let parts: Vec<Vec<char>> = split_chars(body.as_slice(), '.');
    let ghost all = crate::text::split(body@, '.');
    assert(all.len() == parts@.len());
    if parts.len() != 2 {
        return None;
    }
    assert(all[0] == parts@[0]@ && all[1] == parts@[1]@);
    if parts[0].len() == 0 || parts[1].len() == 0 || !scan_digits(parts[0].as_slice())
        || !scan_digits(parts[1].as_slice()) {
        return None;
    }
    let whole: usize = parts[0].len();
    let behind: usize = parts[1].len();
    let ghost t = Decimal { minus, digits: all[0] + all[1], behind: all[1].len() };
    assert(decimal_of(text@) == Some(t));
    if behind > MOST_BEHIND || whole > MOST_DIGITS - behind {
        return None;
    }
    assert(Seq::<char>::empty() + all[0] =~= all[0]);
    let n: u128 = read_digits(0, Ghost(Seq::empty()), parts[0].as_slice());
    let n: u128 = read_digits(n, Ghost(all[0]), parts[1].as_slice());
    Some(nearest_number(Ghost(t), minus, n, behind))
}

proof fn lemma_value_adds(a: Seq<char>, b: Seq<char>)
    ensures
        value_of(a + b) == value_of(a) * ten_to(b.len()) + value_of(b),
    decreases b.len(),
{
    if b.len() == 0 {
        assert(a + b =~= a);
        assert(value_of(a) * 1 == value_of(a)) by (nonlinear_arith);
    } else {
        assert((a + b).drop_last() =~= a + b.drop_last());
        lemma_value_adds(a, b.drop_last());
        let (x, y) = (value_of(a), ten_to((b.len() - 1) as nat));
        assert(10 * (x * y) == x * (10 * y)) by (nonlinear_arith);
    }
}

proof fn lemma_decimal(n: nat, j: nat)
    requires
        n < ten_to(j),
        j >= 1,
    ensures
        value_of(crate::text::decimal(n)) == n,
        all_digits(crate::text::decimal(n)),
        1 <= crate::text::decimal(n).len() <= j,
    decreases n,
{
    let s = crate::text::decimal(n);
    if n < 10 {
        assert(s.drop_last() =~= Seq::<char>::empty());
        assert(value_of(s.drop_last()) == 0);
        assert(s.last() as u32 == 0x30 + n);
    } else {
        if j == 1 {
            assert(ten_to(0) == 1);
            assert(false);
        }
        lemma_decimal(n / 10, (j - 1) as nat);
        assert(s.drop_last() =~= crate::text::decimal(n / 10));
        assert(s.last() as u32 == 0x30 + n % 10);
        assert forall|i: int| 0 <= i < s.len() implies is_digit(#[trigger] s[i]) by {
            if i < s.len() - 1 {
                assert(crate::text::decimal(n / 10)[i] == s[i]);
            }
        }
    }
}

proof fn lemma_padded(n: nat, d: nat)
    requires
        n < ten_to(d),
    ensures
        value_of(crate::text::padded(n, d)) == n,
        all_digits(crate::text::padded(n, d)),
        crate::text::padded(n, d).len() == d,
    decreases d,
{
    if d > 0 {
        let s = crate::text::padded(n, d);
        let init = crate::text::padded(n / 10, (d - 1) as nat);
        lemma_padded(n / 10, (d - 1) as nat);
        assert(s.drop_last() =~= init);
        assert(s.last() as u32 == 0x30 + n % 10);
        assert forall|i: int| 0 <= i < s.len() implies is_digit(#[trigger] s[i]) by {
            if i < s.len() - 1 {
                assert(init[i] == s[i]);
            }
        }
    }
}

/// Every number is less than some power of ten.
proof fn lemma_less_than_ten_to(n: nat) -> (j: nat)
    ensures
        n < ten_to(j),
        j >= 1,
    decreases n,
{
    if n < 10 {
        assert(ten_to(0) == 1);
        assert(ten_to(1) == 10);
        1
    } else {
        let j = lemma_less_than_ten_to(n / 10);
        j + 1
    }
}

/// The decimal number that a finite number is written as.
pub open spec fn written(x: Float32, d: nat) -> Decimal {
    let n = places_of(x, d);
    Decimal {
        minus: x.negative(),
        digits: crate::text::decimal(n / ten_to(d)) + crate::text::padded(n, d),
        behind: d,
    }
}

/// The text of a finite number is plain decimal, and holds as many units of the last place as the
/// number was rounded to. It is made of digits, a point and a sign.
pub proof fn lemma_number_text(x: Float32, d: nat)
    requires
        x.finite(),
        d >= 1,
    ensures
        decimal_of(number_text(x, d)) == Some(written(x, d)),
        value_of(written(x, d).digits) == places_of(x, d),
        number_text(x, d).len() > 0,
        forall|i: int|
            0 <= i < number_text(x, d).len() ==> {
                let c = #[trigger] number_text(x, d)[i];
                is_digit(c) || c == '.' || c == '-'
            },
{
    let n = places_of(x, d);
    let p = ten_to(d);
    lemma_ten_to(d, d);
    let whole = crate::text::decimal(n / p);
    let rest = crate::text::padded(n, d);
    let j = lemma_less_than_ten_to(n / p);
    lemma_decimal(n / p, j);
    lemma_padded_rest(n, d);
    lemma_padded(n % p, d);
    lemma_value_adds(whole, rest);
    vstd::arithmetic::div_mod::lemma_fundamental_div_mod(n as int, p as int);
    assert(p * (n / p) == (n / p) * p) by (nonlinear_arith);
    let parts = seq![whole, rest];
    let body = fixed(n, d);
    assert(parts.drop_last() =~= seq![whole]);
    assert(crate::text::join(seq![whole], '.') == whole);
    assert(crate::text::join(parts, '.') =~= whole.push('.') + rest);
    assert(body =~= whole.push('.') + rest);
    assert(!is_digit('.') && !is_digit('-'));
    assert forall|i: int| 0 <= i < parts.len() implies !(#[trigger] parts[i]).contains('.') by {
        if parts[i].contains('.') {
            let k = choose|k: int| 0 <= k < parts[i].len() && parts[i][k] == '.';
            assert(is_digit(parts[i][k]));
        }
    }
    crate::text::lemma_split_join(parts, '.');
    let text = number_text(x, d);
    assert(is_digit(whole[0]));
    assert(body[0] == whole[0]);
    if x.negative() {
        assert(text.skip(1) =~= body);
    } else {
        assert(text == body);
    }
    assert forall|i: int| 0 <= i < text.len() implies {
        let c = #[trigger] text[i];
        is_digit(c) || c == '.' || c == '-'
    } by {
        let k = if x.negative() {
            i - 1
        } else {
            i
        };
        if k >= 0 {
            assert(text[i] == body[k]);
            if k < whole.len() {
                assert(is_digit(whole[k]));
            } else if k > whole.len() {
                assert(body[k] == rest[k - whole.len() - 1]);
                assert(is_digit(rest[k - whole.len() - 1]));
            }
        }
    }
}

/// A finite number below two to the power of ninety: with up to nine places it can be read again.
pub open spec fn moderate(x: Float32) -> bool {
    x.payload() < 0x6C80_0000
}

/// A moderate number is legible as it is written.
pub proof fn lemma_written_is_legible(x: Float32, d: nat)
    requires
        moderate(x),
        1 <= d <= 9,
    ensures
        x.finite(),
        legible(number_text(x, d)),
{
    lemma_number_text(x, d);
    let top = Float32 { bits: 0x6C80_0000 };
    let (p, unit) = (ten_to(d) as int, one());
    let big = vstd::arithmetic::power2::pow2(90) as int;
    lemma_ten_to(d, d);
    vstd::arithmetic::power2::lemma_pow2_pos(LEAST as nat);
    assert(x.magnitude() < big * unit) by {
        crate::ieee::lemma_rank32_orders_values(x.absolute(), top);
        assert(x.absolute().magnitude() == x.magnitude()) by {
            assert(x.absolute().payload() == x.payload());
        }
        assert(top.exponent() == 217);
        assert(top.fraction() == 0);
        vstd::arithmetic::power2::lemma2_to64();
        vstd::arithmetic::power2::lemma_pow2_adds(23, 216);
        vstd::arithmetic::power2::lemma_pow2_adds(90, LEAST as nat);
    }
    let a = x.magnitude() * p;
    let n = places_of(x, d) as int;
    lemma_great_powers();
    lemma_great_tens();
    assert(a <= big * p * unit) by (nonlinear_arith)
        requires
            a == x.magnitude() * p,
            x.magnitude() <= big * unit,
            p > 0,
    ;
    lemma_rounded(a, unit, big * p);
    assert(a >= 0) by (nonlinear_arith)
        requires
            a == x.magnitude() * p,
            x.magnitude() >= 0,
            p > 0,
    ;
    assert(n <= big * p + 1) by (nonlinear_arith)
        requires
            2 * (n * unit - a) <= unit,
            a <= big * p * unit,
            unit > 0,
    ;
    assert(n / p <= big + 1) by (nonlinear_arith)
        requires
            n <= big * p + 1,
            p >= 1,
    ;
    lemma_decimal((n / p) as nat, 28);
    lemma_padded_rest(n as nat, d);
    lemma_padded(n as nat % ten_to(d), d);
}

/// What is read of a written number is the number again, to within one unit of the last place: two
/// nearest numbers are no further apart.
pub proof fn lemma_number_roundtrip(x: Float32, d: nat, y: Float32)
    requires
        x.finite(),
        d >= 1,
        stands_for(number_text(x, d), y),
    ensures
        y.finite(),
        y.negative() == x.negative(),
        size(x.value() - y.value()) * ten_to(d) <= one(),
{
    lemma_number_text(x, d);
    let t = written(x, d);
    let (p, unit) = (ten_to(d) as int, one());
    let n = places_of(x, d) as int;
    lemma_ten_to(d, d);
    vstd::arithmetic::power2::lemma_pow2_pos(LEAST as nat);
    let a = x.magnitude() * p;
    lemma_grid(x, 0);
    assert(a >= 0) by (nonlinear_arith)
        requires
            a == x.magnitude() * p,
            x.magnitude() >= 0,
            p > 0,
    ;
    lemma_rounded(a, unit, 0);
    assert(off(t, y) <= off(t, x));
    let goal = if x.negative() {
        -n
    } else {
        n
    };
    assert((-x.magnitude()) * p == -a) by (nonlinear_arith)
        requires
            a == x.magnitude() * p,
    ;
    assert((-n) * unit == -(n * unit)) by (nonlinear_arith);
    assert(off(t, x) == size(x.value() * p - goal * unit));
    assert(2 * off(t, x) <= unit);
    assert(off(t, y) == size(y.value() * p - goal * unit));
    let gap = x.value() - y.value();
    assert(gap * p == x.value() * p - y.value() * p) by (nonlinear_arith)
        requires
            gap == x.value() - y.value(),
    ;
    assert(size(gap) * p == size(gap * p)) by (nonlinear_arith)
        requires
            size(gap) == gap && gap >= 0 || size(gap) == -gap && gap < 0,
            size(gap * p) == gap * p && gap * p >= 0 || size(gap * p) == -(gap * p) && gap * p < 0,
            p > 0,
    ;
}

/// A whole number in decimal reads as itself, and has no noughts in front.
pub proof fn lemma_decimal_reads_back(n: nat)
    ensures
        value_of(crate::text::decimal(n)) == n,
        all_digits(crate::text::decimal(n)),
        n > 0 ==> crate::text::decimal(n)[0] != '0',
    decreases n,
{
    let j = lemma_less_than_ten_to(n);
    lemma_decimal(n, j);
    if n >= 10 {
        lemma_decimal_reads_back(n / 10);
        let k = lemma_less_than_ten_to(n / 10);
        lemma_decimal(n / 10, k);
        assert(crate::text::decimal(n)[0] == crate::text::decimal(n / 10)[0]);
    }
}

/// The last digits of a number read as what is left of it over the next power of ten.
pub proof fn lemma_padded_reads_back(n: nat, d: nat)
    ensures
        crate::text::padded(n, d).len() == d,
        all_digits(crate::text::padded(n, d)),
        value_of(crate::text::padded(n, d)) == n % ten_to(d),
{
    lemma_ten_to(d, d);
    lemma_padded_rest(n, d);
    lemma_padded(n % ten_to(d), d);
}

/// Digits that follow others count less by a power of ten: what they stand for together is what the
/// first stand for, so many times, and what the others do.
pub proof fn lemma_digits_add(a: Seq<char>, b: Seq<char>)
    ensures
        value_of(a + b) == value_of(a) * vstd::arithmetic::power::pow(10, b.len()) + value_of(b),
{
    lemma_value_adds(a, b);
    lemma_ten_to_is_power(b.len());
}

/// A digit on its own stands for its distance from nought.
pub proof fn lemma_one_digit(c: char)
    requires
        is_digit(c),
    ensures
        '0' as u32 <= c as u32 <= '9' as u32,
        value_of(seq![c]) == c as u32 - '0' as u32,
{
    assert(seq![c].drop_last() =~= Seq::<char>::empty());
    assert(value_of(Seq::<char>::empty()) == 0);
}

/// The powers of ten, and one in units of the least positive number.
pub proof fn lemma_ten_to_is_power(d: nat)
    ensures
        ten_to(d) == vstd::arithmetic::power::pow(10, d),
        one() == crate::ieee::one32(),
    decreases d,
{
    reveal(vstd::arithmetic::power::pow);
    if d > 0 {
        lemma_ten_to_is_power((d - 1) as nat);
    }
}

/// A number is written with the nearest count of units of its last place.
pub proof fn lemma_places(x: Float32, d: nat)
    ensures
        2 * size(places_of(x, d) * crate::ieee::one32() - x.magnitude() * ten_to(d))
            <= crate::ieee::one32(),
{
    vstd::arithmetic::power2::lemma_pow2_pos(149);
    crate::ieee::lemma_scale32(x, x);
    let a = x.magnitude() * ten_to(d);
    assert(a >= 0) by (nonlinear_arith)
        requires
            a == x.magnitude() * ten_to(d),
            x.magnitude() >= 0,
    ;
    lemma_rounded(a, one(), 0);
}

/// Plain decimal is a sign or none, digits, a point and digits; and nothing else is.
pub proof fn lemma_plain_decimal(minus: bool, whole: Seq<char>, rest: Seq<char>)
    requires
        whole.len() > 0 && all_digits(whole),
        rest.len() > 0 && all_digits(rest),
    ensures
        decimal_of(
            (if minus {
                seq!['-']
            } else {
                Seq::empty()
            }) + whole + seq!['.'] + rest,
        ) == Some(Decimal { minus, digits: whole + rest, behind: rest.len() }),
{
    let sign = if minus {
        seq!['-']
    } else {
        Seq::empty()
    };
    let text = sign + whole + seq!['.'] + rest;
    let parts = seq![whole, rest];
    let body = whole + seq!['.'] + rest;
    assert(parts.drop_last() =~= seq![whole]);
    assert(crate::text::join(seq![whole], '.') == whole);
    assert(crate::text::join(parts, '.') =~= body);
    assert forall|i: int| 0 <= i < parts.len() implies !(#[trigger] parts[i]).contains('.') by {
        if parts[i].contains('.') {
            let k = choose|k: int| 0 <= k < parts[i].len() && parts[i][k] == '.';
            assert(is_digit(parts[i][k]));
        }
    }
    crate::text::lemma_split_join(parts, '.');
    assert(is_digit(whole[0]));
    if minus {
        assert(text[0] == '-');
        assert(text.skip(1) =~= body);
    } else {
        assert(text =~= body);
        assert(text[0] == whole[0]);
    }
}

/// What is read as plain decimal was plain decimal: its sign, its digits and its point give it back.
pub proof fn lemma_decimal_is_plain(text: Seq<char>)
    requires
        decimal_of(text) is Some,
    ensures
        decimal_of(text) matches Some(t) && {
            let before = (t.digits.len() - t.behind) as int;
            &&& all_digits(t.digits)
            &&& 0 < before
            &&& 0 < t.behind
            &&& text == (if t.minus {
                seq!['-']
            } else {
                Seq::empty()
            }) + t.digits.take(before) + seq!['.'] + t.digits.skip(before)
        },
{
    let t = decimal_of(text).unwrap();
    let body = if t.minus {
        text.skip(1)
    } else {
        text
    };
    let parts = crate::text::split(body, '.');
    crate::text::lemma_join_split(body, '.');
    assert(parts =~= seq![parts[0], parts[1]]);
    assert(parts.drop_last() =~= seq![parts[0]]);
    assert(crate::text::join(seq![parts[0]], '.') == parts[0]);
    assert(body =~= parts[0] + seq!['.'] + parts[1]);
    assert(t.digits.take(parts[0].len() as int) =~= parts[0]);
    assert(t.digits.skip(parts[0].len() as int) =~= parts[1]);
    assert forall|i: int| 0 <= i < t.digits.len() implies is_digit(#[trigger] t.digits[i]) by {
        if i < parts[0].len() {
            assert(is_digit(parts[0][i]));
        } else {
            assert(is_digit(parts[1][i - parts[0].len()]));
        }
    }
    if t.minus {
        assert(text =~= seq!['-'] + body);
    } else {
        assert(text =~= Seq::<char>::empty() + body);
    }
    assert(text =~= (if t.minus {
        seq!['-']
    } else {
        Seq::empty()
    }) + parts[0] + seq!['.'] + parts[1]);
}

/// A text in plain decimal is read with up to thirty-seven digits, of which up to thirty stand behind
/// the point.
pub proof fn lemma_legible(text: Seq<char>)
    ensures
        legible(text) <==> (decimal_of(text) matches Some(t) && t.digits.len() <= 37 && t.behind
            <= 30),
{
}

/// A decimal number that some number is exactly is read as that number's worth, and no number is
/// nearer to any decimal number than the one that it is read as; that one has its sign.
pub proof fn lemma_reading_is_nearest(t: Decimal, y: Float32, z: Float32)
    requires
        nearest(t, y),
        z.finite(),
    ensures
        y.finite(),
        y.negative() == t.minus,
        ({
            let decimal = (if t.minus {
                -(value_of(t.digits) as int)
            } else {
                value_of(t.digits) as int
            }) * crate::ieee::one32();
            &&& size(y.value() * ten_to(t.behind) - decimal) <= size(
                z.value() * ten_to(t.behind) - decimal,
            )
            &&& z.value() * ten_to(t.behind) == decimal ==> y.value() == z.value()
            &&& size(y.value() * ten_to(t.behind) - decimal) == size(
                z.value() * ten_to(t.behind) - decimal,
            ) && z.value() != y.value() ==> y.payload() % 2 == 0
        }),
{
    assert(off(t, y) <= off(t, z));
    lemma_ten_to(t.behind, t.behind);
    let p = ten_to(t.behind) as int;
    if y.value() * p == z.value() * p {
        assert(y.value() == z.value()) by (nonlinear_arith)
            requires
                y.value() * p == z.value() * p,
                p > 0,
        ;
    }
}

} // verus!
