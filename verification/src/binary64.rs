//! 64-bit floating-point numbers, held by their IEEE 754 encoding.
//!
//! Brightness travels as such numbers over D-Bus, in the configuration file and
//! to the compositor. The operations here give, bit for bit, what the
//! processor's round-to-nearest arithmetic gives; only the encoding of a result
//! that is not a number is fixed to one choice.

use vstd::prelude::*;
use vstd::arithmetic::power2::pow2;

use crate::rounding::{
    assemble, power_of_two, BAND, INFINITE,
};

verus! {

/// The weight of the sign bit.
pub const SIGN: u64 = 0x8000_0000_0000_0000;

/// The encoding that every operation without a numeric result gives.
pub const NOT_A_NUMBER: u64 = 0x7ff8_0000_0000_0000;

/// A floating-point number, by its encoding. Two values are the same here when
/// their encodings are, so the two zeros are told apart.
#[derive(Debug, Clone, Copy, PartialEq, Eq, Structural)]
pub struct Binary64 {
    pub bits: u64,
}

/// The encoding with the given sign and magnitude.
pub open spec fn signed(negative: bool, magnitude: u64) -> Binary64 {
    Binary64 {
        bits: if negative {
            (SIGN + magnitude) as u64
        } else {
            magnitude
        },
    }
}

impl Binary64 {
    /// Whether the sign bit is set.
    pub open spec fn negative(self) -> bool {
        self.bits >= SIGN
    }

    /// The encoding without its sign bit.
    pub open spec fn magnitude(self) -> u64 {
        if self.bits >= SIGN {
            (self.bits - SIGN) as u64
        } else {
            self.bits
        }
    }

    /// Whether this is no number at all.
    pub open spec fn nan(self) -> bool {
        self.magnitude() > INFINITE
    }

    /// Whether this is one of the two infinities.
    pub open spec fn infinite(self) -> bool {
        self.magnitude() == INFINITE
    }

    /// Whether this is a number and not infinite.
    pub open spec fn finite(self) -> bool {
        self.magnitude() < INFINITE
    }

    /// The value without its sign, in units of 2^-1074.
    pub open spec fn size(self) -> nat {
        crate::rounding::units(self.magnitude() as nat)
    }

    /// The value, in units of 2^-1074. Infinity stands at 2^1024, beyond every
    /// finite value.
    pub open spec fn value(self) -> int {
        if self.negative() {
            -(self.size() as int)
        } else {
            self.size() as int
        }
    }

    /// Whether this number is less than `other`.
    pub open spec fn below(self, other: Binary64) -> bool {
        !self.nan() && !other.nan() && self.value() < other.value()
    }

    /// Whether this is a number from zero to one.
    pub open spec fn fraction(self) -> bool {
        !self.nan() && 0 <= self.value() <= crate::rounding::one()
    }

    /// Whether this is a number from zero to a hundred.
    pub open spec fn percentage(self) -> bool {
        !self.nan() && 0 <= self.value() <= 100 * crate::rounding::one()
    }
}

/// The number 0.
#[verifier::allow_in_spec]
pub fn zero() -> Binary64
    returns
        (Binary64 { bits: 0 }),
{
    Binary64 { bits: 0 }
}

/// The number 1.
#[verifier::allow_in_spec]
pub fn unity() -> Binary64
    returns
        (Binary64 { bits: 0x3ff0_0000_0000_0000 }),
{
    Binary64 { bits: 0x3ff0_0000_0000_0000 }
}

/// The number 100.
#[verifier::allow_in_spec]
pub fn hundred() -> Binary64
    returns
        (Binary64 { bits: 0x4059_0000_0000_0000 }),
{
    Binary64 { bits: 0x4059_0000_0000_0000 }
}

/// The number 65535, the greatest entry of a gamma table.
#[verifier::allow_in_spec]
pub fn full_scale() -> Binary64
    returns
        (Binary64 { bits: 0x40ef_ffe0_0000_0000 }),
{
    Binary64 { bits: 0x40ef_ffe0_0000_0000 }
}

/// The distance from 1 to the next greater number, 2^-52.
#[verifier::allow_in_spec]
pub fn epsilon() -> Binary64
    returns
        (Binary64 { bits: 0x3cb0_0000_0000_0000 }),
{
    Binary64 { bits: 0x3cb0_0000_0000_0000 }
}

/// The product of two numbers, rounded.
pub open spec fn product(a: Binary64, b: Binary64) -> Binary64 {
    let negative = a.negative() != b.negative();
    if a.nan() || b.nan() {
        Binary64 { bits: NOT_A_NUMBER }
    } else if a.infinite() || b.infinite() {
        if a.size() == 0 || b.size() == 0 {
            Binary64 { bits: NOT_A_NUMBER }
        } else {
            signed(negative, INFINITE)
        }
    } else {
        signed(negative, crate::rounding::rounded(a.size() * b.size(), crate::rounding::one()))
    }
}

/// The quotient of two numbers, rounded.
pub open spec fn quotient(a: Binary64, b: Binary64) -> Binary64 {
    let negative = a.negative() != b.negative();
    if a.nan() || b.nan() || (a.infinite() && b.infinite()) || (a.size() == 0 && b.size() == 0) {
        Binary64 { bits: NOT_A_NUMBER }
    } else if a.infinite() || b.size() == 0 {
        signed(negative, INFINITE)
    } else if b.infinite() {
        signed(negative, 0)
    } else {
        signed(negative, crate::rounding::rounded(a.size() * crate::rounding::one(), b.size()))
    }
}

/// How far two values are apart.
pub open spec fn gap(a: int, b: int) -> nat {
    if a < b {
        (b - a) as nat
    } else {
        (a - b) as nat
    }
}

/// The difference of two numbers without its sign, rounded.
pub open spec fn apart(a: Binary64, b: Binary64) -> Binary64 {
    if a.nan() || b.nan() || (a.infinite() && b.infinite() && a.negative() == b.negative()) {
        Binary64 { bits: NOT_A_NUMBER }
    } else if a.infinite() || b.infinite() {
        Binary64 { bits: INFINITE }
    } else {
        Binary64 { bits: crate::rounding::rounded(gap(a.value(), b.value()), 1) }
    }
}

/// `x`, or the limit that it lies beyond.
pub open spec fn clamped(x: Binary64, low: Binary64, high: Binary64) -> Binary64 {
    if x.below(low) {
        low
    } else if high.below(x) {
        high
    } else {
        x
    }
}

/// The number nearest to a whole number.
pub open spec fn whole_number(n: nat) -> Binary64 {
    Binary64 { bits: crate::rounding::rounded(n * crate::rounding::one(), 1) }
}

/// The whole number that a value, in units, is rounded up to.
pub open spec fn ceiling(v: nat) -> nat {
    if v % crate::rounding::one() == 0 {
        v / crate::rounding::one()
    } else {
        v / crate::rounding::one() + 1
    }
}

/// The whole number nearest to a value in units, the upper one where two are
/// equally near.
pub open spec fn nearest_whole(v: nat) -> nat {
    (2 * v + crate::rounding::one()) / (2 * crate::rounding::one())
}

/// `n`, or the greatest 16-bit number where `n` is greater.
pub open spec fn saturated(n: nat) -> u16 {
    if n < 65535 {
        n as u16
    } else {
        65535
    }
}

fn step_of(m: u64) -> (r: u32)
    requires
        m <= INFINITE,
    ensures
        r == crate::rounding::step(m as nat),
        r <= 2046,
        m < INFINITE ==> r < 2046,
{
    if m < BAND {
        0
    } else {
        (m / BAND - 1) as u32
    }
}

fn significand_of(m: u64) -> (r: u64)
    ensures
        r == crate::rounding::significand(m as nat),
        r < 2 * BAND,
        crate::rounding::step(m as nat) > 0 ==> r >= BAND,
        r == 0 <==> m == 0,
{
    if m < BAND {
        m
    } else {
        BAND + m % BAND
    }
}

/// Only the magnitude zero denotes zero.
pub proof fn lemma_size_zero(m: nat)
    ensures
        crate::rounding::units(m) == 0 <==> m == 0,
{
    crate::rounding::lemma_powers();
    if m > 0 {
        crate::rounding::units_increase(0, m);
    }
    assert(crate::rounding::units(0) == 0 * pow2(0));
}

impl Binary64 {
    /// Whether the sign bit is set.
    pub fn is_negative(self) -> (r: bool)
        ensures
            r == self.negative(),
    {
        self.bits >= SIGN
    }

    /// The encoding without its sign bit.
    pub fn magnitude_bits(self) -> (r: u64)
        ensures
            r == self.magnitude(),
    {
        if self.bits >= SIGN {
            self.bits - SIGN
        } else {
            self.bits
        }
    }

    /// Whether this is no number at all.
    pub fn is_nan(self) -> (r: bool)
        ensures
            r == self.nan(),
    {
        self.magnitude_bits() > INFINITE
    }

    /// Whether this is a number and not infinite.
    pub fn is_finite(self) -> (r: bool)
        ensures
            r == self.finite(),
    {
        self.magnitude_bits() < INFINITE
    }

    /// Whether this number is less than `other`.
    pub fn is_below(self, other: Binary64) -> (r: bool)
        ensures
            r == self.below(other),
    {
        let a: u64 = self.magnitude_bits();
        let b: u64 = other.magnitude_bits();
        proof {
            if a < b {
                crate::rounding::units_increase(a as nat, b as nat);
            } else if b < a {
                crate::rounding::units_increase(b as nat, a as nat);
            }
            lemma_size_zero(a as nat);
            lemma_size_zero(b as nat);
        }
        if a > INFINITE || b > INFINITE {
            false
        } else if self.is_negative() {
            if other.is_negative() {
                b < a
            } else {
                a > 0 || b > 0
            }
        } else if other.is_negative() {
            false
        } else {
            a < b
        }
    }

    /// Whether this is a number from zero to one.
    pub fn is_fraction(self) -> (r: bool)
        ensures
            r == self.fraction(),
    {
        proof {
            lemma_literals();
        }
        !self.is_nan() && !self.is_below(zero()) && !unity().is_below(self)
    }

    /// Whether this is a number from zero to a hundred.
    pub fn is_percentage(self) -> (r: bool)
        ensures
            r == self.percentage(),
    {
        proof {
            lemma_literals();
        }
        !self.is_nan() && !self.is_below(zero()) && !hundred().is_below(self)
    }

    /// The encoding with the given sign and magnitude.
    fn with_sign(negative: bool, magnitude: u64) -> (r: Binary64)
        requires
            magnitude <= INFINITE,
        ensures
            r == signed(negative, magnitude),
    {
        if negative {
            Binary64 { bits: SIGN + magnitude }
        } else {
            Binary64 { bits: magnitude }
        }
    }
}

/// What the encodings of zero, one, a hundred, the greatest 16-bit number and
/// the least step above one denote.
pub proof fn lemma_literals()
    ensures
        zero().value() == 0,
        unity().value() == crate::rounding::one(),
        hundred().value() == 100 * crate::rounding::one(),
        full_scale().value() == 65535 * crate::rounding::one(),
        epsilon().value() == pow2(1022),
        crate::rounding::one() > 0,
{
    broadcast use vstd::arithmetic::power2::lemma_pow2_pos;

    crate::rounding::lemma_powers();
    vstd::arithmetic::power2::lemma2_to64();
    vstd::arithmetic::power2::lemma2_to64_rest();
    lemma_size_zero(0);
    vstd::arithmetic::power2::lemma_pow2_adds(52, 1022);
    vstd::arithmetic::power2::lemma_pow2_adds(46, 1028);
    vstd::arithmetic::power2::lemma_pow2_adds(37, 1037);
    vstd::arithmetic::power2::lemma_pow2_adds(52, 970);
    let b = BAND as nat;
    assert(0x4059_0000_0000_0000nat / b - 1 == 1028);
    assert(b + 0x4059_0000_0000_0000nat % b == 100 * pow2(46));
    assert(0x40ef_ffe0_0000_0000nat / b - 1 == 1037);
    assert(b + 0x40ef_ffe0_0000_0000nat % b == 65535 * pow2(37));
    let x = pow2(46);
    let y = pow2(1028);
    assert((100 * x) * y == 100 * (x * y)) by (nonlinear_arith);
    let u = pow2(37);
    let v = pow2(1037);
    assert((65535 * u) * v == 65535 * (u * v)) by (nonlinear_arith);
}

proof fn lemma_product_parts(sa: nat, ea: nat, sb: nat, eb: nat)
    ensures
        (sa * pow2(ea)) * (sb * pow2(eb)) * pow2(1074) == (sa * sb) * pow2(ea + eb)
            * crate::rounding::one(),
{
    vstd::arithmetic::power2::lemma_pow2_adds(ea, eb);
    let x = pow2(ea);
    let y = pow2(eb);
    let o = pow2(1074);
    assert((sa * x) * (sb * y) * o == (sa * sb) * (x * y) * o) by (nonlinear_arith);
}

proof fn lemma_next_multiple(x: nat, p: nat, d: nat)
    requires
        p > 0,
        d > 0,
    ensures
        x * p * d < (x + 1) * p * d,
{
    assert(x * p * d < (x + 1) * p * d) by (nonlinear_arith)
        requires
            p > 0,
            d > 0,
    ;
}

impl Binary64 {
    /// The product with `other`, rounded.
    pub fn times(self, other: Binary64) -> (r: Binary64)
        ensures
            r == product(self, other),
    {
        broadcast use vstd::arithmetic::power2::lemma_pow2_pos;

        let a: u64 = self.magnitude_bits();
        let b: u64 = other.magnitude_bits();
        let negative: bool = self.is_negative() != other.is_negative();
        proof {
            lemma_size_zero(a as nat);
            lemma_size_zero(b as nat);
        }
        if a > INFINITE || b > INFINITE {
            return Binary64 { bits: NOT_A_NUMBER };
        }
        if a == INFINITE || b == INFINITE {
            if a == 0 || b == 0 {
                return Binary64 { bits: NOT_A_NUMBER };
            }
            return Binary64::with_sign(negative, INFINITE);
        }
        if a == 0 || b == 0 {
            proof {
                let x = self.size();
                let y = other.size();
                assert(x * y == 0) by (nonlinear_arith)
                    requires
                        x == 0 || y == 0,
                ;
                crate::rounding::zero_is_kept(crate::rounding::one());
            }
            return Binary64::with_sign(negative, 0);
        }
        let sa: u64 = significand_of(a);
        let sb: u64 = significand_of(b);
        let ea: u32 = step_of(a);
        let eb: u32 = step_of(b);
        proof {
            lemma_product_parts(sa as nat, ea as nat, sb as nat, eb as nat);
            assert(0 < sa as nat * sb as nat <= 0x20_0000_0000_0000 * 0x20_0000_0000_0000)
                by (nonlinear_arith)
                requires
                    0 < sa < 0x20_0000_0000_0000,
                    0 < sb < 0x20_0000_0000_0000,
            ;
            lemma_next_multiple(
                sa as nat * sb as nat,
                pow2((ea + eb) as nat),
                crate::rounding::one(),
            );
        }
        let mantissa: u128 = sa as u128 * sb as u128;
        let m: u64 = assemble(
            mantissa,
            false,
            ea as i32 + eb as i32 - 1074,
            Ghost(self.size() * other.size()),
            Ghost(crate::rounding::one()),
            Ghost((ea + eb) as nat),
            Ghost(1074),
        );
        Binary64::with_sign(negative, m)
    }

    /// The quotient by `other`, rounded.
    pub fn over(self, other: Binary64) -> (r: Binary64)
        ensures
            r == quotient(self, other),
    {
        broadcast use vstd::arithmetic::power2::lemma_pow2_pos;

        let a: u64 = self.magnitude_bits();
        let b: u64 = other.magnitude_bits();
        let negative: bool = self.is_negative() != other.is_negative();
        proof {
            lemma_size_zero(a as nat);
            lemma_size_zero(b as nat);
        }
        if a > INFINITE || b > INFINITE || (a == INFINITE && b == INFINITE) || (a == 0 && b == 0) {
            return Binary64 { bits: NOT_A_NUMBER };
        }
        if a == INFINITE || b == 0 {
            return Binary64::with_sign(negative, INFINITE);
        }
        if b == INFINITE {
            return Binary64::with_sign(negative, 0);
        }
        if a == 0 {
            proof {
                crate::rounding::zero_is_kept(other.size());
                assert(0 * crate::rounding::one() == 0);
            }
            return Binary64::with_sign(negative, 0);
        }
        let sa: u64 = significand_of(a);
        let sb: u64 = significand_of(b);
        let ea: u32 = step_of(a);
        let eb: u32 = step_of(b);
        // Shift the dividend until it has 53 digits.
        let mut dividend: u64 = sa;
        let mut k: u32 = 0;
        proof {
            crate::rounding::lemma_powers();
            assert(sa as nat * pow2(0) == sa);
        }
        while dividend < BAND
            invariant
                0 < dividend < 2 * BAND,
                dividend as nat == sa as nat * pow2(k as nat),
                k <= 52,
                0 < sa,
            decreases 2 * BAND - dividend,
        {
            proof {
                crate::rounding::lemma_powers();
                vstd::arithmetic::power2::lemma_pow2_unfold(k as nat + 1);
                let x = sa as nat;
                let y = pow2(k as nat);
                assert(x * (2 * y) == 2 * (x * y)) by (nonlinear_arith);
                if k >= 52 {
                    assert(x * y >= y) by (nonlinear_arith)
                        requires
                            x >= 1,
                    ;
                }
            }
            dividend = dividend * 2;
            k = k + 1;
        }
        let scale: u128 = 0x1_0000_0000_0000_0000;
        let wide: u128 = dividend as u128 * scale;
        let mantissa: u128 = wide / sb as u128;
        let rest: u128 = wide % sb as u128;
        let ghost p: nat = (ea + 1074) as nat;
        let ghost q: nat = (k + 64 + eb) as nat;
        proof {
            let w = wide as nat;
            let t = mantissa as nat;
            let y = sb as nat;
            vstd::arithmetic::div_mod::lemma_fundamental_div_mod(w as int, y as int);
            assert(w == y * t + rest as nat);
            assert(t <= w) by (nonlinear_arith)
                requires
                    y * t <= w,
                    y >= 1,
            ;
            assert(y * (t + 1) == y * t + y) by (nonlinear_arith);
            if t < 4 * BAND as nat {
                vstd::arithmetic::mul::lemma_mul_upper_bound(
                    y as int,
                    0x20_0000_0000_0000,
                    t as int + 1,
                    0x40_0000_0000_0000,
                );
            }
            lemma_quotient_parts(
                sa as nat,
                ea as nat,
                y,
                eb as nat,
                k as nat,
                w,
                t,
                rest as nat,
            );
        }
        let m: u64 = assemble(
            mantissa,
            rest != 0,
            ea as i32 + 1010 - k as i32 - eb as i32,
            Ghost(self.size() * crate::rounding::one()),
            Ghost(other.size()),
            Ghost(p),
            Ghost(q),
        );
        Binary64::with_sign(negative, m)
    }
}

proof fn lemma_quotient_parts(
    sa: nat,
    ea: nat,
    sb: nat,
    eb: nat,
    k: nat,
    wide: nat,
    t: nat,
    rest: nat,
)
    requires
        sb > 0,
        wide == sa * pow2(k) * pow2(64),
        wide == sb * t + rest,
        rest < sb,
    ensures
        ({
            let n = (sa * pow2(ea)) * crate::rounding::one();
            let d = sb * pow2(eb);
            let p = ea + 1074;
            let q = k + 64 + eb;
            &&& t * pow2(p) * d <= n * pow2(q) < (t + 1) * pow2(p) * d
            &&& (rest != 0 <==> n * pow2(q) != t * pow2(p) * d)
            &&& d > 0
        }),
{
    broadcast use vstd::arithmetic::power2::lemma_pow2_pos;

    let x = pow2(ea);
    let o = pow2(1074);
    let y = pow2(eb);
    let z = pow2(k);
    let f = pow2(64);
    vstd::arithmetic::power2::lemma_pow2_adds(ea, 1074);
    vstd::arithmetic::power2::lemma_pow2_adds(k, 64);
    vstd::arithmetic::power2::lemma_pow2_adds(k + 64, eb);
    let c = x * o * y;
    assert(c > 0) by (nonlinear_arith)
        requires
            x > 0,
            o > 0,
            y > 0,
            c == x * o * y,
    ;
    assert(((sa * x) * o) * ((z * f) * y) == (sa * z * f) * c) by (nonlinear_arith)
        requires
            c == x * o * y,
    ;
    assert(t * (x * o) * (sb * y) == (sb * t) * c) by (nonlinear_arith)
        requires
            c == x * o * y,
    ;
    assert((t + 1) * (x * o) * (sb * y) == (sb * t + sb) * c) by (nonlinear_arith)
        requires
            c == x * o * y,
    ;
    let base = sb * t;
    assert((base + rest) * c == base * c + rest * c) by (nonlinear_arith);
    assert(rest * c < sb * c) by (nonlinear_arith)
        requires
            rest < sb,
            c > 0,
    ;
    assert((base + sb) * c == base * c + sb * c) by (nonlinear_arith);
    assert(rest != 0 ==> rest * c > 0) by (nonlinear_arith)
        requires
            c > 0,
    ;
    assert(rest == 0 ==> rest * c == 0) by (nonlinear_arith);
    assert(sb * y > 0) by (nonlinear_arith)
        requires
            sb > 0,
            y > 0,
    ;
}

proof fn lemma_shifted(sa: nat, ea: nat, shift: nat, eb: nat)
    requires
        ea == shift + eb,
    ensures
        sa * pow2(ea) == (sa * pow2(shift)) * pow2(eb),
{
    vstd::arithmetic::power2::lemma_pow2_adds(shift, eb);
    let x = pow2(shift);
    let y = pow2(eb);
    assert(sa * (x * y) == (sa * x) * y) by (nonlinear_arith);
}

proof fn lemma_wide_bounds(s: nat, shift: nat)
    requires
        s < 2 * BAND,
        shift <= 64,
    ensures
        s * pow2(shift) <= 0x20_0000_0000_0000 * 0x1_0000_0000_0000_0000,
        s >= BAND ==> s * pow2(64) >= 0x10_0000_0000_0000 * 0x1_0000_0000_0000_0000,
{
    crate::rounding::lemma_powers();
    if shift < 64 {
        vstd::arithmetic::power2::lemma_pow2_strictly_increases(shift, 64);
    }
    vstd::arithmetic::mul::lemma_mul_upper_bound(
        s as int,
        0x20_0000_0000_0000,
        pow2(shift) as int,
        0x1_0000_0000_0000_0000,
    );
}

/// How often 2^t fits into `s`, and whether it does so exactly.
fn split(s: u64, t: u32) -> (r: (u64, bool))
    requires
        s < 2 * BAND,
        t > 0,
    ensures
        r.0 as nat * pow2(t as nat) <= s < (r.0 as nat + 1) * pow2(t as nat),
        r.1 <==> r.0 as nat * pow2(t as nat) == s,
        r.0 <= s,
{
    broadcast use vstd::arithmetic::power2::lemma_pow2_pos;

    proof {
        crate::rounding::lemma_powers();
    }
    if t >= 64 {
        proof {
            if t > 64 {
                vstd::arithmetic::power2::lemma_pow2_strictly_increases(64, t as nat);
            }
            let z = pow2(t as nat);
            assert(0 * z == 0) by (nonlinear_arith);
            assert((0nat + 1) * z == z) by (nonlinear_arith);
        }
        return (0, s == 0);
    }
    let size: u128 = power_of_two(t);
    let count: u128 = s as u128 / size;
    let rest: u128 = s as u128 % size;
    proof {
        vstd::arithmetic::div_mod::lemma_fundamental_div_mod(s as int, size as int);
        let c = count as nat;
        let z = size as nat;
        assert(c * z == z * c) by (nonlinear_arith);
        assert((c + 1) * z == c * z + z) by (nonlinear_arith);
        assert(c <= c * z) by (nonlinear_arith)
            requires
                z >= 1,
        ;
    }
    (count as u64, rest == 0)
}

/// The magnitude of the sum of two magnitudes' values, rounded.
fn sum_magnitude(a: u64, b: u64) -> (m: u64)
    requires
        b <= a < INFINITE,
    ensures
        m == crate::rounding::rounded(
            crate::rounding::units(a as nat) + crate::rounding::units(b as nat),
            1,
        ),
        m <= INFINITE,
{
    broadcast use vstd::arithmetic::power2::lemma_pow2_pos;

    proof {
        lemma_size_zero(b as nat);
        crate::rounding::lemma_powers();
    }
    if b == 0 {
        proof {
            crate::rounding::representable_is_kept(a as nat);
        }
        return a;
    }
    let sa: u64 = significand_of(a);
    let sb: u64 = significand_of(b);
    let ea: u32 = step_of(a);
    let eb: u32 = step_of(b);
    assert(ea >= eb);
    let shift: u32 = ea - eb;
    let ghost n = crate::rounding::units(a as nat) + crate::rounding::units(b as nat);
    if shift <= 64 {
        proof {
            lemma_shifted(sa as nat, ea as nat, shift as nat, eb as nat);
            lemma_wide_bounds(sa as nat, shift as nat);
            let x = sa as nat * pow2(shift as nat);
            let y = sb as nat;
            let p = pow2(eb as nat);
            assert((x + y) * p == x * p + y * p) by (nonlinear_arith);
            lemma_next_multiple(x + y, p, 1);
            assert((x + y) * p * 1 == (x + y) * p);
            assert(n * pow2(0) == n);
        }
        let mantissa: u128 = sa as u128 * power_of_two(shift) + sb as u128;
        assemble(mantissa, false, eb as i32, Ghost(n), Ghost(1), Ghost(eb as nat), Ghost(0))
    } else {
        let t: u32 = shift - 64;
        let (count, exact) = split(sb, t);
        proof {
            lemma_shifted(sa as nat, ea as nat, 64, (ea - 64) as nat);
            lemma_wide_bounds(sa as nat, 64);
            vstd::arithmetic::power2::lemma_pow2_adds(t as nat, eb as nat);
            let x = sa as nat * pow2(64);
            let c = count as nat;
            let tt = pow2(t as nat);
            let p = pow2(eb as nat);
            let y = sb as nat;
            let whole = x + c;
            assert(whole * (tt * p) == x * (tt * p) + (c * tt) * p) by (nonlinear_arith)
                requires
                    whole == x + c,
            ;
            assert((whole + 1) * (tt * p) == x * (tt * p) + ((c + 1) * tt) * p)
                by (nonlinear_arith)
                requires
                    whole == x + c,
            ;
            let low = c * tt;
            let high = (c + 1) * tt;
            assert(low * p <= y * p && y * p < high * p && (low != y ==> low * p < y * p))
                by (nonlinear_arith)
                requires
                    low <= y,
                    y < high,
                    p > 0,
            ;
            assert(n * pow2(0) == n);
            assert(whole * (tt * p) * 1 == whole * (tt * p));
            assert((whole + 1) * (tt * p) * 1 == (whole + 1) * (tt * p));
        }
        let mantissa: u128 = sa as u128 * 0x1_0000_0000_0000_0000 + count as u128;
        assemble(
            mantissa,
            !exact,
            ea as i32 - 64,
            Ghost(n),
            Ghost(1),
            Ghost((ea - 64) as nat),
            Ghost(0),
        )
    }
}

/// The magnitude of the difference of two magnitudes' values, rounded.
fn difference_magnitude(a: u64, b: u64) -> (m: u64)
    requires
        b <= a < INFINITE,
    ensures
        m == crate::rounding::rounded(
            (crate::rounding::units(a as nat) - crate::rounding::units(b as nat)) as nat,
            1,
        ),
        m <= INFINITE,
{
    broadcast use vstd::arithmetic::power2::lemma_pow2_pos;

    proof {
        lemma_size_zero(b as nat);
        crate::rounding::lemma_powers();
    }
    if b == 0 {
        proof {
            crate::rounding::representable_is_kept(a as nat);
        }
        return a;
    }
    if a == b {
        proof {
            crate::rounding::zero_is_kept(1);
        }
        return 0;
    }
    proof {
        crate::rounding::units_increase(b as nat, a as nat);
    }
    let sa: u64 = significand_of(a);
    let sb: u64 = significand_of(b);
    let ea: u32 = step_of(a);
    let eb: u32 = step_of(b);
    assert(ea >= eb);
    let shift: u32 = ea - eb;
    let ghost n = (crate::rounding::units(a as nat) - crate::rounding::units(b as nat)) as nat;
    if shift <= 64 {
        proof {
            lemma_shifted(sa as nat, ea as nat, shift as nat, eb as nat);
            lemma_wide_bounds(sa as nat, shift as nat);
            let x = sa as nat * pow2(shift as nat);
            let y = sb as nat;
            let p = pow2(eb as nat);
            assert(y < x) by (nonlinear_arith)
                requires
                    y * p < x * p,
                    p > 0,
            ;
            let z = (x - y) as nat;
            assert(z * p == x * p - y * p) by (nonlinear_arith)
                requires
                    z == x - y,
            ;
            lemma_next_multiple(z, p, 1);
            assert(z * p * 1 == z * p);
            assert(n * pow2(0) == n);
        }
        let mantissa: u128 = sa as u128 * power_of_two(shift) - sb as u128;
        assemble(mantissa, false, eb as i32, Ghost(n), Ghost(1), Ghost(eb as nat), Ghost(0))
    } else {
        let t: u32 = shift - 64;
        let (count, exact) = split(sb, t);
        let taken: u64 = if exact {
            count
        } else {
            count + 1
        };
        proof {
            lemma_shifted(sa as nat, ea as nat, 64, (ea - 64) as nat);
            lemma_wide_bounds(sa as nat, 64);
            vstd::arithmetic::power2::lemma_pow2_adds(t as nat, eb as nat);
            let x = sa as nat * pow2(64);
            let c = taken as nat;
            let tt = pow2(t as nat);
            let p = pow2(eb as nat);
            let y = sb as nat;
            let whole = (x - c) as nat;
            assert(whole * (tt * p) == x * (tt * p) - (c * tt) * p) by (nonlinear_arith)
                requires
                    whole == x - c,
            ;
            assert((whole + 1) * (tt * p) == x * (tt * p) - (c * tt) * p + tt * p)
                by (nonlinear_arith)
                requires
                    whole == x - c,
            ;
            let high = c * tt;
            assert((c + 1) * tt == c * tt + tt) by (nonlinear_arith);
            let k = count as nat;
            assert((k + 1) * tt == k * tt + tt) by (nonlinear_arith);
            assert(y <= high && high < y + tt);
            let top = y + tt;
            assert(top * p == y * p + tt * p) by (nonlinear_arith)
                requires
                    top == y + tt,
            ;
            assert(y * p <= high * p && high * p < top * p && (high != y ==> y * p < high * p))
                by (nonlinear_arith)
                requires
                    y <= high,
                    high < top,
                    p > 0,
            ;
            assert(n * pow2(0) == n);
            assert(whole * (tt * p) * 1 == whole * (tt * p));
            assert((whole + 1) * (tt * p) * 1 == (whole + 1) * (tt * p));
        }
        let mantissa: u128 = sa as u128 * 0x1_0000_0000_0000_0000 - taken as u128;
        assemble(
            mantissa,
            !exact,
            ea as i32 - 64,
            Ghost(n),
            Ghost(1),
            Ghost((ea - 64) as nat),
            Ghost(0),
        )
    }
}

impl Binary64 {
    /// How far this number and `other` are apart, rounded.
    pub fn distance(self, other: Binary64) -> (r: Binary64)
        ensures
            r == apart(self, other),
    {
        let a: u64 = self.magnitude_bits();
        let b: u64 = other.magnitude_bits();
        let alike: bool = self.is_negative() == other.is_negative();
        if a > INFINITE || b > INFINITE || (a == INFINITE && b == INFINITE && alike) {
            return Binary64 { bits: NOT_A_NUMBER };
        }
        if a == INFINITE || b == INFINITE {
            return Binary64 { bits: INFINITE };
        }
        proof {
            if a < b {
                crate::rounding::units_increase(a as nat, b as nat);
            } else if b < a {
                crate::rounding::units_increase(b as nat, a as nat);
            }
        }
        let m: u64 = if alike {
            if b <= a {
                difference_magnitude(a, b)
            } else {
                difference_magnitude(b, a)
            }
        } else if b <= a {
            sum_magnitude(a, b)
        } else {
            sum_magnitude(b, a)
        };
        Binary64 { bits: m }
    }

    /// This number, or the limit that it lies beyond.
    pub fn clamp(self, low: Binary64, high: Binary64) -> (r: Binary64)
        ensures
            r == clamped(self, low, high),
    {
        if self.is_below(low) {
            low
        } else if high.is_below(self) {
            high
        } else {
            self
        }
    }

    /// The number nearest to a whole number.
    pub fn whole(n: u64) -> (r: Binary64)
        ensures
            r == whole_number(n as nat),
    {
        broadcast use vstd::arithmetic::power2::lemma_pow2_pos;

        if n == 0 {
            proof {
                assert(0 * crate::rounding::one() == 0);
                crate::rounding::zero_is_kept(1);
            }
            return Binary64 { bits: 0 };
        }
        proof {
            crate::rounding::lemma_powers();
            lemma_next_multiple(n as nat, pow2(1074), 1);
            let x = n as nat * pow2(1074);
            assert(x * 1 == x);
            assert(x * pow2(0) == x);
        }
        let m: u64 = assemble(
            n as u128,
            false,
            1074,
            Ghost(n as nat * crate::rounding::one()),
            Ghost(1),
            Ghost(1074),
            Ghost(0),
        );
        Binary64 { bits: m }
    }
}

proof fn lemma_cut(s: nat, e: nat, f: nat)
    requires
        e + f == 1074,
    ensures
        (s * pow2(e)) / crate::rounding::one() == s / pow2(f),
        (s * pow2(e)) % crate::rounding::one() == 0 <==> s % pow2(f) == 0,
        (2 * (s * pow2(e)) + crate::rounding::one()) / (2 * crate::rounding::one()) == (2 * s
            + pow2(f)) / (2 * pow2(f)),
{
    broadcast use vstd::arithmetic::power2::lemma_pow2_pos;

    vstd::arithmetic::power2::lemma_pow2_adds(e, f);
    let x = pow2(e);
    let y = pow2(f);
    assert(crate::rounding::one() == x * y);
    assert(s * x == x * s) by (nonlinear_arith);
    vstd::arithmetic::div_mod::lemma_div_multiples_vanish_quotient(x as int, s as int, y as int);
    let q = s / y;
    let r = s % y;
    vstd::arithmetic::div_mod::lemma_fundamental_div_mod(s as int, y as int);
    assert(s * x == q * (x * y) + r * x) by (nonlinear_arith)
        requires
            s == y * q + r,
    ;
    assert(0 <= r * x < x * y) by (nonlinear_arith)
        requires
            0 <= r < y,
            x > 0,
    ;
    vstd::arithmetic::div_mod::lemma_fundamental_div_mod_converse(
        (s * x) as int,
        (x * y) as int,
        q as int,
        (r * x) as int,
    );
    assert(r * x == 0 <==> r == 0) by (nonlinear_arith)
        requires
            x > 0,
    ;
    assert(2 * (s * x) + x * y == x * (2 * s + y)) by (nonlinear_arith);
    assert(2 * (x * y) == x * (2 * y)) by (nonlinear_arith);
    vstd::arithmetic::div_mod::lemma_div_multiples_vanish_quotient(
        x as int,
        2 * s as int + y as int,
        2 * y as int,
    );
}

proof fn lemma_large_is_saturated(s: nat, e: nat)
    requires
        s >= BAND,
        e >= 1074,
    ensures
        (s * pow2(e)) / crate::rounding::one() >= 65536,
        (2 * (s * pow2(e)) + crate::rounding::one()) / (2 * crate::rounding::one()) >= 65536,
{
    broadcast use vstd::arithmetic::power2::lemma_pow2_pos;

    let o = crate::rounding::one();
    vstd::arithmetic::power2::lemma_pow2_adds(1074, (e - 1074) as nat);
    let x = pow2((e - 1074) as nat);
    let v = s * pow2(e);
    assert(v >= 65536 * o) by (nonlinear_arith)
        requires
            v == s * (o * x),
            s >= 65536,
            x >= 1,
    ;
    vstd::arithmetic::div_mod::lemma_div_is_ordered((65536 * o) as int, v as int, o as int);
    vstd::arithmetic::div_mod::lemma_div_multiples_vanish(65536, o as int);
    assert(65536 * o == o * 65536) by (nonlinear_arith);
    assert(65536 * (2 * o) <= 2 * v + o) by (nonlinear_arith)
        requires
            v >= 65536 * o,
    ;
    vstd::arithmetic::div_mod::lemma_div_is_ordered(
        (65536 * (2 * o)) as int,
        (2 * v + o) as int,
        (2 * o) as int,
    );
    vstd::arithmetic::div_mod::lemma_div_multiples_vanish(65536, (2 * o) as int);
    assert(65536 * (2 * o) == (2 * o) * 65536) by (nonlinear_arith);
}

impl Binary64 {
    /// The number rounded up to a whole number of 16 bits; greater numbers give
    /// the greatest of those.
    pub fn ceil_u16(self) -> (r: u16)
        requires
            !self.nan(),
            self.value() >= 0,
        ensures
            r == saturated(ceiling(self.value() as nat)),
    {
        let m: u64 = self.magnitude_bits();
        let s: u64 = significand_of(m);
        let e: u32 = step_of(m);
        if e >= 1074 {
            proof {
                lemma_large_is_saturated(s as nat, e as nat);
            }
            return 65535;
        }
        let f: u32 = 1074 - e;
        proof {
            lemma_cut(s as nat, e as nat, f as nat);
        }
        let (count, exact) = split(s, f);
        proof {
            let y = pow2(f as nat);
            let rest = s - count as nat * y;
            assert((count as nat + 1) * y == count as nat * y + y) by (nonlinear_arith);
            vstd::arithmetic::div_mod::lemma_fundamental_div_mod_converse(
                s as int,
                y as int,
                count as int,
                rest,
            );
        }
        let whole: u64 = if exact {
            count
        } else {
            count + 1
        };
        if whole < 65535 {
            whole as u16
        } else {
            65535
        }
    }

    /// The number rounded to the nearest whole number of 16 bits, halves
    /// upward; greater numbers give the greatest of those.
    pub fn round_u16(self) -> (r: u16)
        requires
            !self.nan(),
            self.value() >= 0,
        ensures
            r == saturated(nearest_whole(self.value() as nat)),
    {
        broadcast use vstd::arithmetic::power2::lemma_pow2_pos;

        let m: u64 = self.magnitude_bits();
        let s: u64 = significand_of(m);
        let e: u32 = step_of(m);
        if e >= 1074 {
            proof {
                lemma_large_is_saturated(s as nat, e as nat);
            }
            return 65535;
        }
        let f: u32 = 1074 - e;
        proof {
            lemma_cut(s as nat, e as nat, f as nat);
            crate::rounding::lemma_powers();
        }
        if f > 60 {
            proof {
                vstd::arithmetic::power2::lemma_pow2_strictly_increases(54, f as nat);
                vstd::arithmetic::div_mod::lemma_fundamental_div_mod_converse(
                    2 * s as int + pow2(f as nat) as int,
                    2 * pow2(f as nat) as int,
                    0,
                    2 * s as int + pow2(f as nat) as int,
                );
            }
            return 0;
        }
        let size: u128 = power_of_two(f);
        proof {
            vstd::arithmetic::power2::lemma_pow2_strictly_increases(f as nat, 64);
        }
        let whole: u128 = (2 * s as u128 + size) / (2 * size);
        if whole < 65535 {
            whole as u16
        } else {
            65535
        }
    }
}

/// An encoding denotes a number as IEEE 754 says: the highest bit is the sign,
/// eleven bits are the exponent, and the others the fraction. The greatest
/// exponent stands for infinity, and with a fraction for no number.
pub proof fn encodings_denote_numbers(exponent: u64, fraction: u64)
    requires
        exponent < 2048,
        fraction < 0x10_0000_0000_0000,
    ensures
        ({
            let low = Binary64 { bits: (exponent * 0x10_0000_0000_0000 + fraction) as u64 };
            let high = Binary64 {
                bits: (0x8000_0000_0000_0000 + exponent * 0x10_0000_0000_0000 + fraction) as u64,
            };
            &&& high.value() == -low.value()
            &&& high.nan() == low.nan()
            &&& low.nan() <==> exponent == 2047 && fraction > 0
            &&& low.infinite() <==> exponent == 2047 && fraction == 0
            &&& low.finite() <==> exponent < 2047
            &&& exponent == 0 ==> low.value() == fraction
            &&& 1 <= exponent <= 2046 ==> low.value() == (0x10_0000_0000_0000 + fraction) * pow2(
                (exponent - 1) as nat,
            )
        }),
{
    crate::rounding::magnitudes_count_units(exponent as nat, fraction as nat);
}

/// Comparisons, and being a fraction or a percentage, go by the values; what is
/// no number is none of it.
pub proof fn comparisons_go_by_value(a: Binary64, b: Binary64)
    ensures
        a.below(b) <==> !a.nan() && !b.nan() && a.value() < b.value(),
        a.fraction() <==> !a.nan() && 0 <= a.value() <= crate::rounding::one(),
        a.percentage() <==> !a.nan() && 0 <= a.value() <= 100 * crate::rounding::one(),
{
}

/// A product is the number nearest to the exact one, with the sign that the
/// factors give it.
pub proof fn products_are_nearest(a: Binary64, b: Binary64, other: Binary64)
    requires
        a.finite(),
        b.finite(),
        product(a, b).finite(),
    ensures
        gap(
            (product(a, b).size() * crate::rounding::one()) as int,
            (a.size() * b.size()) as int,
        ) <= gap(
            (other.size() * crate::rounding::one()) as int,
            (a.size() * b.size()) as int,
        ),
        a.negative() == b.negative() ==> product(a, b).value() >= 0,
        a.negative() != b.negative() ==> product(a, b).value() <= 0,
{
    lemma_literals();
    let n = a.size() * b.size();
    let m = crate::rounding::rounded(n, crate::rounding::one());
    assert(product(a, b).magnitude() == m);
    crate::rounding::rounding_is_nearest(
        n,
        crate::rounding::one(),
        other.magnitude() as nat,
    );
}

/// A quotient is the number nearest to the exact one, with the sign that the
/// operands give it.
pub proof fn quotients_are_nearest(a: Binary64, b: Binary64, other: Binary64)
    requires
        a.finite(),
        b.finite(),
        b.size() > 0,
        quotient(a, b).finite(),
    ensures
        gap(
            (quotient(a, b).size() * b.size()) as int,
            (a.size() * crate::rounding::one()) as int,
        ) <= gap((other.size() * b.size()) as int, (a.size() * crate::rounding::one()) as int),
        a.negative() == b.negative() ==> quotient(a, b).value() >= 0,
        a.negative() != b.negative() ==> quotient(a, b).value() <= 0,
{
    lemma_literals();
    let n = a.size() * crate::rounding::one();
    let m = crate::rounding::rounded(n, b.size());
    assert(quotient(a, b).magnitude() == m);
    crate::rounding::rounding_is_nearest(n, b.size(), other.magnitude() as nat);
}

/// A distance is the number nearest to the exact one.
pub proof fn distances_are_nearest(a: Binary64, b: Binary64, other: Binary64)
    requires
        a.finite(),
        b.finite(),
        apart(a, b).finite(),
    ensures
        !apart(a, b).negative(),
        gap(apart(a, b).value(), gap(a.value(), b.value()) as int) <= gap(
            other.size() as int,
            gap(a.value(), b.value()) as int,
        ),
{
    lemma_literals();
    let n = gap(a.value(), b.value());
    crate::rounding::rounding_is_nearest(n, 1, other.magnitude() as nat);
    assert(apart(a, b).size() * 1 == apart(a, b).size());
    assert(other.size() * 1 == other.size());
}

/// What is no number spoils a result, and so do zero times infinity and a
/// quotient of zeros or of infinities. Other results with infinity or a zero
/// divisor are infinite or zero.
pub proof fn odd_operands_give_odd_results(a: Binary64, b: Binary64)
    ensures
        a.nan() || b.nan() ==> product(a, b).nan() && quotient(a, b).nan() && apart(a, b).nan(),
        a.infinite() && b.value() == 0 && !b.nan() ==> product(a, b).nan() && product(b, a).nan(),
        a.infinite() && b.value() != 0 && !b.nan() ==> product(a, b).infinite() && product(
            b,
            a,
        ).infinite(),
        a.infinite() && b.infinite() ==> quotient(a, b).nan(),
        a.value() == 0 && !a.nan() && b.value() == 0 && !b.nan() ==> quotient(a, b).nan(),
        a.infinite() && b.finite() ==> quotient(a, b).infinite() && quotient(b, a).value() == 0,
        a.finite() && a.value() != 0 && b.finite() && b.value() == 0 ==> quotient(a, b).infinite(),
        a.infinite() && b.finite() ==> apart(a, b).infinite() && apart(b, a).infinite(),
        a.infinite() && b.infinite() ==> (apart(a, b).nan() <==> a.negative() == b.negative()),
{
    lemma_size_zero(0);
    lemma_size_zero(a.magnitude() as nat);
    lemma_size_zero(b.magnitude() as nat);
}

/// Clamping gives a number within the limits: the number itself where it lies
/// between them, and else the limit that it lies beyond.
pub proof fn clamping_stays_within_limits(x: Binary64, low: Binary64, high: Binary64)
    requires
        !low.nan(),
        !high.nan(),
        low.value() <= high.value(),
    ensures
        !x.nan() ==> low.value() <= clamped(x, low, high).value() <= high.value(),
        !x.nan() && x.value() < low.value() ==> clamped(x, low, high) == low,
        !x.nan() && x.value() > high.value() ==> clamped(x, low, high) == high,
        !x.nan() && low.value() <= x.value() <= high.value() ==> clamped(x, low, high) == x,
        x.nan() ==> clamped(x, low, high) == x,
{
}

/// A whole number is encoded as the nearest number.
pub proof fn whole_numbers_are_nearest(n: nat, other: Binary64)
    requires
        whole_number(n).finite(),
    ensures
        !whole_number(n).negative(),
        gap(whole_number(n).value(), (n * crate::rounding::one()) as int) <= gap(
            other.size() as int,
            (n * crate::rounding::one()) as int,
        ),
{
    let v = n * crate::rounding::one();
    crate::rounding::rounding_is_nearest(v, 1, other.magnitude() as nat);
    assert(whole_number(n).size() * 1 == whole_number(n).size());
    assert(other.size() * 1 == other.size());
}

/// The ceiling is the least whole number that is not less; the nearest whole
/// number is within a half, and above where two are equally near.
pub proof fn whole_numbers_are_found(v: nat)
    ensures
        ({
            let o = crate::rounding::one();
            &&& v <= ceiling(v) * o
            &&& ceiling(v) * o < v + o
            &&& 2 * (nearest_whole(v) * o) <= 2 * v + o
            &&& 2 * v < 2 * (nearest_whole(v) * o) + o
        }),
{
    lemma_literals();
    let o = crate::rounding::one();
    vstd::arithmetic::div_mod::lemma_fundamental_div_mod(v as int, o as int);
    vstd::arithmetic::div_mod::lemma_fundamental_div_mod((2 * v + o) as int, (2 * o) as int);
    let q = v / o;
    let w = nearest_whole(v);
    assert(q * o <= v && v < q * o + o && (q + 1) * o == q * o + o) by (nonlinear_arith)
        requires
            v == o * q + v % o,
            0 <= v % o < o,
    ;
    if v % o == 0 {
        assert(q * o == v) by (nonlinear_arith)
            requires
                v == o * q + v % o,
                v % o == 0,
        ;
    } else {
        assert(q * o < v) by (nonlinear_arith)
            requires
                v == o * q + v % o,
                v % o > 0,
        ;
    }
    assert(2 * (w * o) <= 2 * v + o && 2 * v < 2 * (w * o) + o) by (nonlinear_arith)
        requires
            2 * v + o == (2 * o) * w + (2 * v + o) % (2 * o),
            0 <= (2 * v + o) % (2 * o) < 2 * o,
    ;
}

/// A number becomes a 16-bit one as it is, or the greatest one.
pub proof fn saturation_keeps_what_fits(n: nat)
    ensures
        n <= 65535 ==> saturated(n) == n,
        n > 65535 ==> saturated(n) == 65535,
{
}

/// Results within the range of finite numbers are finite.
pub proof fn results_within_range_are_finite(a: Binary64, b: Binary64)
    requires
        a.finite(),
        b.finite(),
    ensures
        ({
            let greatest = crate::rounding::units(0x7fef_ffff_ffff_ffff);
            let o = crate::rounding::one();
            &&& a.size() * b.size() <= greatest * o ==> product(a, b).finite()
            &&& b.size() > 0 && a.size() * o <= greatest * b.size() ==> quotient(a, b).finite()
            &&& gap(a.value(), b.value()) <= greatest ==> apart(a, b).finite()
        }),
{
    lemma_literals();
    let o = crate::rounding::one();
    let top: nat = 0x7fef_ffff_ffff_ffff;
    crate::rounding::rounding_respects_magnitudes(a.size() * b.size(), o, top);
    if b.size() > 0 {
        crate::rounding::rounding_respects_magnitudes(a.size() * o, b.size(), top);
    }
    crate::rounding::rounding_respects_magnitudes(gap(a.value(), b.value()), 1, top);
    assert(crate::rounding::units(top) * 1 == crate::rounding::units(top));
    lemma_size_zero(b.magnitude() as nat);
}

proof fn lemma_leading_power(n: nat) -> (j: nat)
    requires
        n > 0,
    ensures
        pow2(j) <= n < pow2(j + 1),
    decreases n,
{
    vstd::arithmetic::power2::lemma2_to64();
    if n == 1 {
        0
    } else {
        let j = lemma_leading_power(n / 2);
        vstd::arithmetic::power2::lemma_pow2_unfold(j + 1);
        vstd::arithmetic::power2::lemma_pow2_unfold(j + 2);
        j + 1
    }
}

/// Whole numbers below 2^53 are encoded exactly.
pub proof fn small_whole_numbers_are_exact(n: nat)
    requires
        n < 0x20_0000_0000_0000,
    ensures
        whole_number(n).finite(),
        whole_number(n).value() == n * crate::rounding::one(),
{
    crate::rounding::lemma_powers();
    let o = crate::rounding::one();
    let band: nat = 0x10_0000_0000_0000;
    if n == 0 {
        assert(0 * o == 0);
        crate::rounding::zero_is_kept(1);
        lemma_size_zero(0);
    } else {
        let j = lemma_leading_power(n);
        if j >= 53 {
            if j > 53 {
                vstd::arithmetic::power2::lemma_pow2_strictly_increases(53, j);
            }
        }
        assert(j <= 52);
        let x = pow2((52 - j) as nat);
        let y = pow2((1022 + j) as nat);
        vstd::arithmetic::power2::lemma_pow2_adds(j, (52 - j) as nat);
        vstd::arithmetic::power2::lemma_pow2_adds(j + 1, (52 - j) as nat);
        vstd::arithmetic::power2::lemma_pow2_adds((52 - j) as nat, 1022 + j);
        vstd::arithmetic::power2::lemma_pow2_pos((52 - j) as nat);
        let low = pow2(j);
        let high = pow2(j + 1);
        let digits = n * x;
        assert(low * x <= digits && digits < high * x) by (nonlinear_arith)
            requires
                low <= n,
                n < high,
                digits == n * x,
                x > 0,
        ;
        assert(band <= digits && digits < 2 * band);
        let fraction = (digits - band) as nat;
        let exponent = 1023 + j;
        let m = exponent * band + fraction;
        crate::rounding::magnitudes_count_units(exponent, fraction);
        assert(digits * y == n * (x * y)) by (nonlinear_arith)
            requires
                digits == n * x,
        ;
        assert(crate::rounding::units(m) == n * o);
        assert(m < INFINITE);
        crate::rounding::representable_is_kept(m);
    }
}

/// A gap is what leads from the lesser of two values to the greater one.
pub proof fn gaps_lead_from_one_to_the_other(a: int, b: int)
    ensures
        a <= b ==> a + gap(a, b) == b,
        b <= a ==> b + gap(a, b) == a,
        gap(a, b) == gap(b, a),
{
}

} // verus!
