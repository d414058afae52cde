//! Rounding to the nearest 64-bit floating-point number, on natural numbers.
//!
//! A finite number without its sign is given by its magnitude: the low 63 bits
//! of its IEEE 754 encoding. Every such number is a whole multiple of the
//! smallest one, the unit 2^-1074, so its value is a count of units.

use vstd::prelude::*;
use vstd::arithmetic::power2::pow2;

verus! {

/// The magnitude of infinity; greater magnitudes are not numbers.
pub const INFINITE: u64 = 0x7ff0_0000_0000_0000;

/// How many magnitudes share one exponent: 2^52.
pub const BAND: u64 = 0x10_0000_0000_0000;

/// The exponent, in powers of two, of the distance from the magnitude `m` to
/// the next one.
pub open spec fn step(m: nat) -> nat {
    if m < BAND {
        0
    } else {
        (m / BAND as nat - 1) as nat
    }
}

/// The significand of the magnitude `m`, as a whole number.
pub open spec fn significand(m: nat) -> nat {
    if m < BAND {
        m
    } else {
        BAND as nat + m % BAND as nat
    }
}

/// The value of the magnitude `m`, in units.
pub open spec fn units(m: nat) -> nat {
    significand(m) * pow2(step(m))
}

/// How many units make one.
pub open spec fn one() -> nat {
    pow2(1074)
}

/// Whether `m` is the magnitude nearest to `n / d` units, and the even one
/// where two are equally near. Exponents are taken to have no upper limit.
pub open spec fn closest(n: nat, d: nat, m: nat) -> bool {
    &&& m > 0 ==> {
        let below = (units((m - 1) as nat) + units(m)) * d;
        below < 2 * n || (below == 2 * n && m % 2 == 0)
    }
    &&& {
        let above = (units(m) + units(m + 1)) * d;
        2 * n < above || (2 * n == above && m % 2 == 0)
    }
}

/// The magnitude that `n / d` units are rounded to: the closest one, and
/// infinity where that one lies beyond the finite magnitudes.
pub open spec fn rounded(n: nat, d: nat) -> u64 {
    let m = choose|m: nat| closest(n, d, m);
    if m < INFINITE {
        m as u64
    } else {
        INFINITE
    }
}

/// The powers of two that the encoding is built on.
pub proof fn lemma_powers()
    ensures
        pow2(0) == 1,
        pow2(52) == BAND,
        pow2(53) == 2 * BAND,
        pow2(54) == 4 * BAND,
        pow2(64) == 0x1_0000_0000_0000_0000,
        pow2(120) == 0x100_0000_0000_0000_0000_0000_0000_0000,
        pow2(127) == 0x8000_0000_0000_0000_0000_0000_0000_0000,
{
    vstd::arithmetic::power2::lemma2_to64();
    vstd::arithmetic::power2::lemma2_to64_rest();
    vstd::arithmetic::power2::lemma_pow2_adds(64, 56);
    vstd::arithmetic::power2::lemma_pow2_adds(64, 63);
}

/// The next magnitude is greater by the power of two that `step` gives.
pub proof fn next_magnitude(m: nat)
    ensures
        units(m + 1) == units(m) + pow2(step(m)),
        pow2(step(m)) > 0,
{
    broadcast use vstd::arithmetic::power2::lemma_pow2_pos;

    lemma_powers();
    let b = BAND as nat;
    let p = pow2(step(m));
    if m + 1 < b {
        assert(p == 1);
        assert(units(m) == m * p);
        assert(units(m + 1) == (m + 1) * p);
        assert((m + 1) * p == m * p + p) by (nonlinear_arith);
    } else if m + 1 == b {
        assert((m + 1) / b == 1 && (m + 1) % b == 0);
        assert(p == 1);
        assert(step(m + 1) == 0 && significand(m + 1) == m + 1);
        assert(units(m) == m * p);
        assert(units(m + 1) == (m + 1) * p);
        assert((m + 1) * p == m * p + p) by (nonlinear_arith);
    } else if (m + 1) % b == 0 {
        assert((m + 1) / b == m / b + 1 && m % b == b - 1);
        vstd::arithmetic::power2::lemma_pow2_unfold(step(m + 1));
        assert(significand(m + 1) == b);
        assert(significand(m) == 2 * b - 1);
        assert(units(m + 1) == b * (2 * p));
        assert(units(m) == (2 * b - 1) * p);
        assert(b * (2 * p) == (2 * b - 1) * p + p) by (nonlinear_arith);
    } else {
        assert((m + 1) / b == m / b && (m + 1) % b == m % b + 1);
        let s = significand(m);
        assert(units(m + 1) == (s + 1) * p);
        assert((s + 1) * p == s * p + p) by (nonlinear_arith);
    }
}

/// A greater magnitude has a greater value.
pub proof fn units_increase(m: nat, k: nat)
    requires
        m < k,
    ensures
        units(m) < units(k),
    decreases k,
{
    next_magnitude((k - 1) as nat);
    if m < k - 1 {
        units_increase(m, (k - 1) as nat);
    }
}

/// At most one magnitude is the closest.
pub proof fn closest_is_unique(n: nat, d: nat, a: nat, b: nat)
    requires
        d > 0,
        closest(n, d, a),
        closest(n, d, b),
    ensures
        a == b,
{
    if a < b {
        lemma_closest_not_below(n, d, a, b);
    } else if b < a {
        lemma_closest_not_below(n, d, b, a);
    }
}

proof fn lemma_closest_not_below(n: nat, d: nat, a: nat, b: nat)
    requires
        d > 0,
        closest(n, d, a),
        a < b,
    ensures
        !closest(n, d, b),
{
    let x = units(a) + units(a + 1);
    let y = units((b - 1) as nat) + units(b);
    if a + 1 < b {
        units_increase(a, (b - 1) as nat);
        units_increase(a + 1, b);
        assert(x * d < y * d) by (nonlinear_arith)
            requires
                x < y,
                d > 0,
        ;
    }
}

/// The closest magnitude is the one that rounding gives.
pub proof fn closest_is_rounded(n: nat, d: nat, m: nat)
    requires
        d > 0,
        closest(n, d, m),
    ensures
        rounded(n, d) == (if m < INFINITE {
            m as u64
        } else {
            INFINITE
        }),
{
    let k = choose|k: nat| closest(n, d, k);
    closest_is_unique(n, d, m, k);
}

/// A value that a magnitude has is rounded to that magnitude.
pub proof fn representable_is_kept(m: nat)
    requires
        m <= INFINITE,
    ensures
        rounded(units(m), 1) == m,
{
    next_magnitude(m);
    if m > 0 {
        next_magnitude((m - 1) as nat);
    }
    assert(closest(units(m), 1, m));
    closest_is_rounded(units(m), 1, m);
}

/// Nothing is rounded to zero's magnitude.
pub proof fn zero_is_kept(d: nat)
    requires
        d > 0,
    ensures
        rounded(0, d) == 0,
{
    lemma_powers();
    assert(units(0) == 0 * pow2(0));
    next_magnitude(0);
    let u = units(1);
    assert((0 + u) * d > 0) by (nonlinear_arith)
        requires
            u > 0,
            d > 0,
    ;
    assert(closest(0, d, 0));
    closest_is_rounded(0, d, 0);
}

/// `r` steps of size 2^g, with one more where the rest is more than half a
/// step, are the closest magnitude.
proof fn lemma_closest(n: nat, d: nat, r: nat, g: nat, up: bool)
    requires
        d > 0,
        r < 2 * BAND,
        g > 0 ==> r >= BAND,
        r * pow2(g) * d <= n,
        n < (r + 1) * pow2(g) * d,
        up ==> 2 * n >= (2 * r + 1) * pow2(g) * d,
        up && 2 * n == (2 * r + 1) * pow2(g) * d ==> r % 2 == 1,
        !up ==> 2 * n <= (2 * r + 1) * pow2(g) * d,
        !up && 2 * n == (2 * r + 1) * pow2(g) * d ==> r % 2 == 0,
    ensures
        closest(n, d, g * BAND as nat + r + (if up {
            1nat
        } else {
            0nat
        })),
{
    broadcast use vstd::arithmetic::power2::lemma_pow2_pos;

    lemma_powers();
    let b = BAND as nat;
    let w = pow2(g);
    let m0 = g * b + r;
    if r < b {
        assert(g == 0);
        assert(units(m0) == r * w);
    } else {
        assert(m0 == (g + 1) * b + (r - b)) by (nonlinear_arith)
            requires
                m0 == g * b + r,
        ;
        vstd::arithmetic::div_mod::lemma_fundamental_div_mod_converse(
            m0 as int,
            b as int,
            g as int + 1,
            r - b,
        );
        assert(m0 >= b) by (nonlinear_arith)
            requires
                m0 == g * b + r,
                r >= b,
        ;
        assert(significand(m0) == r);
        assert(step(m0) == g);
    }
    assert(step(m0) == g);
    assert(units(m0) == r * w);
    next_magnitude(m0);
    assert((r + 1) * w == r * w + w) by (nonlinear_arith);
    assert(units(m0 + 1) == (r + 1) * w);
    let mid = (units(m0) + units(m0 + 1)) * d;
    assert(mid == (2 * r + 1) * w * d) by (nonlinear_arith)
        requires
            mid == (r * w + (r + 1) * w) * d,
    ;
    assert(m0 % 2 == r % 2) by {
        assert(b == 2 * 0x8_0000_0000_0000);
        assert(m0 == 2 * (g * 0x8_0000_0000_0000) + r) by (nonlinear_arith)
            requires
                m0 == g * b + r,
                b == 2 * 0x8_0000_0000_0000,
        ;
    }
    if up {
        let m = m0 + 1;
        next_magnitude(m);
        let u = units(m);
        let v = units(m + 1);
        assert(2 * n < (u + v) * d) by (nonlinear_arith)
            requires
                n < u * d,
                u < v,
                d > 0,
        ;
        assert(closest(n, d, m));
    } else {
        if m0 > 0 {
            next_magnitude((m0 - 1) as nat);
            let t = units((m0 - 1) as nat);
            let u = units(m0);
            assert((t + u) * d < 2 * n) by (nonlinear_arith)
                requires
                    u * d <= n,
                    t < u,
                    d > 0,
            ;
        }
        assert(closest(n, d, m0));
    }
}

proof fn lemma_units_at_least(m: nat)
    ensures
        units(m) >= m,
    decreases m,
{
    if m > 0 {
        lemma_units_at_least((m - 1) as nat);
        next_magnitude((m - 1) as nat);
    }
}

/// The greatest magnitude below `k` whose value is at most `n / d`.
spec fn last_at_most(n: nat, d: nat, k: nat) -> nat
    decreases k,
{
    if k == 0 || units(k) * d <= n {
        k
    } else {
        last_at_most(n, d, (k - 1) as nat)
    }
}

proof fn lemma_last_at_most(n: nat, d: nat, k: nat)
    requires
        units(k + 1) * d > n,
    ensures
        units(last_at_most(n, d, k)) * d <= n,
        units(last_at_most(n, d, k) + 1) * d > n,
    decreases k,
{
    if k == 0 {
        lemma_powers();
        assert(units(0) == 0 * pow2(0));
        assert(0 * d == 0);
    } else if units(k) * d > n {
        lemma_last_at_most(n, d, (k - 1) as nat);
    }
}

/// Every value has a closest magnitude.
pub proof fn some_magnitude_is_closest(n: nat, d: nat)
    requires
        d > 0,
    ensures
        exists|m: nat| closest(n, d, m),
{
    lemma_units_at_least(n + 1);
    let u = units(n + 1);
    assert(u * d > n) by (nonlinear_arith)
        requires
            u >= n + 1,
            d >= 1,
    ;
    lemma_last_at_most(n, d, n);
    let m = last_at_most(n, d, n);
    next_magnitude(m);
    next_magnitude(m + 1);
    let a = units(m);
    let b = units(m + 1);
    let c = units(m + 2);
    let mid = (a + b) * d;
    assert(mid == a * d + b * d) by (nonlinear_arith)
        requires
            mid == (a + b) * d,
    ;
    assert(2 * n < (b + c) * d) by (nonlinear_arith)
        requires
            n < b * d,
            b < c,
            d > 0,
    ;
    if m > 0 {
        next_magnitude((m - 1) as nat);
        let z = units((m - 1) as nat);
        assert((z + a) * d < 2 * n) by (nonlinear_arith)
            requires
                a * d <= n,
                z < a,
                d > 0,
        ;
    }
    if 2 * n < mid || (2 * n == mid && m % 2 == 0) {
        assert(closest(n, d, m));
    } else {
        assert(closest(n, d, m + 1));
    }
}

/// A greater value is not rounded to a lesser magnitude.
pub proof fn rounding_is_monotone(n: nat, k: nat, d: nat)
    requires
        d > 0,
        n <= k,
    ensures
        rounded(n, d) <= rounded(k, d) <= INFINITE,
{
    some_magnitude_is_closest(n, d);
    some_magnitude_is_closest(k, d);
    let a = choose|m: nat| closest(n, d, m);
    let b = choose|m: nat| closest(k, d, m);
    if b < a {
        let x = (units(b) + units(b + 1)) * d;
        let y = (units((a - 1) as nat) + units(a)) * d;
        if b + 1 < a {
            units_increase(b, (a - 1) as nat);
            units_increase(b + 1, a);
            let u = units(b) + units(b + 1);
            let v = units((a - 1) as nat) + units(a);
            assert(u * d < v * d) by (nonlinear_arith)
                requires
                    u < v,
                    d > 0,
            ;
        }
        assert(x <= y);
    }
}

/// A value of at most a magnitude's is rounded to at most that magnitude, and
/// one of at least a magnitude's to at least that magnitude.
pub proof fn rounding_respects_magnitudes(n: nat, d: nat, m: nat)
    requires
        d > 0,
        m <= INFINITE,
    ensures
        n <= units(m) * d ==> rounded(n, d) <= m,
        n >= units(m) * d ==> rounded(n, d) >= m,
{
    next_magnitude(m);
    let u = units(m);
    let w = units(m + 1);
    assert(2 * (u * d) < (u + w) * d) by (nonlinear_arith)
        requires
            u < w,
            d > 0,
    ;
    if m > 0 {
        next_magnitude((m - 1) as nat);
        let t = units((m - 1) as nat);
        assert((t + u) * d < 2 * (u * d)) by (nonlinear_arith)
            requires
                t < u,
                d > 0,
        ;
    }
    assert(closest(u * d, d, m));
    closest_is_rounded(u * d, d, m);
    if n <= u * d {
        rounding_is_monotone(n, u * d, d);
    }
    if n >= u * d {
        rounding_is_monotone(u * d, n, d);
    }
}

proof fn lemma_steps_grow(m: nat, k: nat)
    requires
        m <= k,
    ensures
        pow2(step(m)) <= pow2(step(k)),
{
    let b = BAND as nat;
    if m >= b {
        vstd::arithmetic::div_mod::lemma_div_is_ordered(m as int, k as int, b as int);
    }
    if step(m) < step(k) {
        vstd::arithmetic::power2::lemma_pow2_strictly_increases(step(m), step(k));
    }
}

/// Rounding moves a value by at most half the distance between numbers of its
/// size: where the value is at most that of the magnitude `top`, half the
/// distance from there to the next number.
pub proof fn rounding_is_near(n: nat, d: nat, top: nat)
    requires
        d > 0,
        top < INFINITE,
        n <= units(top) * d,
    ensures
        rounded(n, d) <= top,
        2 * (units(rounded(n, d) as nat) * d) <= 2 * n + pow2(step(top)) * d,
        2 * n <= 2 * (units(rounded(n, d) as nat) * d) + pow2(step(top)) * d,
{
    rounding_respects_magnitudes(n, d, top);
    some_magnitude_is_closest(n, d);
    let m = choose|m: nat| closest(n, d, m);
    closest_is_rounded(n, d, m);
    assert(m == rounded(n, d));
    let u = units(m);
    let e = pow2(step(top));
    next_magnitude(m);
    lemma_steps_grow(m, top);
    let up = pow2(step(m));
    let above = (u + units(m + 1)) * d;
    assert(2 * n <= 2 * (u * d) + e * d) by (nonlinear_arith)
        requires
            2 * n <= above,
            above == (u + (u + up)) * d,
            up <= e,
            d > 0,
    ;
    if m > 0 {
        next_magnitude((m - 1) as nat);
        lemma_steps_grow((m - 1) as nat, top);
        let down = pow2(step((m - 1) as nat));
        let v = units((m - 1) as nat);
        let below = (v + u) * d;
        assert(2 * (u * d) <= 2 * n + e * d) by (nonlinear_arith)
            requires
                below <= 2 * n,
                below == (v + u) * d,
                u == v + down,
                down <= e,
                d > 0,
        ;
    } else {
        assert(units(0) == 0 * pow2(0));
        assert(u * d == 0) by (nonlinear_arith)
            requires
                u == 0,
        ;
    }
}

/// Rounding moves a value by at most one part in 2^53 of what it is rounded to,
/// unless that is tiny.
pub proof fn rounding_is_near_in_proportion(n: nat, d: nat)
    requires
        d > 0,
        BAND <= rounded(n, d) < INFINITE,
    ensures
        ({
            let got = units(rounded(n, d) as nat) * d;
            &&& (2 * BAND) * got <= (2 * BAND) * n + got
            &&& (2 * BAND) * n <= (2 * BAND) * got + got
        }),
{
    some_magnitude_is_closest(n, d);
    let m = choose|m: nat| closest(n, d, m);
    closest_is_rounded(n, d, m);
    assert(m == rounded(n, d));
    let b = BAND as nat;
    let u = units(m);
    let e = pow2(step(m));
    next_magnitude(m);
    next_magnitude((m - 1) as nat);
    lemma_steps_grow((m - 1) as nat, m);
    assert(b * e <= u) by (nonlinear_arith)
        requires
            u == significand(m) * e,
            significand(m) >= b,
            e >= 0,
    ;
    let got = u * d;
    let part = e * d;
    assert(b * part <= got) by (nonlinear_arith)
        requires
            b * e <= u,
            part == e * d,
            got == u * d,
            d > 0,
    ;
    let v = units((m - 1) as nat);
    let down = pow2(step((m - 1) as nat));
    let above = (u + units(m + 1)) * d;
    let below = (v + u) * d;
    assert(2 * n <= 2 * got + part) by (nonlinear_arith)
        requires
            2 * n <= above,
            above == (u + (u + e)) * d,
            got == u * d,
            part == e * d,
    ;
    assert(2 * got <= 2 * n + part) by (nonlinear_arith)
        requires
            below <= 2 * n,
            below == (v + u) * d,
            u == v + down,
            down <= e,
            got == u * d,
            part == e * d,
            d > 0,
    ;
    assert((2 * b) * got <= (2 * b) * n + got && (2 * b) * n <= (2 * b) * got + got)
        by (nonlinear_arith)
        requires
            b * part <= got,
            2 * n <= 2 * got + part,
            2 * got <= 2 * n + part,
            b > 0,
    ;
}

/// Two to the power of `k`.
pub(crate) fn power_of_two(k: u32) -> (r: u128)
    requires
        k < 128,
    ensures
        r == pow2(k as nat),
{
    let mut r: u128 = 1;
    let mut i: u32 = 0;
    proof {
        lemma_powers();
    }
    while i < k
        invariant
            i <= k < 128,
            r == pow2(i as nat),
        decreases k - i,
    {
        proof {
            vstd::arithmetic::power2::lemma_pow2_unfold(i as nat + 1);
            lemma_powers_below_128(i as nat + 1);
        }
        r = r * 2;
        i = i + 1;
    }
    r
}

proof fn lemma_powers_below_128(k: nat)
    requires
        k < 128,
    ensures
        0 < pow2(k) <= 0x8000_0000_0000_0000_0000_0000_0000_0000,
{
    broadcast use vstd::arithmetic::power2::lemma_pow2_pos;

    lemma_powers();
    if k < 127 {
        vstd::arithmetic::power2::lemma_pow2_strictly_increases(k, 127);
    }
}

/// How many binary digits `x` has.
fn bit_length(x: u128) -> (l: u32)
    requires
        0 < x < 0x100_0000_0000_0000_0000_0000_0000_0000,
    ensures
        0 < l <= 120,
        pow2((l - 1) as nat) <= x < pow2(l as nat),
{
    let mut l: u32 = 1;
    let mut p: u128 = 2;
    proof {
        lemma_powers();
        vstd::arithmetic::power2::lemma_pow2_unfold(1);
    }
    while p <= x
        invariant
            0 < l <= 120,
            p == pow2(l as nat),
            pow2((l - 1) as nat) <= x,
            x < 0x100_0000_0000_0000_0000_0000_0000_0000,
        decreases 120 - l,
    {
        proof {
            lemma_powers();
            if l >= 120 {
                assert(l == 120);
            }
            vstd::arithmetic::power2::lemma_pow2_unfold(l as nat + 1);
            lemma_powers_below_128(l as nat + 1);
        }
        p = p * 2;
        l = l + 1;
    }
    l
}

proof fn lemma_rescale(k: nat, w: nat, d: nat, q: nat, s: nat, p: nat)
    requires
        w * q == s * p,
    ensures
        (k * w * d) * q == (k * s) * p * d,
{
    assert((k * w * d) * q == k * (w * q) * d) by (nonlinear_arith);
    assert(k * (s * p) * d == (k * s) * p * d) by (nonlinear_arith);
}

proof fn lemma_cancel(x: nat, y: nat, q: nat)
    requires
        q > 0,
    ensures
        x * q <= y * q ==> x <= y,
        x * q < y * q ==> x < y,
        x * q == y * q ==> x == y,
{
    assert(x * q <= y * q ==> x <= y) by (nonlinear_arith)
        requires
            q > 0,
    ;
    assert(y * q <= x * q ==> y <= x) by (nonlinear_arith)
        requires
            q > 0,
    ;
}

proof fn lemma_scale(x: nat, y: nat, p: nat, d: nat)
    requires
        p > 0,
        d > 0,
    ensures
        x <= y ==> x * p * d <= y * p * d,
        x < y ==> x * p * d < y * p * d,
{
    assert(x <= y ==> x * p * d <= y * p * d) by (nonlinear_arith)
        requires
            p > 0,
            d > 0,
    ;
    assert(x < y ==> x * p * d < y * p * d) by (nonlinear_arith)
        requires
            p > 0,
            d > 0,
    ;
}

/// What the last binary digits, which rounding drops, say about `n / d`.
proof fn lemma_dropped_digits(
    n: nat,
    d: nat,
    mantissa: nat,
    sticky: bool,
    p: nat,
    q: nat,
    g: nat,
    s: nat,
    r: nat,
    rest: nat,
)
    requires
        d > 0,
        s > 0,
        g + q == s + p,
        mantissa == r * pow2(s) + rest,
        rest < pow2(s),
        mantissa * pow2(p) * d <= n * pow2(q) < (mantissa + 1) * pow2(p) * d,
        sticky <==> n * pow2(q) != mantissa * pow2(p) * d,
    ensures
        r * pow2(g) * d <= n < (r + 1) * pow2(g) * d,
        rest < pow2((s - 1) as nat) ==> 2 * n < (2 * r + 1) * pow2(g) * d,
        rest > pow2((s - 1) as nat) ==> 2 * n > (2 * r + 1) * pow2(g) * d,
        rest == pow2((s - 1) as nat) && sticky ==> 2 * n > (2 * r + 1) * pow2(g) * d,
        rest == pow2((s - 1) as nat) && !sticky ==> 2 * n == (2 * r + 1) * pow2(g) * d,
{
    broadcast use vstd::arithmetic::power2::lemma_pow2_pos;

    let w = pow2(g);
    let qq = pow2(q);
    let ss = pow2(s);
    let pp = pow2(p);
    let half = pow2((s - 1) as nat);
    vstd::arithmetic::power2::lemma_pow2_adds(g, q);
    vstd::arithmetic::power2::lemma_pow2_adds(s, p);
    vstd::arithmetic::power2::lemma_pow2_unfold(s);
    assert(w * qq == ss * pp);
    lemma_rescale(r, w, d, qq, ss, pp);
    lemma_rescale(r + 1, w, d, qq, ss, pp);
    lemma_rescale(2 * r + 1, w, d, qq, ss, pp);
    assert((r + 1) * ss == r * ss + ss) by (nonlinear_arith);
    assert((2 * r + 1) * ss == 2 * (r * ss) + ss) by (nonlinear_arith);
    lemma_scale(r * ss, mantissa, pp, d);
    lemma_scale(mantissa + 1, (r + 1) * ss, pp, d);
    lemma_cancel(r * w * d, n, qq);
    lemma_cancel(n, (r + 1) * w * d, qq);
    let mid = (2 * r + 1) * w * d;
    assert((2 * n) * qq == 2 * (n * qq)) by (nonlinear_arith);
    lemma_cancel(2 * n, mid, qq);
    lemma_cancel(mid, 2 * n, qq);
    let twice = 2 * mantissa;
    assert(twice * pp * d == 2 * (mantissa * pp * d)) by (nonlinear_arith)
        requires
            twice == 2 * mantissa,
    ;
    let twice_next = 2 * (mantissa + 1);
    assert(twice_next * pp * d == 2 * ((mantissa + 1) * pp * d)) by (nonlinear_arith)
        requires
            twice_next == 2 * (mantissa + 1),
    ;
    lemma_scale(twice_next, (2 * r + 1) * ss, pp, d);
    lemma_scale((2 * r + 1) * ss, twice, pp, d);
}

/// The magnitude that `n / d` units are rounded to, where `n / d` lies between
/// `mantissa` and `mantissa + 1` times 2^exponent, and strictly so where
/// `sticky` is set.
pub(crate) fn assemble(
    mantissa: u128,
    sticky: bool,
    exponent: i32,
    Ghost(n): Ghost<nat>,
    Ghost(d): Ghost<nat>,
    Ghost(p): Ghost<nat>,
    Ghost(q): Ghost<nat>,
) -> (m: u64)
    requires
        0 < mantissa < 0x100_0000_0000_0000_0000_0000_0000_0000,
        sticky ==> mantissa >= 4 * BAND,
        -4000 < exponent < 4000,
        exponent == p - q,
        d > 0,
        mantissa as nat * pow2(p) * d <= n * pow2(q) < (mantissa as nat + 1) * pow2(p) * d,
        sticky <==> n * pow2(q) != mantissa as nat * pow2(p) * d,
    ensures
        m == rounded(n, d),
        m <= INFINITE,
{
    broadcast use vstd::arithmetic::power2::lemma_pow2_pos;

    let l: u32 = bit_length(mantissa);
    let excess: i32 = exponent + l as i32 - 53;
    let g: i32 = if excess > 0 {
        excess
    } else {
        0
    };
    proof {
        lemma_powers();
    }
    if exponent >= g {
        // Every digit fits: the value is a magnitude.
        let t: i32 = exponent - g;
        proof {
            if sticky {
                if l < 55 {
                    if l < 54 {
                        vstd::arithmetic::power2::lemma_pow2_strictly_increases(l as nat, 54);
                    }
                }
                assert(l >= 55);
                assert(g == excess);
            }
            assert(!sticky);
            assert(t + l <= 53);
            if t + l < 53 {
                vstd::arithmetic::power2::lemma_pow2_strictly_increases((t + l) as nat, 53);
            }
            vstd::arithmetic::power2::lemma_pow2_adds(l as nat, t as nat);
            let x = mantissa as nat;
            let y = pow2(t as nat);
            let z = pow2(l as nat);
            assert(x * y < z * y) by (nonlinear_arith)
                requires
                    x < z,
                    y > 0,
            ;
            if g > 0 {
                assert(t + l == 53);
                vstd::arithmetic::power2::lemma_pow2_adds((l - 1) as nat, t as nat);
                let v = pow2((l - 1) as nat);
                assert(v * y <= x * y) by (nonlinear_arith)
                    requires
                        v <= x,
                        y > 0,
                ;
            }
        }
        let r: u128 = mantissa * power_of_two(t as u32);
        proof {
            let x = mantissa as nat;
            let y = pow2(t as nat);
            let w = pow2(g as nat);
            let qq = pow2(q);
            let pp = pow2(p);
            vstd::arithmetic::power2::lemma_pow2_adds(t as nat, g as nat);
            vstd::arithmetic::power2::lemma_pow2_adds((t + g) as nat, q);
            assert(t + g + q == p);
            assert(r == x * y);
            assert((r as nat * w * d) * qq == x * (y * w * qq) * d) by (nonlinear_arith)
                requires
                    r as nat == x * y,
            ;
            lemma_cancel(r as nat * w * d, n, qq);
            lemma_cancel(n, r as nat * w * d, qq);
            assert(n == r as nat * w * d);
            assert((r as nat + 1) * w * d > n) by (nonlinear_arith)
                requires
                    n == r as nat * w * d,
                    w > 0,
                    d > 0,
            ;
            assert(2 * n < (2 * r as nat + 1) * w * d) by (nonlinear_arith)
                requires
                    n == r as nat * w * d,
                    w > 0,
                    d > 0,
            ;
            lemma_closest(n, d, r as nat, g as nat, false);
            closest_is_rounded(n, d, g as nat * BAND as nat + r as nat);
        }
        return encode(g as u32, r as u64);
    }
    let s: i32 = g - exponent;
    if s > 120 {
        // Less than half a unit is left.
        proof {
            assert(g == 0) by {
                if g > 0 {
                    assert(s == l - 53);
                }
            }
            vstd::arithmetic::power2::lemma_pow2_strictly_increases(119, 120);
            if s - 1 > 120 {
                vstd::arithmetic::power2::lemma_pow2_strictly_increases(120, (s - 1) as nat);
            }
            vstd::arithmetic::power2::lemma_pow2_unfold(s as nat);
            lemma_dropped_digits(
                n,
                d,
                mantissa as nat,
                sticky,
                p,
                q,
                0,
                s as nat,
                0,
                mantissa as nat,
            );
            lemma_closest(n, d, 0, 0, false);
            closest_is_rounded(n, d, 0);
        }
        return 0;
    }
    let size: u128 = power_of_two(s as u32);
    let half: u128 = power_of_two(s as u32 - 1);
    let r: u128 = mantissa / size;
    let rest: u128 = mantissa % size;
    let up: bool = rest > half || (rest == half && (sticky || r % 2 == 1));
    proof {
        let x = mantissa as nat;
        let y = size as nat;
        vstd::arithmetic::div_mod::lemma_fundamental_div_mod(x as int, y as int);
        assert(x == r as nat * y + rest as nat) by (nonlinear_arith)
            requires
                x == y * r as nat + rest as nat,
        ;
        lemma_dropped_digits(n, d, x, sticky, p, q, g as nat, s as nat, r as nat, rest as nat);
        // r has at most 53 digits, and exactly 53 above the first band.
        vstd::arithmetic::power2::lemma_pow2_adds(53, s as nat);
        assert(l <= 53 + s);
        if l < 53 + s {
            vstd::arithmetic::power2::lemma_pow2_strictly_increases(l as nat, (53 + s) as nat);
        }
        assert(x < pow2(53) * y);
        assert((r as nat) < pow2(53)) by (nonlinear_arith)
            requires
                r as nat * y <= x,
                x < pow2(53) * y,
        ;
        if g > 0 {
            assert(l == 53 + s);
            vstd::arithmetic::power2::lemma_pow2_adds(52, s as nat);
            assert(x >= pow2(52) * y);
            assert((r as nat + 1) * y == r as nat * y + y) by (nonlinear_arith);
            assert(r as nat >= pow2(52)) by (nonlinear_arith)
                requires
                    x < (r as nat + 1) * y,
                    x >= pow2(52) * y,
                    y > 0,
            ;
        }
        lemma_closest(n, d, r as nat, g as nat, up);
        closest_is_rounded(
            n,
            d,
            g as nat * BAND as nat + r as nat + (if up {
                1nat
            } else {
                0nat
            }),
        );
    }
    if up {
        encode(g as u32, (r + 1) as u64)
    } else {
        encode(g as u32, r as u64)
    }
}

/// The magnitude of `r` steps of size 2^g, and infinity's beyond the last one.
fn encode(g: u32, r: u64) -> (m: u64)
    requires
        g < 5000,
        r <= 2 * BAND,
    ensures
        m == (if (g as nat * BAND as nat + r as nat) < INFINITE {
            (g as nat * BAND as nat + r as nat) as u64
        } else {
            INFINITE
        }),
{
    assert(g as nat * BAND as nat <= 5000 * BAND as nat) by (nonlinear_arith)
        requires
            g < 5000,
    ;
    let wide: u128 = g as u128 * BAND as u128 + r as u128;
    if wide < INFINITE as u128 {
        wide as u64
    } else {
        INFINITE
    }
}

/// Rounding finds the nearest finite number, and of two that are equally near
/// the one whose encoding is even.
pub proof fn rounding_is_nearest(n: nat, d: nat, m: nat)
    requires
        d > 0,
        rounded(n, d) < INFINITE,
    ensures
        ({
            let r = rounded(n, d) as nat;
            let near = if units(r) * d < n {
                n - units(r) * d
            } else {
                units(r) * d - n
            };
            let far = if units(m) * d < n {
                n - units(m) * d
            } else {
                units(m) * d - n
            };
            &&& near <= far
            &&& near == far && m != r ==> r % 2 == 0
        }),
{
    some_magnitude_is_closest(n, d);
    let r = choose|m: nat| closest(n, d, m);
    closest_is_rounded(n, d, r);
    assert(r == rounded(n, d));
    let u = units(r);
    let w = units(m);
    let got = u * d;
    let other = w * d;
    if m < r {
        let v = units((r - 1) as nat);
        if m < r - 1 {
            units_increase(m, (r - 1) as nat);
        }
        let below = (v + u) * d;
        assert(other + got <= below) by (nonlinear_arith)
            requires
                other == w * d,
                got == u * d,
                below == (v + u) * d,
                w <= v,
        ;
        units_increase(m, r);
        assert(other < got) by (nonlinear_arith)
            requires
                other == w * d,
                got == u * d,
                w < u,
                d > 0,
        ;
    } else if m > r {
        let v = units(r + 1);
        if m > r + 1 {
            units_increase(r + 1, m);
        }
        let above = (u + v) * d;
        assert(other + got >= above) by (nonlinear_arith)
            requires
                other == w * d,
                got == u * d,
                above == (u + v) * d,
                w >= v,
        ;
        units_increase(r, m);
        assert(other > got) by (nonlinear_arith)
            requires
                other == w * d,
                got == u * d,
                w > u,
                d > 0,
        ;
    }
}

/// A magnitude below 2^52 counts units; beyond, its exponent doubles the step,
/// and what stands below the exponent is added to a whole band.
pub proof fn magnitudes_count_units(exponent: nat, fraction: nat)
    requires
        fraction < 0x10_0000_0000_0000,
    ensures
        units(fraction) == fraction,
        exponent >= 1 ==> units(exponent * 0x10_0000_0000_0000 + fraction) == (0x10_0000_0000_0000
            + fraction) * pow2((exponent - 1) as nat),
{
    lemma_powers();
    assert(fraction * 1 == fraction);
    if exponent >= 1 {
        let m = exponent * 0x10_0000_0000_0000 + fraction;
        vstd::arithmetic::div_mod::lemma_fundamental_div_mod_converse(
            m as int,
            0x10_0000_0000_0000,
            exponent as int,
            fraction as int,
        );
    }
}

} // verus!
