//! Signed-distance samples, held as IEEE-754 binary32 bit patterns.
//!
//! A sample is stored, copied, compared and ordered here by its bits alone;
//! nothing in this crate computes in floating point. The comparisons say what
//! the hardware comparisons say: zero has two patterns that compare equal, and
//! a NaN compares with nothing.

use vstd::arithmetic::power2::{lemma2_to64, lemma_pow2_adds, lemma_pow2_pos, lemma_pow2_strictly_increases, lemma_pow2_unfold, pow2};
use vstd::prelude::*;

verus! {

/// The value of empty space: a quarter of the largest finite sample.
pub const FAR: u32 = 0x7e7f_ffff;

/// Positive infinity.
pub const INFINITY: u32 = 0x7f80_0000;

/// The bit pattern without its sign.
pub open spec fn magnitude(bits: u32) -> int {
    if bits < 0x8000_0000 {
        bits as int
    } else {
        bits - 0x8000_0000
    }
}

/// The sample without its sign.
pub open spec fn unsigned_sample(bits: u32) -> u32 {
    magnitude(bits) as u32
}

pub open spec fn is_nan(bits: u32) -> bool {
    magnitude(bits) > 0x7f80_0000
}

pub open spec fn is_finite(bits: u32) -> bool {
    magnitude(bits) < 0x7f80_0000
}

/// Position of a sample on the number line: the sign applied to the magnitude
/// bits. Both zeros are at position zero.
pub open spec fn key(bits: u32) -> int {
    if bits < 0x8000_0000 {
        magnitude(bits)
    } else {
        -magnitude(bits)
    }
}

/// `a < b`.
pub open spec fn lt(a: u32, b: u32) -> bool {
    !is_nan(a) && !is_nan(b) && key(a) < key(b)
}

/// `a == b` as numbers.
pub open spec fn num_eq(a: u32, b: u32) -> bool {
    !is_nan(a) && !is_nan(b) && key(a) == key(b)
}

/// A solid sample: strictly below zero.
pub open spec fn solid(bits: u32) -> bool {
    lt(bits, 0)
}

/// The smaller of two samples; a NaN gives way to the other sample, and of two
/// equal samples the first is taken.
pub open spec fn min_sample(a: u32, b: u32) -> u32 {
    if is_nan(a) || lt(b, a) {
        b
    } else {
        a
    }
}

/// The larger of two samples; a NaN gives way to the other sample, and of two
/// equal samples the first is taken.
pub open spec fn max_sample(a: u32, b: u32) -> u32 {
    if is_nan(a) || lt(a, b) {
        b
    } else {
        a
    }
}

/// The sample with its sign turned round.
pub open spec fn negated(bits: u32) -> u32 {
    if bits < 0x8000_0000 {
        (bits + 0x8000_0000) as u32
    } else {
        (bits - 0x8000_0000) as u32
    }
}

/// The exponent, counted in doublings of the smallest positive sample.
pub open spec fn exponent(bits: u32) -> nat {
    if magnitude(bits) < 0x80_0000 {
        0
    } else {
        (magnitude(bits) / 0x80_0000 - 1) as nat
    }
}

/// The significand as an integer.
pub open spec fn significand(bits: u32) -> nat {
    if magnitude(bits) < 0x80_0000 {
        magnitude(bits) as nat
    } else {
        (magnitude(bits) % 0x80_0000 + 0x80_0000) as nat
    }
}

/// The absolute value of a finite sample, in units of the smallest positive
/// sample (2 to the power -149).
pub open spec fn absolute(bits: u32) -> nat {
    (significand(bits) * pow2(exponent(bits))) as nat
}

/// The value of a finite sample, in units of the smallest positive sample.
pub open spec fn value(bits: u32) -> int {
    if bits < 0x8000_0000 {
        absolute(bits) as int
    } else {
        -absolute(bits)
    }
}

/// The distance between two finite samples, in units of the smallest positive
/// sample.
pub open spec fn gap(a: u32, b: u32) -> int {
    if value(a) >= value(b) {
        value(a) - value(b)
    } else {
        value(b) - value(a)
    }
}

proof fn lemma_absolute_monotone(a: u32, b: u32)
    requires
        magnitude(a) <= magnitude(b),
    ensures
        absolute(a) <= absolute(b),
        magnitude(a) < magnitude(b) ==> absolute(a) < absolute(b),
{
    let ea = exponent(a);
    let eb = exponent(b);
    let ma = significand(a) as int;
    let mb = significand(b) as int;
    lemma_pow2_pos(ea);
    lemma_pow2_pos(eb);
    if ea == eb {
        assert(ma <= mb);
        assert(ma * pow2(ea) <= mb * pow2(ea)) by (nonlinear_arith)
            requires
                ma <= mb,
                pow2(ea) > 0,
        ;
        if magnitude(a) < magnitude(b) {
            assert(ma * pow2(ea) < mb * pow2(ea)) by (nonlinear_arith)
                requires
                    ma < mb,
                    pow2(ea) > 0,
            ;
        }
    } else {
        assert(ea < eb);
        lemma_pow2_unfold((ea + 1) as nat);
        if ea + 1 < eb {
            lemma_pow2_strictly_increases((ea + 1) as nat, eb);
        }
        assert(ma * pow2(ea) < mb * pow2(eb)) by (nonlinear_arith)
            requires
                0 <= ma < 0x100_0000,
                mb >= 0x80_0000,
                pow2(eb) >= 2 * pow2(ea),
                pow2(ea) > 0,
        ;
    }
}

/// Samples lie on the number line in the order of their values.
pub proof fn law_key_orders_values(a: u32, b: u32)
    requires
        is_finite(a),
        is_finite(b),
    ensures
        key(a) < key(b) <==> value(a) < value(b),
        key(a) == key(b) <==> value(a) == value(b),
{
    assert(absolute(0) == 0) by (nonlinear_arith)
        requires
            absolute(0) == 0 * pow2(0),
    ;
    if magnitude(a) <= magnitude(b) {
        lemma_absolute_monotone(a, b);
    }
    if magnitude(b) <= magnitude(a) {
        lemma_absolute_monotone(b, a);
    }
    lemma_absolute_monotone(0, a);
    lemma_absolute_monotone(0, b);
}

/// `a < b`.
pub fn less(a: u32, b: u32) -> (r: bool)
    ensures
        r == lt(a, b),
{
    let ma: u32 = if a < 0x8000_0000 { a } else { a - 0x8000_0000 };
    let mb: u32 = if b < 0x8000_0000 { b } else { b - 0x8000_0000 };
    if ma > 0x7f80_0000 || mb > 0x7f80_0000 {
        return false;
    }
    if a < 0x8000_0000 {
        b < 0x8000_0000 && ma < mb
    } else if b < 0x8000_0000 {
        ma != 0 || mb != 0
    } else {
        mb < ma
    }
}

/// The sample without its sign.
pub fn unsigned(bits: u32) -> (r: u32)
    ensures
        r == unsigned_sample(bits),
{
    if bits < 0x8000_0000 {
        bits
    } else {
        bits - 0x8000_0000
    }
}

/// Whether a sample is solid.
pub fn is_solid(bits: u32) -> (r: bool)
    ensures
        r == solid(bits),
{
    less(bits, 0)
}

/// `a == b` as numbers.
pub fn same_number(a: u32, b: u32) -> (r: bool)
    ensures
        r == num_eq(a, b),
{
    let ma: u32 = if a < 0x8000_0000 { a } else { a - 0x8000_0000 };
    let mb: u32 = if b < 0x8000_0000 { b } else { b - 0x8000_0000 };
    if ma > 0x7f80_0000 || mb > 0x7f80_0000 {
        return false;
    }
    a == b || (ma == 0 && mb == 0)
}

/// The smaller of two samples.
pub fn smaller(a: u32, b: u32) -> (r: u32)
    ensures
        r == min_sample(a, b),
{
    let ma: u32 = if a < 0x8000_0000 { a } else { a - 0x8000_0000 };
    if ma > 0x7f80_0000 || less(b, a) {
        b
    } else {
        a
    }
}

/// Whether a sample is neither infinite nor a NaN.
pub fn finite(bits: u32) -> (r: bool)
    ensures
        r == is_finite(bits),
{
    let m: u32 = if bits < 0x8000_0000 { bits } else { bits - 0x8000_0000 };
    m < 0x7f80_0000
}

/// The larger of two samples.
pub fn larger(a: u32, b: u32) -> (r: u32)
    ensures
        r == max_sample(a, b),
{
    let ma: u32 = if a < 0x8000_0000 { a } else { a - 0x8000_0000 };
    if ma > 0x7f80_0000 || less(a, b) {
        b
    } else {
        a
    }
}

/// The sample with its sign turned round.
pub fn negate(bits: u32) -> (r: u32)
    ensures
        r == negated(bits),
{
    if bits < 0x8000_0000 {
        bits + 0x8000_0000
    } else {
        bits - 0x8000_0000
    }
}

/// Twice the significand of the tolerance 1e-6, plus one: half a step past the
/// tolerance is where a rounded difference first exceeds it.
pub const MICRO_STEPS: u32 = 17592187;

/// Twice the significand of the tolerance 1e-4, plus one.
pub const FINE_STEPS: u32 = 27487791;

/// Twice the significand of the tolerance 1e-7, less one: half a step before
/// the tolerance is the last place where a rounded difference falls below it.
pub const TINY_STEPS: u32 = 28147497;

/// Twice the significand of the tolerance 1e-7, plus one.
pub const STIR_STEPS: u32 = 28147499;

/// `|a - b| > 1e-7` for the rounded difference.
pub open spec fn stirred(a: u32, b: u32) -> bool {
    apart(a, b, STIR_STEPS as nat, 101)
}

/// `|a - b| > 1e-6` for the rounded difference.
pub open spec fn moved(a: u32, b: u32) -> bool {
    apart(a, b, MICRO_STEPS as nat, 105)
}

/// `|a - b| > 1e-4` for the rounded difference.
pub open spec fn clearly_apart(a: u32, b: u32) -> bool {
    apart(a, b, FINE_STEPS as nat, 111)
}

/// `|a - b| < 1e-7` for the rounded difference.
pub open spec fn nearly_equal(a: u32, b: u32) -> bool {
    is_finite(a) && is_finite(b) && gap(a, b) <= TINY_STEPS * pow2(101)
}

/// The difference of `a` and `b` is a number (or an infinity) of at least
/// `steps` times 2 to the power `scale`, counted in the smallest positive
/// sample.
pub open spec fn apart(a: u32, b: u32, steps: nat, scale: nat) -> bool {
    if is_nan(a) || is_nan(b) {
        false
    } else if is_finite(a) && is_finite(b) {
        gap(a, b) >= steps * pow2(scale)
    } else {
        key(a) != key(b)
    }
}

/// 2 to the power `e`.
fn power_of_two(e: u32) -> (r: u128)
    requires
        e <= 120,
    ensures
        r == pow2(e as nat),
        r <= 0x100_0000_0000_0000_0000_0000_0000_0000,
{
    let mut r: u128 = 1;
    let mut i: u32 = 0;
    assert(pow2(0) == 1) by {
        vstd::arithmetic::power2::lemma2_to64();
    }
    while i < e
        invariant
            i <= e <= 120,
            r == pow2(i as nat),
            r <= 0x100_0000_0000_0000_0000_0000_0000_0000,
        decreases e - i,
    {
        proof {
            lemma_pow2_unfold((i + 1) as nat);
            lemma_pow2_strictly_increases(i as nat, 120);
            lemma_power_120();
            if i + 1 < 120 {
                lemma_pow2_strictly_increases((i + 1) as nat, 120);
            }
        }
        r = r * 2;
        i = i + 1;
    }
    r
}

proof fn lemma_power_120()
    ensures
        pow2(120) == 0x100_0000_0000_0000_0000_0000_0000_0000,
        pow2(60) == 0x1000_0000_0000_0000,
{
    vstd::arithmetic::power2::lemma2_to64();
    vstd::arithmetic::power2::lemma2_to64_rest();
    lemma_pow2_adds(60, 60);
    assert(0x1000_0000_0000_0000 * 0x1000_0000_0000_0000
        == 0x100_0000_0000_0000_0000_0000_0000_0000) by (nonlinear_arith);
}

/// The absolute value of a sample, split at 2 to the power `scale`.
fn split_absolute(bits: u32, scale: u32) -> (r: (u128, u128))
    requires
        is_finite(bits),
        exponent(bits) <= 138,
        100 <= scale <= 111,
    ensures
        absolute(bits) == r.0 * pow2(scale as nat) + r.1,
        r.1 < pow2(scale as nat),
        r.0 < 0x10_0000_0000_0000_0000,
{
    let m: u32 = if bits < 0x8000_0000 { bits } else { bits - 0x8000_0000 };
    let e: u32 = if m < 0x80_0000 { 0 } else { m / 0x80_0000 - 1 };
    let sig: u32 = if m < 0x80_0000 { m } else { m % 0x80_0000 + 0x80_0000 };
    assert(sig == significand(bits) && e == exponent(bits));
    if e >= scale {
        let p: u128 = power_of_two(e - scale);
        proof {
            lemma_pow2_adds((e - scale) as nat, scale as nat);
            lemma_pow2_pos(scale as nat);
            vstd::arithmetic::power2::lemma2_to64();
            vstd::arithmetic::power2::lemma2_to64_rest();
            if e - scale < 40 {
                lemma_pow2_strictly_increases((e - scale) as nat, 40);
            }
            assert(sig * p <= 0x100_0000 * 0x100_0000_0000) by (nonlinear_arith)
                requires
                    sig <= 0x100_0000,
                    p <= 0x100_0000_0000,
            ;
            assert(sig * (p * pow2(scale as nat)) == (sig * p) * pow2(scale as nat)) by (nonlinear_arith);
        }
        let q: u128 = sig as u128 * p;
        (q, 0)
    } else {
        let lower: u128 = power_of_two(e);
        let cut: u128 = power_of_two(scale - e);
        proof {
            lemma_pow2_adds(e as nat, (scale - e) as nat);
            lemma_pow2_pos(e as nat);
            lemma_pow2_pos((scale - e) as nat);
        }
        let q: u128 = sig as u128 / cut;
        let part: u128 = sig as u128 % cut;
        proof {
            let c = cut as int;
            let l = lower as int;
            let qq = q as int;
            let pp = part as int;
            vstd::arithmetic::div_mod::lemma_fundamental_div_mod(sig as int, c);
            assert((qq * c + pp) * l == qq * (l * c) + pp * l) by (nonlinear_arith);
            assert(c * qq == qq * c) by (nonlinear_arith);
            assert(pp * l < l * c) by (nonlinear_arith)
                requires
                    0 <= pp < c,
                    l > 0,
            ;
            lemma_power_120();
            lemma_pow2_strictly_increases(scale as nat, 120);
            vstd::arithmetic::div_mod::lemma_div_nonincreasing(sig as int, c);
        }
        (q, part * lower)
    }
}

/// The distance between two samples, split at 2 to the power `scale`: the
/// quotient, and whether anything remains.
fn split_gap(a: u32, b: u32, scale: u32) -> (r: (u128, bool))
    requires
        is_finite(a),
        is_finite(b),
        exponent(a) <= 138,
        exponent(b) <= 138,
        100 <= scale <= 111,
    ensures
        r.0 * pow2(scale as nat) <= gap(a, b) < (r.0 + 1) * pow2(scale as nat),
        r.1 <==> gap(a, b) > r.0 * pow2(scale as nat),
{
    let (qa, ra) = split_absolute(a, scale);
    let (qb, rb) = split_absolute(b, scale);
    let unit: u128 = power_of_two(scale);
    let ghost u = pow2(scale as nat) as int;
    proof {
        lemma_pow2_pos(scale as nat);
        law_key_orders_values(a, b);
        lemma_absolute_monotone(0, a);
        lemma_absolute_monotone(0, b);
        assert(absolute(0) == 0) by (nonlinear_arith)
            requires
                absolute(0) == 0 * pow2(0),
        ;
    }
    if (a < 0x8000_0000) != (b < 0x8000_0000) {
        let rest: u128 = ra + rb;
        if rest >= unit {
            assert(((qa + qb + 1) as int) * u == qa * u + qb * u + u) by (nonlinear_arith);
            assert(((qa + qb + 2) as int) * u == qa * u + qb * u + 2 * u) by (nonlinear_arith);
            (qa + qb + 1, rest > unit)
        } else {
            assert(((qa + qb) as int) * u == qa * u + qb * u) by (nonlinear_arith);
            assert(((qa + qb + 1) as int) * u == qa * u + qb * u + u) by (nonlinear_arith);
            (qa + qb, rest > 0)
        }
    } else {
        let ma: u32 = if a < 0x8000_0000 { a } else { a - 0x8000_0000 };
        let mb: u32 = if b < 0x8000_0000 { b } else { b - 0x8000_0000 };
        proof {
            if ma >= mb {
                lemma_absolute_monotone(b, a);
            } else {
                lemma_absolute_monotone(a, b);
            }
        }
        let (qh, rh, ql, rl) = if ma >= mb { (qa, ra, qb, rb) } else { (qb, rb, qa, ra) };
        proof {
            let d = gap(a, b);
            assert(d == qh * u + rh - (ql * u + rl));
            assert((qh - ql) * u == qh * u - ql * u) by (nonlinear_arith);
            assert((qh - ql + 1) * u == qh * u - ql * u + u) by (nonlinear_arith);
            assert((qh - ql - 1) * u == qh * u - ql * u - u) by (nonlinear_arith);
            assert(qh >= ql) by (nonlinear_arith)
                requires
                    qh * u + rh - (ql * u + rl) >= 0,
                    0 <= rh < u,
                    0 <= rl < u,
                    u > 0,
            ;
            if rh < rl {
                assert(qh > ql) by (nonlinear_arith)
                    requires
                        qh * u + rh - (ql * u + rl) >= 0,
                        rh < rl,
                        qh >= ql,
                ;
            }
        }
        if rh >= rl {
            (qh - ql, rh > rl)
        } else {
            (qh - ql - 1, true)
        }
    }
}

/// Samples of which one is large are far apart unless they are equal.
proof fn lemma_large_gap(a: u32, b: u32)
    requires
        is_finite(a),
        is_finite(b),
        exponent(a) > 138,
        magnitude(b) <= magnitude(a),
        value(a) != value(b),
    ensures
        gap(a, b) >= pow2(137),
{
    let ea = exponent(a);
    let eb = exponent(b);
    let ma = significand(a) as int;
    let mb = significand(b) as int;
    lemma_pow2_pos(137);
    lemma_absolute_monotone(b, a);
    lemma_pow2_unfold(ea);
    lemma_pow2_pos((ea - 1) as nat);
    if ea - 1 > 137 {
        lemma_pow2_strictly_increases(137, (ea - 1) as nat);
    }
    let p = pow2((ea - 1) as nat) as int;
    if value(a) >= 0 && value(b) < 0 || value(a) < 0 && value(b) >= 0 {
        assert(ma * (2 * p) >= p) by (nonlinear_arith)
            requires
                ma >= 1,
                p > 0,
        ;
    } else {
        assert(gap(a, b) == absolute(a) - absolute(b));
        if eb + 1 >= ea {
            if eb == ea {
                assert(ma * (2 * p) - mb * (2 * p) >= p) by (nonlinear_arith)
                    requires
                        ma * (2 * p) > mb * (2 * p),
                        p > 0,
                ;
            } else {
                assert(eb == ea - 1);
                assert(ma * (2 * p) - mb * p >= p) by (nonlinear_arith)
                    requires
                        ma * (2 * p) > mb * p,
                        p > 0,
                ;
            }
        } else {
            lemma_pow2_pos(eb);
            lemma_pow2_unfold((eb + 1) as nat);
            if eb + 1 < ea - 1 {
                lemma_pow2_strictly_increases((eb + 1) as nat, (ea - 1) as nat);
            }
            assert(ma * (2 * p) - mb * pow2(eb) >= p) by (nonlinear_arith)
                requires
                    ma >= 0x80_0000,
                    0 <= mb < 0x100_0000,
                    0 < 2 * pow2(eb) <= p,
                    p > 0,
            ;
        }
    }
}

/// Where the distance of two finite samples lies against `steps` times 2 to
/// the power `scale`: below, at, or above it.
fn place_gap(a: u32, b: u32, steps: u32, scale: u32) -> (r: i8)
    requires
        is_finite(a),
        is_finite(b),
        100 <= scale <= 111,
        0 < steps < 0x200_0000,
    ensures
        r < 0 <==> gap(a, b) < steps * pow2(scale as nat),
        r == 0 <==> gap(a, b) == steps * pow2(scale as nat),
        r > 0 <==> gap(a, b) > steps * pow2(scale as nat),
{
    let ma: u32 = if a < 0x8000_0000 { a } else { a - 0x8000_0000 };
    let mb: u32 = if b < 0x8000_0000 { b } else { b - 0x8000_0000 };
    let ghost u = pow2(scale as nat) as int;
    proof {
        lemma_pow2_pos(scale as nat);
        law_key_orders_values(a, b);
        assert(steps * u > 0) by (nonlinear_arith)
            requires
                steps > 0,
                u > 0,
        ;
    }
    if same_number(a, b) {
        return -1;
    }
    if ma >= 0x4600_0000 || mb >= 0x4600_0000 {
        proof {
            if ma >= mb {
                lemma_large_gap(a, b);
            } else {
                lemma_large_gap(b, a);
            }
            vstd::arithmetic::power2::lemma2_to64();
            lemma_pow2_adds(scale as nat, 25);
            lemma_pow2_strictly_increases((scale + 25) as nat, 137);
            assert(steps * u < u * 0x200_0000) by (nonlinear_arith)
                requires
                    steps < 0x200_0000,
                    u > 0,
            ;
        }
        return 1;
    }
    let (q, rest) = split_gap(a, b, scale);
    proof {
        if q < steps {
            assert((q + 1) * u <= steps * u) by (nonlinear_arith)
                requires
                    q + 1 <= steps,
                    u > 0,
            ;
        }
        if q > steps {
            assert((steps + 1) * u <= q * u) by (nonlinear_arith)
                requires
                    steps + 1 <= q,
                    u > 0,
            ;
            assert((steps + 1) * u == steps * u + u) by (nonlinear_arith);
        }
    }
    if q < steps as u128 {
        -1
    } else if q > steps as u128 || rest {
        1
    } else {
        0
    }
}

fn is_apart(a: u32, b: u32, steps: u32, scale: u32) -> (r: bool)
    requires
        100 <= scale <= 111,
        0 < steps < 0x200_0000,
    ensures
        r == apart(a, b, steps as nat, scale as nat),
{
    let ma: u32 = if a < 0x8000_0000 { a } else { a - 0x8000_0000 };
    let mb: u32 = if b < 0x8000_0000 { b } else { b - 0x8000_0000 };
    if ma > 0x7f80_0000 || mb > 0x7f80_0000 {
        false
    } else if ma == 0x7f80_0000 || mb == 0x7f80_0000 {
        a != b
    } else {
        place_gap(a, b, steps, scale) >= 0
    }
}

/// Whether two samples differ by more than 1e-7.
pub fn has_stirred(a: u32, b: u32) -> (r: bool)
    ensures
        r == stirred(a, b),
{
    is_apart(a, b, STIR_STEPS, 101)
}

/// `|a - b| > 1e-6` for the rounded difference.
pub fn has_moved(a: u32, b: u32) -> (r: bool)
    ensures
        r == moved(a, b),
{
    is_apart(a, b, MICRO_STEPS, 105)
}

/// `|a - b| > 1e-4` for the rounded difference.
pub fn is_clearly_apart(a: u32, b: u32) -> (r: bool)
    ensures
        r == clearly_apart(a, b),
{
    is_apart(a, b, FINE_STEPS, 111)
}

/// `|a - b| < 1e-7` for the rounded difference.
pub fn is_nearly_equal(a: u32, b: u32) -> (r: bool)
    ensures
        r == nearly_equal(a, b),
{
    if finite(a) && finite(b) {
        place_gap(a, b, TINY_STEPS, 101) <= 0
    } else {
        false
    }
}

/// A sample has not moved from itself.
pub proof fn law_unmoved_from_itself(a: u32)
    ensures
        !moved(a, a),
        !clearly_apart(a, a),
{
    lemma_pow2_pos(105);
    lemma_pow2_pos(111);
    assert(MICRO_STEPS * pow2(105) > 0) by (nonlinear_arith)
        requires
            pow2(105) > 0,
            MICRO_STEPS > 0,
    ;
    assert(FINE_STEPS * pow2(111) > 0) by (nonlinear_arith)
        requires
            pow2(111) > 0,
            FINE_STEPS > 0,
    ;
}

/// Twice a sample: infinities and NaNs stay, and what grows past the largest
/// finite sample becomes infinite.
pub open spec fn doubled(bits: u32) -> u32 {
    let m = magnitude(bits);
    let d = if m < 0x80_0000 {
        m * 2
    } else if m >= 0x7f80_0000 {
        m
    } else if m >= 0x7f00_0000 {
        0x7f80_0000
    } else {
        m + 0x80_0000
    };
    if bits < 0x8000_0000 {
        d as u32
    } else {
        (d + 0x8000_0000) as u32
    }
}

/// Twice a sample.
pub fn double(bits: u32) -> (r: u32)
    ensures
        r == doubled(bits),
{
    let m: u32 = if bits < 0x8000_0000 { bits } else { bits - 0x8000_0000 };
    let d: u32 = if m < 0x80_0000 {
        m * 2
    } else if m >= 0x7f80_0000 {
        m
    } else if m >= 0x7f00_0000 {
        0x7f80_0000
    } else {
        m + 0x80_0000
    };
    if bits < 0x8000_0000 {
        d
    } else {
        d + 0x8000_0000
    }
}

/// Doubling doubles the value, unless the result is too large: then it is infinite,
/// and keeps the sign.
pub proof fn law_doubled_value(bits: u32)
    requires
        is_finite(bits),
    ensures
        is_finite(doubled(bits)) ==> value(doubled(bits)) == 2 * value(bits),
        !is_finite(doubled(bits)) ==> magnitude(doubled(bits)) == INFINITY && (doubled(bits)
            < 0x8000_0000 <==> bits < 0x8000_0000),
{
    let d = doubled(bits);
    if is_finite(d) {
        let m = magnitude(bits);
        assert(magnitude(d) == if m < 0x80_0000 { m * 2 } else { m + 0x80_0000 });
        if m < 0x80_0000 {
            vstd::arithmetic::power2::lemma2_to64();
            assert(exponent(bits) == 0);
            assert(exponent(d) == 0);
            assert(significand(d) == 2 * significand(bits));
        } else {
            assert(significand(d) == significand(bits));
            assert(exponent(d) == exponent(bits) + 1);
            lemma_pow2_unfold(exponent(d));
            let (q, p) = (significand(bits) as int, pow2(exponent(bits)) as int);
            assert(q * (2 * p) == 2 * (q * p)) by (nonlinear_arith);
        }
    }
}

/// Thirty-two voxels' worth of distance: the value that stands for cleared
/// space.
pub open spec fn cleared(voxel_size: u32) -> u32 {
    doubled(doubled(doubled(doubled(doubled(voxel_size)))))
}

/// The value that stands for cleared space.
pub fn cleared_value(voxel_size: u32) -> (r: u32)
    ensures
        r == cleared(voxel_size),
{
    double(double(double(double(double(voxel_size)))))
}

/// A solid sample that is a millionth below zero is as far from every sample that is
/// not solid.
pub proof fn lemma_deep_apart(a: u32, b: u32)
    requires
        is_finite(a),
        solid(a),
        moved(a, 0),
        !is_nan(b),
        !solid(b),
    ensures
        moved(a, b),
        moved(b, a),
{
    law_key_orders_values(a, 0);
    if is_finite(b) {
        law_key_orders_values(b, 0);
        assert(value(0) == 0) by {
            assert(absolute(0) == 0) by (nonlinear_arith)
                requires
                    absolute(0) == 0 * pow2(0),
            ;
        }
    }
}

/// With a voxel size that is not negative, cleared space is not solid.
pub proof fn lemma_cleared_is_air(voxel_size: u32)
    requires
        !is_nan(voxel_size),
        !solid(voxel_size),
    ensures
        !is_nan(cleared(voxel_size)),
        !solid(cleared(voxel_size)),
{
}

/// A solid sample that differs from zero by more than rounding differs so from every
/// sample that is not solid.
pub proof fn lemma_not_nearly_equal(a: u32, b: u32)
    requires
        solid(a),
        !nearly_equal(a, 0),
        !solid(b),
    ensures
        !nearly_equal(a, b),
        !nearly_equal(b, a),
{
    if is_finite(a) && is_finite(b) {
        law_key_orders_values(a, 0);
        law_key_orders_values(b, 0);
        assert(value(0) == 0) by {
            assert(0 * pow2(0) == 0) by (nonlinear_arith);
        }
    }
}

/// A sample that has moved from zero differs from it by more than rounding.
pub proof fn lemma_moved_not_nearly_zero(a: u32)
    requires
        moved(a, 0),
    ensures
        !nearly_equal(a, 0),
{
    lemma_pow2_pos(101);
    lemma_pow2_adds(4, 101);
    lemma2_to64();
    assert(MICRO_STEPS * pow2(105) > TINY_STEPS * pow2(101)) by (nonlinear_arith)
        requires
            pow2(105) == 16 * pow2(101),
            pow2(101) > 0,
            MICRO_STEPS == 17592187,
            TINY_STEPS == 28147497,
    ;
}

/// The voxel size with its sign turned round is solid, and as far from zero.
pub proof fn lemma_negated_size(voxel_size: u32)
    requires
        lt(0, voxel_size),
        !nearly_equal(voxel_size, 0),
    ensures
        solid(negated(voxel_size)),
        !nearly_equal(negated(voxel_size), 0),
{
    assert(value(0) == 0) by {
        assert(0 * pow2(0) == 0) by (nonlinear_arith);
    }
    assert(absolute(negated(voxel_size)) == absolute(voxel_size));
}

/// A finite sample is solid if and only if its value is below zero. Of the others, minus
/// infinity alone is solid.
pub proof fn law_solid_is_below_zero(a: u32)
    ensures
        is_finite(a) ==> (solid(a) <==> value(a) < 0),
        !is_finite(a) ==> (solid(a) <==> a == 0xff80_0000u32),
{
    if is_finite(a) {
        law_key_orders_values(a, 0);
        assert(value(0) == 0) by {
            assert(0 * pow2(0) == 0) by (nonlinear_arith);
        }
    }
}

/// Finite samples compare as their values do.
pub proof fn law_samples_compare_as_values(a: u32, b: u32)
    requires
        is_finite(a),
        is_finite(b),
    ensures
        lt(a, b) <==> value(a) < value(b),
        num_eq(a, b) <==> value(a) == value(b),
        value(min_sample(a, b)) <= value(a),
        value(min_sample(a, b)) <= value(b),
        min_sample(a, b) == a || min_sample(a, b) == b,
        value(max_sample(a, b)) >= value(a),
        value(max_sample(a, b)) >= value(b),
        max_sample(a, b) == a || max_sample(a, b) == b,
        value(negated(a)) == -value(a),
{
    law_key_orders_values(a, b);
    assert(magnitude(negated(a)) == magnitude(a));
    assert(absolute(negated(a)) == absolute(a));
    assert(value(0) == 0) by {
        assert(0 * pow2(0) == 0) by (nonlinear_arith);
    }
}

/// What is not a number gives way, compares with nothing, and is not solid; turning the sign
/// round twice changes nothing.
pub proof fn law_not_a_number_gives_way(a: u32, b: u32)
    ensures
        is_nan(a) ==> {
            &&& !lt(a, b)
            &&& !lt(b, a)
            &&& !num_eq(a, b)
            &&& !num_eq(b, a)
            &&& !solid(a)
            &&& min_sample(a, b) == b
            &&& max_sample(a, b) == b
        },
        is_nan(b) && !is_nan(a) ==> min_sample(a, b) == a && max_sample(a, b) == a,
        negated(negated(a)) == a,
        negated(a) != a,
        is_nan(negated(a)) == is_nan(a),
        !is_nan(a) && !is_nan(b) ==> (lt(a, b) <==> lt(negated(b), negated(a))),
{
}

/// Cleared space is thirty-two times as far as one voxel, where that is finite.
pub proof fn law_cleared_is_thirty_two_voxels(voxel_size: u32)
    requires
        is_finite(cleared(voxel_size)),
    ensures
        is_finite(voxel_size),
        value(cleared(voxel_size)) == 32 * value(voxel_size),
{
    let a = doubled(voxel_size);
    let b = doubled(a);
    let c = doubled(b);
    let d = doubled(c);
    law_doubled_value(voxel_size);
    law_doubled_value(a);
    law_doubled_value(b);
    law_doubled_value(c);
    law_doubled_value(d);
}

proof fn lemma_tolerance(scale: nat, rest: nat)
    ensures
        pow2(scale + rest) == pow2(scale) * pow2(rest),
        pow2(scale) > 0,
{
    lemma_pow2_adds(scale, rest);
    lemma_pow2_pos(scale);
}

/// A sample has moved when it differs by a millionth: a difference of one in a hundred more
/// than that counts, and one of one in a hundred less does not. Values are counted in steps
/// of 2 to the power -149.
pub proof fn law_moved_by_a_millionth(a: u32, b: u32)
    requires
        is_finite(a),
        is_finite(b),
    ensures
        gap(a, b) * 100_000_000 >= 101 * pow2(149) ==> moved(a, b),
        gap(a, b) * 100_000_000 <= 99 * pow2(149) ==> !moved(a, b),
        moved(a, b) == moved(b, a),
{
    lemma_tolerance(105, 44);
    lemma2_to64();
    let (g, p) = (gap(a, b), pow2(105) as int);
    assert(pow2(44) == 17592186044416) by {
        lemma_pow2_adds(32, 12);
    }
    assert(g * 100_000_000 >= 101 * (p * 17592186044416) ==> g >= 17592187 * p) by (nonlinear_arith)
        requires
            p > 0,
    ;
    assert(g * 100_000_000 <= 99 * (p * 17592186044416) ==> g < 17592187 * p) by (nonlinear_arith)
        requires
            p > 0,
    ;
}

/// A sample was stirred when it differs by a ten-millionth, and is nearly the same when it
/// differs by less.
pub proof fn law_stirred_by_a_ten_millionth(a: u32, b: u32)
    requires
        is_finite(a),
        is_finite(b),
    ensures
        gap(a, b) * 1_000_000_000 >= 101 * pow2(149) ==> stirred(a, b) && !nearly_equal(a, b),
        gap(a, b) * 1_000_000_000 <= 99 * pow2(149) ==> !stirred(a, b) && nearly_equal(a, b),
        stirred(a, b) == stirred(b, a),
        nearly_equal(a, b) == nearly_equal(b, a),
{
    lemma_tolerance(101, 48);
    lemma2_to64();
    let (g, p) = (gap(a, b), pow2(101) as int);
    assert(pow2(48) == 281474976710656) by {
        lemma_pow2_adds(32, 16);
    }
    assert(g * 1_000_000_000 >= 101 * (p * 281474976710656) ==> g >= 28147499 * p && g > 28147497 * p)
        by (nonlinear_arith)
        requires
            p > 0,
    ;
    assert(g * 1_000_000_000 <= 99 * (p * 281474976710656) ==> g < 28147497 * p) by (nonlinear_arith)
        requires
            p > 0,
    ;
}

/// Samples are clearly apart when they differ by a ten-thousandth.
pub proof fn law_clearly_apart_by_a_ten_thousandth(a: u32, b: u32)
    requires
        is_finite(a),
        is_finite(b),
    ensures
        gap(a, b) * 1_000_000 >= 101 * pow2(149) ==> clearly_apart(a, b),
        gap(a, b) * 1_000_000 <= 99 * pow2(149) ==> !clearly_apart(a, b),
        clearly_apart(a, b) == clearly_apart(b, a),
{
    lemma_tolerance(111, 38);
    lemma2_to64();
    let (g, p) = (gap(a, b), pow2(111) as int);
    assert(pow2(38) == 274877906944) by {
        lemma_pow2_adds(32, 6);
    }
    assert(g * 1_000_000 >= 101 * (p * 274877906944) ==> g >= 27487791 * p) by (nonlinear_arith)
        requires
            p > 0,
    ;
    assert(g * 1_000_000 <= 99 * (p * 274877906944) ==> g < 27487791 * p) by (nonlinear_arith)
        requires
            p > 0,
    ;
}

} // verus!
