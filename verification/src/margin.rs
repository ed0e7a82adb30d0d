//! How far the early-abandon threshold lies above the upper cut.
//!
//! With `N = 2^23`, an upper cut of `U` units and a dimension `d` below the
//! limit, the bound `R*upper + (R + 1)*A` that the threshold has to dominate is
//! the rational number `(N*U + (2N - d)*d) / (N - d)`, in units of 2^-149.
use crate::band::{Bound, DistanceBand, MetricType};
use crate::rounding::{
    bit_length, law_rounded_quotient_is_nearest, lemma_bit_length_bounds, lemma_round_half_even_error, lemma_round_half_even_exact,
    lemma_round_half_even_monotone, lemma_round_significant_error,
    lemma_round_significant_monotone, round_half_even, round_significant,
};
use crate::single::{
    lemma_magnitude_is_increasing, magnitude_bits, magnitude_units, Single,
    INFINITY_BITS,
};
use crate::threshold::{
    largest_single, lemma_narrowed, lemma_past_largest, lemma_pattern,
    lemma_powers, lemma_widening_factor, prunable, threshold,
    widened_cut, widened_threshold, widening_factor, DIMENSION_LIMIT,
};
use vstd::prelude::*;
use vstd::arithmetic::power2::*;

verus! {

/// Numerator of the bound, over the denominator `N - d`.
pub open spec fn bound_numerator(upper: nat, d: nat) -> nat {
    (0x80_0000 * upper + (0x100_0000 - d) * d) as nat
}

/// Denominator of the bound.
pub open spec fn bound_denominator(d: nat) -> nat {
    (0x80_0000 - d) as nat
}

/// Two relative errors below add up.
proof fn lemma_errors_below(a: int, b: int, c: int, i: int, j: int, m: int)
    requires
        a * m >= b * (m - i),
        b * m >= c * (m - j),
        c >= 0,
        0 <= i <= m,
        0 <= j <= m,
        m > 0,
    ensures
        a * m >= c * (m - i - j),
{
    assert((a * m) * m >= (b * m) * (m - i)) by (nonlinear_arith)
        requires
            a * m >= b * (m - i),
            m > 0,
    ;
    assert((b * m) * (m - i) >= (c * (m - j)) * (m - i)) by (nonlinear_arith)
        requires
            b * m >= c * (m - j),
            m - i >= 0,
    ;
    assert((c * (m - j)) * (m - i) >= (c * (m - i - j)) * m) by (nonlinear_arith)
        requires
            c >= 0,
            i >= 0,
            j >= 0,
    ;
    assert(a * m >= c * (m - i - j)) by (nonlinear_arith)
        requires
            (a * m) * m >= (c * (m - i - j)) * m,
            m > 0,
    ;
}

/// Two relative errors above add up, with one unit to spare for their product.
proof fn lemma_errors_above(a: int, b: int, c: int, i: int, j: int, m: int)
    requires
        a * m <= b * (m + i),
        b * m <= c * (m + j),
        c >= 0,
        0 <= i,
        0 <= j,
        i * j <= m,
        m > 0,
    ensures
        a * m <= c * (m + i + j + 1),
{
    assert((a * m) * m <= (b * m) * (m + i)) by (nonlinear_arith)
        requires
            a * m <= b * (m + i),
            m > 0,
    ;
    assert((b * m) * (m + i) <= (c * (m + j)) * (m + i)) by (nonlinear_arith)
        requires
            b * m <= c * (m + j),
            m + i >= 0,
    ;
    assert((c * (m + j)) * (m + i) <= (c * (m + i + j + 1)) * m) by (nonlinear_arith)
        requires
            c >= 0,
            i * j <= m,
    ;
    assert(a * m <= c * (m + i + j + 1)) by (nonlinear_arith)
        requires
            (a * m) * m <= (c * (m + i + j + 1)) * m,
            m > 0,
    ;
}

/// A relative error survives multiplication by a common factor.
proof fn lemma_error_scaled(a: int, b: int, x: int, m: int, f: int)
    requires
        f >= 0,
    ensures
        a * m >= b * x ==> (a * f) * m >= (b * f) * x,
        a * m <= b * x ==> (a * f) * m <= (b * f) * x,
{
    assert((a * f) * m == (a * m) * f) by (nonlinear_arith);
    assert((b * f) * x == (b * x) * f) by (nonlinear_arith);
    if a * m >= b * x {
        assert((a * m) * f >= (b * x) * f) by (nonlinear_arith)
            requires
                a * m >= b * x,
                f >= 0,
        ;
    }
    if a * m <= b * x {
        assert((a * m) * f <= (b * x) * f) by (nonlinear_arith)
            requires
                a * m <= b * x,
                f >= 0,
        ;
    }
}

/// Double arithmetic errs by a few parts in 2^53 when it evaluates the bound.
proof fn lemma_widened_cut_error(upper: nat, d: nat)
    requires
        d < DIMENSION_LIMIT,
    ensures
        ({
            let w = widened_cut(upper, d) * bound_denominator(d);
            let t = pow2(52) * bound_numerator(upper, d);
            &&& w * pow2(53) >= t * (pow2(53) - 4)
            &&& w * pow2(53) <= t * (pow2(53) + 7)
        }),
{
    lemma_powers();
    let m = pow2(53) as int;
    let den = bound_denominator(d) as int;
    let r = widening_factor(d) as int;
    lemma_widening_factor(d);
    let one = pow2(75) as int;
    let half = pow2(52) as int;
    // The factor.
    let rd = r * den;
    assert(rd * m >= one * (m - 1) && rd * m <= one * (m + 1));
    // The relative part.
    let u = upper as int;
    let ru = r * u;
    assert(ru >= 0) by (nonlinear_arith)
        requires
            ru == r * u,
            r >= 0,
            u >= 0,
    ;
    let p = round_significant(ru as nat, 53) as int;
    lemma_round_significant_error(ru as nat, 53);
    assert(p * m >= ru * (m - 1) && p * m <= ru * (m + 1)) by (nonlinear_arith)
        requires
            m * p <= m * ru + ru,
            m * ru <= m * p + ru,
    ;
    lemma_error_scaled(p, ru, m - 1, m, den);
    lemma_error_scaled(p, ru, m + 1, m, den);
    assert(ru * den == rd * u) by (nonlinear_arith)
        requires
            ru == r * u,
            rd == r * den,
    ;
    lemma_error_scaled(rd, one, m - 1, m, u);
    lemma_error_scaled(rd, one, m + 1, m, u);
    assert(one * u >= 0) by (nonlinear_arith)
        requires
            one >= 0,
            u >= 0,
    ;
    lemma_errors_below(p * den, rd * u, one * u, 1, 1, m);
    lemma_errors_above(p * den, rd * u, one * u, 1, 1, m);
    // The additive part.
    let s = round_significant((r + half) as nat, 53) as int;
    lemma_round_significant_error((r + half) as nat, 53);
    assert(s * m >= (r + half) * (m - 1) && s * m <= (r + half) * (m + 1)) by (nonlinear_arith)
        requires
            m * s <= m * (r + half) + (r + half),
            m * (r + half) <= m * s + (r + half),
    ;
    lemma_error_scaled(s, r + half, m - 1, m, den);
    lemma_error_scaled(s, r + half, m + 1, m, den);
    let two = one + half * den;
    assert(half * den >= 0) by (nonlinear_arith)
        requires
            half >= 0,
            den >= 0,
    ;
    assert((r + half) * den == rd + half * den) by (nonlinear_arith)
        requires
            rd == r * den,
    ;
    let hd = half * den;
    assert((rd + hd) * m >= two * (m - 1) && (rd + hd) * m <= two * (m + 1)) by (nonlinear_arith)
        requires
            rd * m >= one * (m - 1),
            rd * m <= one * (m + 1),
            two == one + hd,
            hd >= 0,
            m > 0,
    ;
    lemma_errors_below(s * den, rd + hd, two, 1, 1, m);
    lemma_errors_above(s * den, rd + hd, two, 1, 1, m);
    let dd = d as int;
    let sd = s * dd;
    assert(sd >= 0) by (nonlinear_arith)
        requires
            sd == s * dd,
            s >= 0,
            dd >= 0,
    ;
    let q = round_significant(sd as nat, 53) as int;
    lemma_round_significant_error(sd as nat, 53);
    assert(q * m >= sd * (m - 1) && q * m <= sd * (m + 1)) by (nonlinear_arith)
        requires
            m * q <= m * sd + sd,
            m * sd <= m * q + sd,
    ;
    lemma_error_scaled(q, sd, m - 1, m, den);
    lemma_error_scaled(q, sd, m + 1, m, den);
    assert(sd * den == (s * den) * dd) by (nonlinear_arith)
        requires
            sd == s * dd,
    ;
    lemma_error_scaled(s * den, two, m - 2, m, dd);
    lemma_error_scaled(s * den, two, m + 3, m, dd);
    assert(two * dd >= 0) by (nonlinear_arith)
        requires
            two >= 0,
            dd >= 0,
    ;
    lemma_errors_below(q * den, (s * den) * dd, two * dd, 1, 2, m);
    lemma_errors_above(q * den, (s * den) * dd, two * dd, 1, 3, m);
    // The sum.
    let t = one * u + two * dd;
    let x = p + q;
    assert((p + q) * den == p * den + q * den) by (nonlinear_arith);
    let pd = p * den;
    let qd = q * den;
    let a = one * u;
    let b = two * dd;
    assert((pd + qd) * m >= t * (m - 3) && (pd + qd) * m <= t * (m + 5)) by (nonlinear_arith)
        requires
            pd * m >= a * (m - 2),
            pd * m <= a * (m + 3),
            qd * m >= b * (m - 3),
            qd * m <= b * (m + 5),
            t == a + b,
            a >= 0,
            b >= 0,
    ;
    let w = round_significant(x as nat, 53) as int;
    lemma_round_significant_error(x as nat, 53);
    assert(w * m >= x * (m - 1) && w * m <= x * (m + 1)) by (nonlinear_arith)
        requires
            m * w <= m * x + x,
            m * x <= m * w + x,
    ;
    lemma_error_scaled(w, x, m - 1, m, den);
    lemma_error_scaled(w, x, m + 1, m, den);
    lemma_errors_below(w * den, x * den, t, 1, 3, m);
    lemma_errors_above(w * den, x * den, t, 1, 5, m);
    // The exact value of the bound.
    assert(t == half * (0x80_0000 * u + (0x100_0000 - dd) * dd)) by (nonlinear_arith)
        requires
            t == one * u + (one + half * den) * dd,
            one == half * 0x80_0000,
            den == 0x80_0000 - dd,
    ;
    assert((0x100_0000 - dd) * dd >= 0) by (nonlinear_arith)
        requires
            0 <= dd <= 0x100_0000,
    ;
}

/// A number of at least 53 bits rounds to a significand of 53 bits, scaled.
proof fn lemma_double_form(x: nat) -> (form: (nat, nat))
    requires
        bit_length(x) >= 53,
    ensures
        round_significant(x, 53) == form.0 * pow2(form.1),
        pow2(52) <= form.0 <= pow2(53),
        form.1 == bit_length(x) - 53,
        round_significant(x, 53) >= pow2((bit_length(x) - 1) as nat),
{
    let e = (bit_length(x) - 53) as nat;
    let step = pow2(e);
    lemma2_to64();
    lemma_pow2_pos(e);
    lemma_pow2_pos(52);
    lemma_bit_length_bounds(x);
    lemma_pow2_adds(52, e);
    lemma_pow2_adds(53, e);
    let sig = round_half_even(x, step);
    lemma_round_half_even_monotone(pow2(52) * step, x, step);
    lemma_round_half_even_monotone(x, pow2(53) * step, step);
    lemma_round_half_even_exact(pow2(52), step);
    lemma_round_half_even_exact(pow2(53), step);
    assert(pow2(52) * step <= sig * step) by (nonlinear_arith)
        requires
            pow2(52) <= sig,
    ;
    assert(52 + e == bit_length(x) - 1);
    (sig, e)
}

/// A number from 2^75 up has at least 76 bits.
proof fn lemma_long(x: nat)
    requires
        x >= pow2(75),
    ensures
        bit_length(x) >= 76,
{
    lemma_pow2_pos(75);
    lemma_bit_length_bounds(x);
    if bit_length(x) < 75 {
        lemma_pow2_strictly_increases(bit_length(x), 75);
    }
}

/// The widened cut of a normal upper cut is a significand of 53 bits, scaled.
proof fn lemma_widened_form(upper: nat, d: nat) -> (form: (nat, nat))
    requires
        upper >= 0x80_0000,
        d < DIMENSION_LIMIT,
    ensures
        widened_cut(upper, d) == form.0 * pow2(form.1),
        pow2(52) <= form.0 <= pow2(53),
        form.1 >= 23,
{
    lemma_powers();
    lemma_widening_factor(d);
    let r = widening_factor(d);
    assert(r * upper >= 0x800_0000_0000_0000_0000) by (nonlinear_arith)
        requires
            r >= 0x10_0000_0000_0000,
            upper >= 0x80_0000,
    ;
    lemma_long(r * upper);
    let inner = lemma_double_form(r * upper);
    let top = (bit_length(r * upper) - 1) as nat;
    if top > 75 {
        lemma_pow2_strictly_increases(75, top);
    }
    let relative = round_significant(r * upper, 53);
    let additive = round_significant(round_significant(r + pow2(52), 53) * d, 53);
    lemma_long(relative + additive);
    lemma_double_form(relative + additive)
}

/// The value of the pattern that follows `sig * 2^shift`.
proof fn lemma_next_units(sig: nat, shift: nat)
    requires
        pow2(23) <= sig <= pow2(24),
    ensures
        magnitude_units(shift * 0x80_0000 + sig + 1) == (if sig == pow2(24) {
            sig + 2
        } else {
            sig + 1
        }) * pow2(shift),
{
    lemma_powers();
    lemma2_to64();
    let next = shift * 0x80_0000 + sig + 1;
    if sig < 0xff_ffff {
        assert(next / 0x80_0000 == shift + 1);
        assert(next % 0x80_0000 == sig + 1 - 0x80_0000);
    } else {
        assert(next / 0x80_0000 == shift + 2);
        assert(next % 0x80_0000 == sig + 1 - 0x100_0000);
        lemma_pow2_unfold((shift + 1) as nat);
        let p = pow2(shift);
        assert((0x80_0000 + (sig + 1 - 0x100_0000)) * (2 * p) == (if sig == 0x100_0000 {
            sig + 2
        } else {
            sig + 1
        }) * p) by (nonlinear_arith)
            requires
                sig == 0xff_ffff || sig == 0x100_0000,
        ;
    }
}

/// The value of the pattern before `sig * 2^shift`, doubled. Below the smallest
/// significand the places are half as wide, or the numbers are subnormal.
proof fn lemma_previous_units(sig: nat, shift: nat)
    requires
        pow2(23) <= sig <= pow2(24),
    ensures
        2 * magnitude_units((shift * 0x80_0000 + sig - 1) as nat) <= (if sig == pow2(23) {
            2 * sig - 1
        } else {
            2 * sig - 2
        }) * pow2(shift),
{
    lemma_powers();
    lemma2_to64();
    let previous = (shift * 0x80_0000 + sig - 1) as nat;
    let p = pow2(shift);
    if sig > 0x80_0000 {
        assert(previous / 0x80_0000 == shift + 1);
        assert(previous % 0x80_0000 == sig - 1 - 0x80_0000);
        assert(magnitude_units(previous) == (sig - 1) * p);
        assert(2 * ((sig - 1) * p) == (2 * sig - 2) * p) by (nonlinear_arith);
    } else {
        assert(previous / 0x80_0000 == shift);
        assert(previous % 0x80_0000 == 0x7f_ffff);
        if shift > 0 {
            lemma_pow2_unfold(shift);
            let q = pow2((shift - 1) as nat);
            assert(magnitude_units(previous) == 0xff_ffff * q);
            assert(2 * (0xff_ffff * q) == 0xff_ffff * (2 * q)) by (nonlinear_arith);
            assert((2 * sig - 1) * p == 0xff_ffff * p);
        } else {
            assert((2 * sig - 1) * p == 0xff_ffff) by (nonlinear_arith)
                requires
                    sig == 0x80_0000,
                    p == 1,
            ;
        }
    }
}

/// A threshold that is not past the largest single, by its significand and
/// exponent.
proof fn lemma_threshold_form(upper: nat, d: nat) -> (form: (nat, nat))
    requires
        upper >= 0x80_0000,
        d < DIMENSION_LIMIT,
        widened_cut(upper, d) <= largest_single() * pow2(52),
    ensures
        widened_cut(upper, d) == form.0 * pow2(form.1),
        pow2(52) <= form.0 <= pow2(53),
        23 <= form.1 <= 276,
        ({
            let sig = round_half_even(form.0, pow2(29));
            let shift = (form.1 - 23) as nat;
            let cutoff = widened_threshold(upper, d);
            &&& pow2(23) <= sig <= pow2(24)
            &&& cutoff.bits == shift * 0x80_0000 + sig + 1
            &&& cutoff.bits <= INFINITY_BITS
            &&& cutoff.units() == (if sig == pow2(24) {
                sig + 2
            } else {
                sig + 1
            }) * pow2(shift)
        }),
{
    lemma_powers();
    let (s, e) = lemma_widened_form(upper, d);
    lemma_past_largest(s, e);
    lemma_narrowed(s, e);
    let sig = round_half_even(s, pow2(29));
    let shift = (e - 23) as nat;
    lemma_pattern(sig, shift);
    if e == 276 {
        lemma_round_half_even_monotone(s, 0x1f_ffff_e000_0000, pow2(29));
        lemma_round_half_even_exact(0xff_ffff, pow2(29));
    }
    lemma_next_units(sig, shift);
    (s, e)
}

/// The threshold against the widened cut: at least half a last place of a
/// single above it, and at most two and a half.
proof fn lemma_threshold_error(upper: nat, d: nat)
    requires
        upper >= 0x80_0000,
        d < DIMENSION_LIMIT,
        widened_cut(upper, d) <= largest_single() * pow2(52),
    ensures
        ({
            let c = widened_threshold(upper, d).units() * pow2(52);
            let w = widened_cut(upper, d);
            &&& c * 0x200_0000 >= w * 0x200_0001
            &&& c * 0x100_0000 <= w * 0x100_0003
        }),
{
    lemma_powers();
    let (s, e) = lemma_threshold_form(upper, d);
    let sig = round_half_even(s, pow2(29));
    lemma_round_half_even_error(s, pow2(29));
    let shift = (e - 23) as nat;
    let next: nat = if sig == pow2(24) {
        sig + 2
    } else {
        sig + 1
    };
    lemma_pow2_adds(shift, 52);
    lemma_pow2_adds(e, 29);
    assert(shift + 52 == e + 29);
    let a = pow2(shift);
    let b = pow2(52);
    let p = pow2(e);
    lemma_pow2_pos(e);
    assert((next * a) * b == next * (a * b)) by (nonlinear_arith);
    assert(next * (p * 0x2000_0000) == (next * 0x2000_0000) * p) by (nonlinear_arith);
    let c = next * 0x2000_0000;
    assert(c * 0x200_0000 >= s * 0x200_0001);
    assert(c * 0x100_0000 <= s * 0x100_0003);
    assert((c * p) * 0x200_0000 >= (s * p) * 0x200_0001) by (nonlinear_arith)
        requires
            c * 0x200_0000 >= s * 0x200_0001,
            p > 0,
    ;
    assert((c * p) * 0x100_0000 <= (s * p) * 0x100_0003) by (nonlinear_arith)
        requires
            c * 0x100_0000 <= s * 0x100_0003,
            p > 0,
    ;
}

/// Two places below the threshold is at least half a last place of a single below
/// the widened cut.
proof fn lemma_threshold_two_places_down(upper: nat, d: nat)
    requires
        upper >= 0x80_0000,
        d < DIMENSION_LIMIT,
        widened_cut(upper, d) <= largest_single() * pow2(52),
    ensures
        widened_threshold(upper, d).bits >= 2,
        ({
            let below = Single { bits: (widened_threshold(upper, d).bits - 2) as u32 };
            below.units() * pow2(52) * 0x200_0000 <= widened_cut(upper, d) * 0x1ff_ffff
        }),
{
    lemma_powers();
    let (s, e) = lemma_threshold_form(upper, d);
    let sig = round_half_even(s, pow2(29));
    lemma_round_half_even_error(s, pow2(29));
    let shift = (e - 23) as nat;
    lemma_previous_units(sig, shift);
    let below = Single { bits: (widened_threshold(upper, d).bits - 2) as u32 };
    let v = below.units();
    let twice: int = if sig == pow2(23) {
        2 * sig - 1
    } else {
        2 * sig - 2
    };
    assert(below.bits == shift * 0x80_0000 + sig - 1);
    lemma_pow2_adds(shift, 52);
    lemma_pow2_adds(e, 29);
    assert(shift + 52 == e + 29);
    let a = pow2(shift) as int;
    let b = pow2(52) as int;
    let p = pow2(e) as int;
    lemma_pow2_pos(e);
    assert(2 * (v * b) <= twice * (a * b)) by (nonlinear_arith)
        requires
            2 * v <= twice * a,
            b > 0,
    ;
    assert(twice * (p * 0x2000_0000) == (twice * 0x2000_0000) * p) by (nonlinear_arith);
    let c = twice * 0x2000_0000;
    assert(c * 0x200_0000 <= 2 * (s * 0x1ff_ffff));
    assert((c * p) * 0x200_0000 <= 2 * ((s * p) * 0x1ff_ffff)) by (nonlinear_arith)
        requires
            c * 0x200_0000 <= 2 * (s * 0x1ff_ffff),
            p > 0,
    ;
}

/// A threshold that is not past the largest single lies above the bound, by less
/// than one part in 2^22, and two places below it is under the bound.
proof fn lemma_threshold_against_bound(upper: nat, d: nat)
    requires
        upper >= 0x80_0000,
        d < DIMENSION_LIMIT,
        widened_cut(upper, d) <= largest_single() * pow2(52),
    ensures
        ({
            let scaled = widened_threshold(upper, d).units() * bound_denominator(d);
            let bound = bound_numerator(upper, d);
            let below = Single { bits: (widened_threshold(upper, d).bits - 2) as u32 };
            &&& scaled > bound
            &&& scaled * 0x40_0000 < bound * 0x40_0001
            &&& widened_threshold(upper, d).bits >= 2
            &&& below.units() * bound_denominator(d) < bound
        }),
{
    lemma_powers();
    lemma_widened_cut_error(upper, d);
    lemma_threshold_two_places_down(upper, d);
    lemma_threshold_error(upper, d);
    let c = widened_threshold(upper, d).units();
    let l = pow2(52) as int;
    let w = widened_cut(upper, d) as int;
    let den = bound_denominator(d) as int;
    let b = bound_numerator(upper, d) as int;
    let m = pow2(53) as int;
    assert((0x100_0000 - d) * d >= 0) by (nonlinear_arith)
        requires
            0 <= d <= 0x100_0000,
    ;
    let cl = c * l;
    let t = l * b;
    lemma_error_scaled(cl, w, 0x200_0001, 0x200_0000, den);
    lemma_error_scaled(cl, w, 0x100_0003, 0x100_0000, den);
    assert(cl * den > t) by (nonlinear_arith)
        requires
            (cl * den) * 0x200_0000 >= (w * den) * 0x200_0001,
            (w * den) * m >= t * (m - 4),
            m == 0x20_0000_0000_0000,
            t > 0,
    ;
    assert((cl * den) * 0x40_0000 < t * 0x40_0001) by (nonlinear_arith)
        requires
            (cl * den) * 0x100_0000 <= (w * den) * 0x100_0003,
            (w * den) * m <= t * (m + 7),
            m == 0x20_0000_0000_0000,
            t > 0,
    ;
    assert(c * den > b) by (nonlinear_arith)
        requires
            (c * l) * den > l * b,
            l > 0,
    ;
    assert((c * den) * 0x40_0000 < b * 0x40_0001) by (nonlinear_arith)
        requires
            ((c * l) * den) * 0x40_0000 < (l * b) * 0x40_0001,
            l > 0,
    ;
    let v = (Single { bits: (widened_threshold(upper, d).bits - 2) as u32 }).units();
    let vl = v * l;
    lemma_error_scaled(vl, w, 0x1ff_ffff, 0x200_0000, den);
    assert(vl * den < t) by (nonlinear_arith)
        requires
            (vl * den) * 0x200_0000 <= (w * den) * 0x1ff_ffff,
            (w * den) * m <= t * (m + 7),
            m == 0x20_0000_0000_0000,
            t > 0,
    ;
    assert(v * den < b) by (nonlinear_arith)
        requires
            (v * l) * den < l * b,
            l > 0,
    ;
}

/// One place below a threshold that is not past the largest single is the single
/// nearest to the widened cut, the even pattern of two that are equally near.
proof fn lemma_threshold_follows_nearest(upper: nat, d: nat)
    requires
        upper >= 0x80_0000,
        d < DIMENSION_LIMIT,
        widened_cut(upper, d) <= largest_single() * pow2(52),
    ensures
        ({
            let c = widened_threshold(upper, d);
            let nearest = Single { bits: (c.bits - 1) as u32 };
            let below = Single { bits: (c.bits - 2) as u32 };
            let w = widened_cut(upper, d);
            &&& 2 <= c.bits <= INFINITY_BITS
            &&& (below.units() + nearest.units()) * pow2(52) <= 2 * w
            &&& 2 * w <= (nearest.units() + c.units()) * pow2(52)
            &&& (below.units() + nearest.units()) * pow2(52) == 2 * w ==> nearest.bits % 2 == 0
            &&& 2 * w == (nearest.units() + c.units()) * pow2(52) ==> nearest.bits % 2 == 0
        }),
{
    lemma_powers();
    lemma2_to64();
    let (s, e) = lemma_threshold_form(upper, d);
    let sig = round_half_even(s, pow2(29));
    law_rounded_quotient_is_nearest(s, pow2(29));
    let shift = (e - 23) as nat;
    lemma_previous_units(sig, shift);
    let c = widened_threshold(upper, d);
    let nearest = Single { bits: (c.bits - 1) as u32 };
    let below = Single { bits: (c.bits - 2) as u32 };
    let w = widened_cut(upper, d) as int;
    let a = pow2(shift) as int;
    lemma_pow2_pos(shift);
    // The value of the nearest single.
    let pattern = nearest.bits as nat;
    assert(pattern == shift * 0x80_0000 + sig);
    if sig < 0x100_0000 {
        assert(pattern / 0x80_0000 == shift + 1);
        assert(pattern % 0x80_0000 == sig - 0x80_0000);
        assert(magnitude_units(pattern) == sig * a);
    } else {
        assert(pattern / 0x80_0000 == shift + 2);
        assert(pattern % 0x80_0000 == 0);
        lemma_pow2_unfold((shift + 1) as nat);
        assert(magnitude_units(pattern) == 0x80_0000 * pow2((shift + 1) as nat));
        assert(sig * a == 0x80_0000 * (2 * a)) by (nonlinear_arith)
            requires
                sig == 0x100_0000,
        ;
    }
    assert(nearest.units() == sig * a);
    assert(below.bits == shift * 0x80_0000 + sig - 1);
    // Everything in units of the widened cut's last place.
    lemma_pow2_adds(shift, 52);
    lemma_pow2_adds(e, 29);
    assert(shift + 52 == e + 29);
    let b = pow2(52) as int;
    let p = pow2(e) as int;
    lemma_pow2_pos(e);
    let twice: int = if sig == pow2(23) {
        2 * sig - 1
    } else {
        2 * sig - 2
    };
    let next: int = if sig == pow2(24) {
        sig as int + 2
    } else {
        sig as int + 1
    };
    let n = nearest.units();
    let v = below.units();
    let t = c.units();
    let ab = a * b;
    assert(ab == 0x2000_0000 * p);
    assert(2 * ((v + n) * b) <= (twice + 2 * sig) * ab) by (nonlinear_arith)
        requires
            2 * v <= twice * a,
            n == sig * a,
            ab == a * b,
            b > 0,
    ;
    assert((n + t) * b == (sig + next) * ab) by (nonlinear_arith)
        requires
            n == sig * a,
            t == next * a,
            ab == a * b,
    ;
    let lower = (twice + 2 * sig) * 0x2000_0000;
    let upper_half = (sig + next) * 0x2000_0000;
    assert((twice + 2 * sig) * (0x2000_0000 * p) == lower * p) by (nonlinear_arith)
        requires
            lower == (twice + 2 * sig) * 0x2000_0000,
    ;
    assert((sig + next) * (0x2000_0000 * p) == upper_half * p) by (nonlinear_arith)
        requires
            upper_half == (sig + next) * 0x2000_0000,
    ;
    assert(w == s * p);
    assert(lower <= 4 * s);
    assert(2 * s <= upper_half);
    assert(lower == 4 * s ==> sig % 2 == 0);
    assert(upper_half == 2 * s ==> sig % 2 == 0);
    if lower < 4 * s {
        assert(lower * p < 4 * (s * p)) by (nonlinear_arith)
            requires
                lower < 4 * s,
                p > 0,
        ;
    }
    if 2 * s < upper_half {
        assert(2 * (s * p) < upper_half * p) by (nonlinear_arith)
            requires
                2 * s < upper_half,
                p > 0,
        ;
    } else {
        assert(2 * (s * p) == upper_half * p) by (nonlinear_arith)
            requires
                2 * s == upper_half,
        ;
    }
    if lower == 4 * s {
        assert(lower * p == 4 * (s * p)) by (nonlinear_arith)
            requires
                lower == 4 * s,
        ;
    }
    assert(nearest.bits % 2 == sig % 2);
}

/// What the threshold of an L2 band is, to the last bit. With `w` the bound
/// `R*upper + (R + 1)*A` as double arithmetic evaluates it, in units of 2^-52 *
/// 2^-149, the threshold is infinity where `w` is past the largest single.
/// Elsewhere it is one place above the single nearest to `w`: `w` lies between
/// the midpoints on either side of that single, and on a midpoint only where that
/// single's pattern is even.
pub proof fn law_threshold_is_one_place_above_nearest(
    band: DistanceBand,
    cut: Single,
    dimension: nat,
    r: nat,
    w: nat,
)
    requires
        band.spec_metric() == MetricType::L2,
        band.spec_upper() == Bound::Finite(cut),
        cut.units() >= 0x80_0000,
        dimension < 0x40_0000,
        r == round_half_even(pow2(75), (0x80_0000 - dimension) as nat),
        w == round_significant(
            round_significant(r * cut.units() as nat, 53) + round_significant(
                round_significant(r + pow2(52), 53) * dimension,
                53,
            ),
            53,
        ),
    ensures
        w > 0xff_ffff * pow2(305) ==> threshold(band, dimension).bits == 0x7f80_0000,
        w <= 0xff_ffff * pow2(305) ==> ({
            let cutoff = threshold(band, dimension);
            let nearest = Single { bits: (cutoff.bits - 1) as u32 };
            let below = Single { bits: (cutoff.bits - 2) as u32 };
            &&& 2 <= cutoff.bits <= 0x7f80_0000
            &&& (below.units() + nearest.units()) * pow2(52) <= 2 * w
            &&& 2 * w <= (nearest.units() + cutoff.units()) * pow2(52)
            &&& (below.units() + nearest.units()) * pow2(52) == 2 * w ==> nearest.bits % 2 == 0
            &&& 2 * w == (nearest.units() + cutoff.units()) * pow2(52) ==> nearest.bits % 2 == 0
        }),
{
    let upper = cut.units() as nat;
    assert(w == widened_cut(upper, dimension));
    lemma_pow2_adds(253, 52);
    let a = pow2(253);
    let b = pow2(52);
    assert((0xff_ffff * a) * b == 0xff_ffff * (a * b)) by (nonlinear_arith);
    if w <= 0xff_ffff * pow2(305) {
        lemma_threshold_follows_nearest(upper, dimension);
    }
}

/// The threshold of an L2 band against the exact bound `(2^23*U + (2^24 - d)*d) /
/// (2^23 - d)`, for an upper cut of `U` units and `d` dimensions, in units of
/// 2^-149. A finite threshold lies above the bound; two places below it is under
/// the bound; and one place below it is the single nearest to the bound, up to
/// one part in 2^50.
pub proof fn law_threshold_brackets_exact_bound(band: DistanceBand, cut: Single, dimension: nat)
    requires
        band.spec_metric() == MetricType::L2,
        band.spec_upper() == Bound::Finite(cut),
        cut.units() >= 0x80_0000,
        dimension < 0x40_0000,
        threshold(band, dimension).bits < 0x7f80_0000,
    ensures
        ({
            let bound = 0x80_0000 * cut.units() + (0x100_0000 - dimension) * dimension;
            let den = 0x80_0000 - dimension;
            let cutoff = threshold(band, dimension);
            let nearest = Single { bits: (cutoff.bits - 1) as u32 };
            let below = Single { bits: (cutoff.bits - 2) as u32 };
            &&& cutoff.bits >= 2
            &&& below.units() * den < bound < cutoff.units() * den
            &&& (below.units() + nearest.units()) * den * pow2(53) <= 2 * bound * (pow2(53) + 7)
            &&& 2 * bound * (pow2(53) - 4) <= (nearest.units() + cutoff.units()) * den * pow2(53)
        }),
{
    lemma_powers();
    let u = cut.units() as nat;
    lemma_threshold_against_bound(u, dimension);
    lemma_threshold_follows_nearest(u, dimension);
    lemma_widened_cut_error(u, dimension);
    assert((0x100_0000 - dimension) * dimension >= 0) by (nonlinear_arith)
        requires
            0 <= dimension <= 0x100_0000,
    ;
    let cutoff = threshold(band, dimension);
    let low = (Single { bits: (cutoff.bits - 2) as u32 }).units() + (Single {
        bits: (cutoff.bits - 1) as u32,
    }).units();
    let high = (Single { bits: (cutoff.bits - 1) as u32 }).units() + cutoff.units();
    let l = pow2(52) as int;
    let m = pow2(53) as int;
    let w = widened_cut(u, dimension) as int;
    let den = bound_denominator(dimension) as int;
    let b = bound_numerator(u, dimension) as int;
    let t = l * b;
    let g = den * m;
    assert(g > 0) by (nonlinear_arith)
        requires
            g == den * m,
            den > 0,
            m > 0,
    ;
    assert(w * den * m == w * g) by (nonlinear_arith)
        requires
            g == den * m,
    ;
    assert((low * g) * l <= (2 * b * (m + 7)) * l) by (nonlinear_arith)
        requires
            low * l <= 2 * w,
            w * g <= t * (m + 7),
            t == l * b,
            g > 0,
    ;
    assert((2 * b * (m - 4)) * l <= (high * g) * l) by (nonlinear_arith)
        requires
            2 * w <= high * l,
            w * g >= t * (m - 4),
            t == l * b,
            g > 0,
    ;
    let x = low * g;
    let y = 2 * b * (m + 7);
    assert(x <= y) by (nonlinear_arith)
        requires
            x * l <= y * l,
            l > 0,
    ;
    let z = high * g;
    let q = 2 * b * (m - 4);
    assert(q <= z) by (nonlinear_arith)
        requires
            q * l <= z * l,
            l > 0,
    ;
    assert(low * den * m == x) by (nonlinear_arith)
        requires
            x == low * g,
            g == den * m,
    ;
    assert(high * den * m == z) by (nonlinear_arith)
        requires
            z == high * g,
            g == den * m,
    ;
}

/// Inside the error model an L2 band is pruned: the threshold is finite wherever
/// the exact bound, plus two places of 2^253 units, is still below the largest
/// single. The lower end of the band is not asked for.
pub proof fn law_threshold_is_finite(band: DistanceBand, cut: Single, dimension: nat)
    requires
        band.spec_metric() == MetricType::L2,
        band.spec_upper() == Bound::Finite(cut),
        cut.units() >= 0x80_0000,
        dimension < 0x40_0000,
        0x80_0000 * cut.units() + (0x100_0000 - dimension) * dimension < (0xff_ffff - 2) * pow2(253)
            * (0x80_0000 - dimension),
    ensures
        threshold(band, dimension).finite(),
        threshold(band, dimension).bits < 0x7f80_0000,
{
    lemma_powers();
    lemma_pow2_pos(253);
    let u = cut.units() as nat;
    let place = pow2(253) as int;
    let l = pow2(52) as int;
    let m = pow2(53) as int;
    let w = widened_cut(u, dimension) as int;
    let den = bound_denominator(dimension) as int;
    assert((0x100_0000 - dimension) * dimension >= 0) by (nonlinear_arith)
        requires
            0 <= dimension <= 0x100_0000,
    ;
    let b = bound_numerator(u, dimension) as int;
    lemma_widened_cut_error(u, dimension);
    let top = place * den;
    assert(top > 0) by (nonlinear_arith)
        requires
            top == place * den,
            place > 0,
            den > 0,
    ;
    assert(0xff_fffd * place * den == 0xff_fffd * top) by (nonlinear_arith)
        requires
            top == place * den,
    ;
    if w > largest_single() * l {
        assert(w * den > (0xff_ffff * top) * l) by (nonlinear_arith)
            requires
                w > (0xff_ffff * place) * l,
                top == place * den,
                den > 0,
        ;
        let t = l * b;
        assert(t < (0xff_fffd * top) * l) by (nonlinear_arith)
            requires
                t == l * b,
                b < 0xff_fffd * top,
                l > 0,
        ;
        let tl = top * l;
        assert(tl > 0) by (nonlinear_arith)
            requires
                tl == top * l,
                top > 0,
                l > 0,
        ;
        assert((0xff_ffff * top) * l == 0xff_ffff * tl) by (nonlinear_arith)
            requires
                tl == top * l,
        ;
        assert((0xff_fffd * top) * l == 0xff_fffd * tl) by (nonlinear_arith)
            requires
                tl == top * l,
        ;
        let wd = w * den;
        assert(false) by (nonlinear_arith)
            requires
                wd > 0xff_ffff * tl,
                t < 0xff_fffd * tl,
                wd * m <= t * (m + 7),
                m == 0x20_0000_0000_0000,
                tl > 0,
        ;
    }
    lemma_threshold_form(u, dimension);
    lemma_threshold_against_bound(u, dimension);
    let cutoff = threshold(band, dimension);
    if cutoff.bits == INFINITY_BITS {
        let below = Single { bits: (cutoff.bits - 2) as u32 };
        assert(below.bits == 0x7f7f_fffe);
        assert(below.bits / 0x80_0000 == 254);
        assert(below.bits % 0x80_0000 == 0x7f_fffe);
        assert(below.units() == 0xff_fffe * place);
        assert((0xff_fffe * place) * den == 0xff_fffe * top) by (nonlinear_arith)
            requires
                top == place * den,
        ;
    }
}

/// A finite threshold dominates the bound: it lies above `R*upper + (R + 1)*A`,
/// in exact arithmetic and at every dimension.
pub proof fn law_threshold_dominates_bound(band: DistanceBand, dimension: nat)
    requires
        band.valid(),
        threshold(band, dimension).finite(),
    ensures
        prunable(band, dimension),
        threshold(band, dimension).units() * bound_denominator(dimension) > bound_numerator(
            band.spec_upper()->Finite_0.units() as nat,
            dimension,
        ),
{
    assert(!Single::infinity().finite());
    lemma_threshold_against_bound(band.spec_upper()->Finite_0.units() as nat, dimension);
}

/// The widening stays negligible: a finite threshold is above the bound by less
/// than two places, since the single two places below it is already under the
/// bound; and by less than one part in 2^22.
pub proof fn law_threshold_is_tight(band: DistanceBand, dimension: nat)
    requires
        band.valid(),
        threshold(band, dimension).finite(),
    ensures
        threshold(band, dimension).units() * bound_denominator(dimension) * 0x40_0000
            < bound_numerator(band.spec_upper()->Finite_0.units() as nat, dimension) * 0x40_0001,
        threshold(band, dimension).bits >= 2,
        (Single { bits: (threshold(band, dimension).bits - 2) as u32 }).units()
            * bound_denominator(dimension) < bound_numerator(
            band.spec_upper()->Finite_0.units() as nat,
            dimension,
        ),
{
    assert(!Single::infinity().finite());
    lemma_threshold_against_bound(band.spec_upper()->Finite_0.units() as nat, dimension);
}

/// Infinity counts for more than any finite number.
proof fn lemma_infinity_is_above(x: Single)
    requires
        x.finite(),
    ensures
        x.units() < Single::infinity().units(),
{
    let m = magnitude_bits(x.bits) as nat;
    lemma_magnitude_is_increasing(m, INFINITY_BITS as nat);
    assert(magnitude_bits(INFINITY_BITS) == INFINITY_BITS);
}

/// A threshold is a positive finite number or positive infinity.
pub proof fn law_threshold_is_positive(band: DistanceBand, dimension: nat)
    requires
        band.valid(),
    ensures
        threshold(band, dimension).units() > 0,
        threshold(band, dimension).finite() || threshold(band, dimension) == Single::infinity(),
{
    let zero = Single { bits: 0 };
    assert(zero.units() == 0);
    lemma_infinity_is_above(zero);
    if prunable(band, dimension) {
        let upper = band.spec_upper()->Finite_0.units() as nat;
        if widened_cut(upper, dimension) <= largest_single() * pow2(52) {
            lemma_threshold_form(upper, dimension);
            lemma_magnitude_is_increasing(0, threshold(band, dimension).bits as nat);
        }
    }
}

/// The threshold is never at or below the upper cut, whatever the metric and the
/// dimension.
pub proof fn law_threshold_exceeds_upper_cut(band: DistanceBand, dimension: nat, cut: Single)
    requires
        band.valid(),
        band.spec_upper() == Bound::Finite(cut),
    ensures
        threshold(band, dimension).units() > cut.units(),
{
    if threshold(band, dimension).finite() {
        law_threshold_dominates_bound(band, dimension);
        let c = threshold(band, dimension).units();
        let den = bound_denominator(dimension) as int;
        let u = cut.units();
        let d = dimension as int;
        assert(c > u) by (nonlinear_arith)
            requires
                c * den > 0x80_0000 * u + (0x100_0000 - d) * d,
                den == 0x80_0000 - d,
                0 <= d < 0x40_0000,
                u >= 0,
        ;
    } else {
        lemma_infinity_is_above(cut);
        law_threshold_is_positive(band, dimension);
    }
}

/// The error model of the two kernels, in units of 2^-149: with `S = exact /
/// scale` the exact distance over `d` dimensions and `g = d / (2^24 - d)`, the
/// pruning kernel's partial sum is at most `(1 + g)S + d`, and the committed
/// distance is at least `(1 - g)S - d`.
pub open spec fn within_error_model(
    partial: int,
    committed: int,
    exact: int,
    scale: nat,
    d: nat,
) -> bool {
    let den = 0x100_0000 - d;
    &&& scale > 0
    &&& partial * (scale * den) <= 0x100_0000 * exact + d * (scale * den)
    &&& committed * (scale * den) >= (0x100_0000 - 2 * d) * exact - d * (scale * den)
}

/// A partial sum exceeds a cutoff, so that the row is given up.
pub open spec fn exceeds(partial: int, cutoff: Single) -> bool {
    cutoff.finite() && partial > cutoff.units()
}

/// A row whose committed distance is below the upper cut is never given up: its
/// partial sum does not exceed the threshold, whatever errors the two kernels
/// make within the model. So no row in the band is lost, and a row that is given
/// up is at or above the upper cut.
pub proof fn law_row_below_cut_is_not_abandoned(
    band: DistanceBand,
    dimension: nat,
    partial: int,
    committed: int,
    exact: int,
    scale: nat,
)
    requires
        band.valid(),
        band.spec_upper() matches Bound::Finite(high) ==> committed < high.units(),
        within_error_model(partial, committed, exact, scale, dimension),
    ensures
        !exceeds(partial, threshold(band, dimension)),
{
    let cutoff = threshold(band, dimension);
    if cutoff.finite() {
        law_threshold_dominates_bound(band, dimension);
        let u = band.spec_upper()->Finite_0.units();
        let d = dimension as int;
        let c = committed;
        assert(c < u);
        let g = scale * (0x100_0000 - d);
        let den = 0x80_0000 - d;
        assert(g > 0) by (nonlinear_arith)
            requires
                g == scale * (0x100_0000 - d),
                scale > 0,
                d < 0x40_0000,
        ;
        // Twice the denominator times the exact distance.
        let x = (2 * den) * exact;
        assert((0x100_0000 - 2 * d) * exact == x);
        assert(x <= (c + d) * g) by (nonlinear_arith)
            requires
                c * g >= x - d * g,
        ;
        assert((c + d) * g < (u + d) * g) by (nonlinear_arith)
            requires
                c < u,
                g > 0,
        ;
        assert((partial * g) * den <= (0x100_0000 * exact + d * g) * den) by (nonlinear_arith)
            requires
                partial * g <= 0x100_0000 * exact + d * g,
                den > 0,
        ;
        assert((0x100_0000 * exact + d * g) * den == 0x80_0000 * x + (d * den) * g)
            by (nonlinear_arith)
            requires
                x == (2 * den) * exact,
        ;
        let b = 0x80_0000 * u + (0x100_0000 - d) * d;
        assert(0x80_0000 * ((u + d) * g) + (d * den) * g == b * g) by (nonlinear_arith)
            requires
                b == 0x80_0000 * u + (0x100_0000 - d) * d,
                den == 0x80_0000 - d,
        ;
        assert((partial * g) * den == (partial * den) * g) by (nonlinear_arith);
        assert(partial * den < b) by (nonlinear_arith)
            requires
                (partial * den) * g < b * g,
                g > 0,
        ;
        let t = cutoff.units();
        assert(partial < t) by (nonlinear_arith)
            requires
                partial * den < b,
                t * den > b,
                den > 0,
        ;
    }
}

/// No row below the upper cut is lost. With `exact / scale` the exact distance and
/// `g = d / (2^24 - d)`, let the partial sum be at most `(1 + g)*exact/scale + d`
/// and the committed distance at least `(1 - g)*exact/scale - d`, all in units of
/// 2^-149. If the committed distance is below the upper cut, the partial sum is at
/// most the threshold, or the threshold is infinity.
pub proof fn law_partial_sum_stays_within_threshold(
    band: DistanceBand,
    dimension: nat,
    partial: int,
    committed: int,
    exact: int,
    scale: nat,
)
    requires
        band.valid(),
        band.spec_upper() matches Bound::Finite(high) ==> committed < high.units(),
        scale > 0,
        partial * (scale * (0x100_0000 - dimension)) <= 0x100_0000 * exact + dimension * (scale * (
        0x100_0000 - dimension)),
        committed * (scale * (0x100_0000 - dimension)) >= (0x100_0000 - 2 * dimension) * exact
            - dimension * (scale * (0x100_0000 - dimension)),
    ensures
        threshold(band, dimension).bits == 0x7f80_0000 || partial <= threshold(
            band,
            dimension,
        ).units(),
{
    law_row_below_cut_is_not_abandoned(band, dimension, partial, committed, exact, scale);
    law_threshold_is_positive(band, dimension);
}

/// One more dimension raises the widened cut by more than one part in 2^23.
proof fn lemma_widened_cut_grows(upper: nat, d: nat)
    requires
        upper > 0,
        d + 1 < DIMENSION_LIMIT,
    ensures
        widened_cut(upper, d + 1) * 0x8000_0000_0000 >= widened_cut(upper, d) * 0x8000_0100_0001,
{
    lemma_powers();
    lemma_widened_cut_error(upper, d);
    lemma_widened_cut_error(upper, d + 1);
    let m = pow2(53) as int;
    let w1 = widened_cut(upper, d) as int;
    let w2 = widened_cut(upper, d + 1) as int;
    let den = bound_denominator(d) as int;
    let l = pow2(52) as int;
    let b1 = bound_numerator(upper, d) as int;
    let b2 = bound_numerator(upper, d + 1) as int;
    let dd = d as int;
    assert((0x100_0000 - dd) * dd >= 0) by (nonlinear_arith)
        requires
            0 <= dd <= 0x100_0000,
    ;
    assert((0x100_0000 - (dd + 1)) * (dd + 1) >= (0x100_0000 - dd) * dd) by (nonlinear_arith)
        requires
            0 <= dd <= 0x40_0000,
    ;
    assert(b2 >= b1);
    let t1 = l * b1;
    let t2 = l * b2;
    assert(t2 >= t1 && t1 >= 0) by (nonlinear_arith)
        requires
            t1 == l * b1,
            t2 == l * b2,
            l >= 0,
            b2 >= b1,
            b1 >= 0,
    ;
    assert(bound_denominator(d + 1) == den - 1);
    // The bound itself grows by the ratio of the denominators.
    assert(t2 * (den * 0x7f_ffff) >= t1 * (0x80_0000 * (den - 1))) by (nonlinear_arith)
        requires
            t2 >= t1,
            t1 >= 0,
            1 < den <= 0x80_0000,
    ;
    let q = den - 1;
    assert(w2 * (m * (den * 0x7f_ffff)) >= t1 * (0x80_0000 * (m - 4))) by {
        let a = w2 * q * m;
        let f = den * 0x7f_ffff;
        assert(a * f >= (t2 * (m - 4)) * f) by (nonlinear_arith)
            requires
                a >= t2 * (m - 4),
                f >= 0,
        ;
        assert((t2 * (m - 4)) * f == (t2 * f) * (m - 4)) by (nonlinear_arith);
        assert((t2 * f) * (m - 4) >= (t1 * (0x80_0000 * q)) * (m - 4)) by (nonlinear_arith)
            requires
                t2 * f >= t1 * (0x80_0000 * q),
                m - 4 >= 0,
        ;
        assert((t1 * (0x80_0000 * q)) * (m - 4) == (t1 * (0x80_0000 * (m - 4))) * q)
            by (nonlinear_arith);
        assert(a * f == (w2 * (m * f)) * q) by (nonlinear_arith)
            requires
                a == w2 * q * m,
        ;
        let x = w2 * (m * f);
        let y = t1 * (0x80_0000 * (m - 4));
        assert(x >= y) by (nonlinear_arith)
            requires
                x * q >= y * q,
                q > 0,
        ;
    }
    assert(w2 * (0x7f_ffff * (m + 7)) >= w1 * (0x80_0000 * (m - 4))) by {
        let x = w2 * (m * (den * 0x7f_ffff));
        let y = t1 * (0x80_0000 * (m - 4));
        assert(x * (m + 7) >= y * (m + 7)) by (nonlinear_arith)
            requires
                x >= y,
                m > 0,
        ;
        assert(y * (m + 7) == (t1 * (m + 7)) * (0x80_0000 * (m - 4))) by (nonlinear_arith)
            requires
                y == t1 * (0x80_0000 * (m - 4)),
        ;
        let k = 0x80_0000 * (m - 4);
        assert((t1 * (m + 7)) * k >= (w1 * den * m) * k) by (nonlinear_arith)
            requires
                t1 * (m + 7) >= w1 * den * m,
                k >= 0,
        ;
        let dm = den * m;
        assert(dm > 0) by (nonlinear_arith)
            requires
                dm == den * m,
                den > 0,
                m > 0,
        ;
        assert((w1 * den * m) * k == (w1 * k) * dm) by (nonlinear_arith)
            requires
                dm == den * m,
        ;
        assert(x * (m + 7) == (w2 * (0x7f_ffff * (m + 7))) * dm) by (nonlinear_arith)
            requires
                x == w2 * (m * (den * 0x7f_ffff)),
                dm == den * m,
        ;
        let left = w2 * (0x7f_ffff * (m + 7));
        let right = w1 * k;
        assert(left >= right) by (nonlinear_arith)
            requires
                left * dm >= right * dm,
                dm > 0,
        ;
    }
}

/// A widened cut that is larger by more than one part in 2^23 narrows to a
/// larger single.
proof fn lemma_narrowed_grows(s1: nat, e1: nat, s2: nat, e2: nat)
    requires
        pow2(52) <= s1 <= pow2(53),
        pow2(52) <= s2 <= pow2(53),
        e1 >= 23,
        e2 >= 23,
        s2 * pow2(e2) * 0x8000_0000_0000 >= s1 * pow2(e1) * 0x8000_0100_0001,
    ensures
        (e1 - 23) * 0x80_0000 + round_half_even(s1, pow2(29)) < (e2 - 23) * 0x80_0000
            + round_half_even(s2, pow2(29)),
{
    lemma_powers();
    let m1 = round_half_even(s1, pow2(29));
    let m2 = round_half_even(s2, pow2(29));
    lemma_narrowed(s1, e1);
    lemma_narrowed(s2, e2);
    lemma_round_half_even_error(s1, pow2(29));
    lemma_round_half_even_error(s2, pow2(29));
    let p1 = pow2(e1);
    let p2 = pow2(e2);
    lemma_pow2_pos(e1);
    lemma_pow2_pos(e2);
    if e2 < e1 {
        lemma_pow2_unfold(e1);
        if e2 < e1 - 1 {
            lemma_pow2_strictly_increases(e2, (e1 - 1) as nat);
        }
        assert(false) by (nonlinear_arith)
            requires
                s2 * p2 * 0x8000_0000_0000 >= s1 * p1 * 0x8000_0100_0001,
                p1 >= 2 * p2,
                p2 > 0,
                s1 >= 0x10_0000_0000_0000,
                s2 <= 0x20_0000_0000_0000,
        ;
    } else if e2 == e1 {
        assert(s2 * 0x8000_0000_0000 >= s1 * 0x8000_0100_0001) by (nonlinear_arith)
            requires
                s2 * p1 * 0x8000_0000_0000 >= s1 * p1 * 0x8000_0100_0001,
                p1 > 0,
        ;
        assert(m1 < m2);
    } else if e2 == e1 + 1 {
        lemma_pow2_unfold(e2);
        assert(2 * s2 * 0x8000_0000_0000 >= s1 * 0x8000_0100_0001) by (nonlinear_arith)
            requires
                s2 * p2 * 0x8000_0000_0000 >= s1 * p1 * 0x8000_0100_0001,
                p2 == 2 * p1,
                p1 > 0,
        ;
        assert(m1 == 0x100_0000 ==> m2 > 0x80_0000);
    } else {
        assert((e1 - 23) * 0x80_0000 + 0x100_0000 <= (e2 - 23) * 0x80_0000) by (nonlinear_arith)
            requires
                e2 >= e1 + 2,
        ;
    }
}

/// One more dimension raises a finite threshold and leaves an infinite one.
proof fn lemma_threshold_grows(upper: nat, d: nat)
    requires
        upper >= 0x80_0000,
        d + 1 < DIMENSION_LIMIT,
    ensures
        widened_threshold(upper, d).finite() ==> widened_threshold(upper, d).units()
            < widened_threshold(upper, d + 1).units(),
        !widened_threshold(upper, d).finite() ==> widened_threshold(upper, d + 1)
            == Single::infinity(),
{
    assert(!Single::infinity().finite());
    let c1 = widened_threshold(upper, d);
    let c2 = widened_threshold(upper, d + 1);
    lemma_widened_cut_grows(upper, d);
    if widened_cut(upper, d + 1) > largest_single() * pow2(52) {
        if c1.finite() {
            lemma_infinity_is_above(c1);
        }
    } else {
        let (s1, e1) = lemma_threshold_form(upper, d);
        let (s2, e2) = lemma_threshold_form(upper, d + 1);
        lemma_narrowed_grows(s1, e1, s2, e2);
        assert(c1.bits < c2.bits);
        lemma_magnitude_is_increasing(c1.bits as nat, c2.bits as nat);
    }
}

/// Below the dimension limit the widening stays bounded: the bound is less than
/// twice the cut plus three times the additive allowance.
pub proof fn law_bound_is_bounded(upper: nat, d: nat)
    requires
        0 < upper,
        d < DIMENSION_LIMIT,
    ensures
        bound_numerator(upper, d) < (2 * upper + 3 * d) * bound_denominator(d),
{
    let den = bound_denominator(d);
    assert(0x80_0000 * upper < (2 * upper) * den) by (nonlinear_arith)
        requires
            upper > 0,
            den > 0x40_0000,
    ;
    assert((0x100_0000 - d) * d <= (3 * d) * den) by (nonlinear_arith)
        requires
            den == 0x80_0000 - d,
            0 <= d < 0x40_0000,
    ;
    assert((2 * upper + 3 * d) * den == (2 * upper) * den + (3 * d) * den) by (nonlinear_arith);
}

/// The additive allowance of `d` units covers `d` roundings of half a unit, each
/// amplified by the relative roundings that follow it, `1/(1 - d * 2^-24)`.
pub proof fn law_allowance_covers_propagation(d: nat)
    requires
        d < DIMENSION_LIMIT,
    ensures
        d * 0x100_0000 <= (2 * d) * (0x100_0000 - d),
{
    assert(d * 0x100_0000 <= (2 * d) * (0x100_0000 - d)) by (nonlinear_arith)
        requires
            0 <= d < 0x40_0000,
    ;
}

/// Raising a cutoff can only give up fewer rows.
pub proof fn law_higher_cutoff_prunes_less(partial: int, cutoff: Single, higher: Single)
    requires
        cutoff.finite() || cutoff == Single::infinity(),
        cutoff.units() <= higher.units(),
    ensures
        exceeds(partial, higher) ==> exceeds(partial, cutoff),
{
    if higher.finite() {
        lemma_infinity_is_above(higher);
    }
}

/// A larger dimension raises a finite threshold, and an infinite one stays
/// infinite.
pub proof fn law_threshold_grows_with_dimension(band: DistanceBand, smaller: nat, larger: nat)
    requires
        band.valid(),
        smaller < larger,
    ensures
        threshold(band, smaller).finite() ==> threshold(band, smaller).units() < threshold(
            band,
            larger,
        ).units(),
        !threshold(band, smaller).finite() ==> threshold(band, larger) == Single::infinity(),
    decreases larger - smaller,
{
    let next = smaller + 1;
    law_threshold_is_positive(band, smaller);
    law_threshold_is_positive(band, next);
    law_threshold_is_positive(band, larger);
    let c1 = threshold(band, smaller);
    if prunable(band, next) {
        let upper = band.spec_upper()->Finite_0.units() as nat;
        lemma_threshold_grows(upper, smaller);
    } else if c1.finite() {
        lemma_infinity_is_above(c1);
    }
    if next < larger {
        law_threshold_grows_with_dimension(band, next, larger);
    }
}

/// A larger widened cut does not narrow to a smaller single.
proof fn lemma_narrowed_monotone(s1: nat, e1: nat, s2: nat, e2: nat)
    requires
        pow2(52) <= s1 <= pow2(53),
        pow2(52) <= s2 <= pow2(53),
        e1 >= 23,
        e2 >= 23,
        s1 * pow2(e1) <= s2 * pow2(e2),
    ensures
        (e1 - 23) * 0x80_0000 + round_half_even(s1, pow2(29)) <= (e2 - 23) * 0x80_0000
            + round_half_even(s2, pow2(29)),
{
    lemma_powers();
    lemma_narrowed(s1, e1);
    lemma_narrowed(s2, e2);
    let p1 = pow2(e1);
    let p2 = pow2(e2);
    lemma_pow2_pos(e1);
    lemma_pow2_pos(e2);
    if e1 == e2 {
        assert(s1 <= s2) by (nonlinear_arith)
            requires
                s1 * p1 <= s2 * p1,
                p1 > 0,
        ;
        lemma_round_half_even_monotone(s1, s2, pow2(29));
    } else if e1 > e2 {
        lemma_pow2_unfold(e1);
        if e2 < e1 - 1 {
            lemma_pow2_strictly_increases(e2, (e1 - 1) as nat);
        }
        assert(p1 == 2 * p2 && s1 == 0x10_0000_0000_0000 && s2 == 0x20_0000_0000_0000)
            by (nonlinear_arith)
            requires
                s1 * p1 <= s2 * p2,
                p1 >= 2 * p2,
                p2 > 0,
                s1 >= 0x10_0000_0000_0000,
                s2 <= 0x20_0000_0000_0000,
        ;
        assert(e1 == e2 + 1);
        lemma_round_half_even_exact(0x80_0000, pow2(29));
        lemma_round_half_even_exact(0x100_0000, pow2(29));
    }
}

/// A larger upper cut never lowers the threshold of normal cuts.
proof fn lemma_threshold_monotone(smaller: nat, larger: nat, d: nat)
    requires
        0x80_0000 <= smaller <= larger,
        d < DIMENSION_LIMIT,
    ensures
        widened_threshold(smaller, d).units() <= widened_threshold(larger, d).units(),
{
    let r = widening_factor(d);
    let additive = round_significant(round_significant(r + pow2(52), 53) * d, 53);
    assert(r * smaller <= r * larger) by (nonlinear_arith)
        requires
            smaller <= larger,
    ;
    lemma_round_significant_monotone(r * smaller, r * larger, 53);
    lemma_round_significant_monotone(
        round_significant(r * smaller, 53) + additive,
        round_significant(r * larger, 53) + additive,
        53,
    );
    let c1 = widened_threshold(smaller, d);
    let c2 = widened_threshold(larger, d);
    if widened_cut(smaller, d) <= largest_single() * pow2(52) {
        let (s1, e1) = lemma_threshold_form(smaller, d);
        if widened_cut(larger, d) <= largest_single() * pow2(52) {
            let (s2, e2) = lemma_threshold_form(larger, d);
            lemma_narrowed_monotone(s1, e1, s2, e2);
            if c1.bits < c2.bits {
                lemma_magnitude_is_increasing(c1.bits as nat, c2.bits as nat);
            }
        } else if c1.bits < INFINITY_BITS {
            lemma_infinity_is_above(c1);
        }
    }
}

/// Raising the upper cut of a band that can be pruned, or taking the cut away,
/// never lowers the threshold.
pub proof fn law_threshold_grows_with_upper_cut(
    band: DistanceBand,
    higher: DistanceBand,
    dimension: nat,
)
    requires
        band.valid(),
        higher.valid(),
        higher.spec_metric() == band.spec_metric(),
        higher.spec_upper() matches Bound::Finite(cut) ==> band.spec_upper() is Finite
            && band.spec_upper()->Finite_0.units() <= cut.units(),
        prunable(band, dimension),
    ensures
        threshold(band, dimension).units() <= threshold(higher, dimension).units(),
{
    if higher.spec_upper() is Finite {
        lemma_threshold_monotone(
            band.spec_upper()->Finite_0.units() as nat,
            higher.spec_upper()->Finite_0.units() as nat,
            dimension,
        );
    } else {
        law_threshold_is_positive(band, dimension);
        if threshold(band, dimension).finite() {
            lemma_infinity_is_above(threshold(band, dimension));
        }
    }
}

} // verus!
