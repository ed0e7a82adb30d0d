//! The partial distance at which a row can be given up early.
//!
//! # Why the raw upper cut will not do
//!
//! "Partial sum above the upper cut, so full distance above it" holds in exact
//! arithmetic only. The kernel that prunes and the kernel that computes the
//! committed distance round differently, and a row whose committed distance
//! sits just inside the cut would be lost.
//!
//! # The bound
//!
//! Both kernels sum `d` squared differences. Writing `P` for the pruning sum,
//! `C` for the committed distance and `S` for the exact one:
//!
//! ```text
//!     P <= (1 + g)S + A          C >= (1 - g)S - A          C < upper
//! ```
//!
//! with `g = du/(1 - du)`, `u = 2^-24` (relative error) and `A = 2d * 2^-150`
//! (additive error of terms that fall into the subnormal range). The middle
//! inequality gives `S < (upper + A)/(1 - g)`, and substituting:
//!
//! ```text
//!     P < R*upper + (R + 1)*A,   R = (1 + g)/(1 - g) = 1/(1 - x),  x = d * 2^-23
//! ```
//!
//! The threshold is that bound, evaluated in double precision and rounded up
//! one place on the way back to single precision. Widening is safe in one
//! direction only: it can only prune less, because membership is still decided
//! by the band on the committed distance.
//!
//! # In integers
//!
//! In units of 2^-149 the cut is a whole number `U` and `A` is exactly `d`. All
//! doubles that occur are whole multiples of 2^-52 units, so the evaluation is
//! a chain of integer operations, each rounded to 53 significant bits.
use crate::band::{Bound, DistanceBand, MetricType};
use crate::rounding::{
    bit_length, count_bits, lemma_bit_length_bounds, lemma_bit_length_is, lemma_bit_length_scaled,
    lemma_round_half_even_error, lemma_round_half_even_exact, lemma_round_half_even_is,
    lemma_round_half_even_monotone, lemma_round_significant_error,
    lemma_round_significant_scaled, lemma_round_significant_split, power_of_two, round_half_even,
    round_parts, round_quotient, round_significant, round_to_precision,
};
use crate::single::{
    lemma_min_normal, lemma_normal, magnitude_units, Single, FRACTION_RANGE, INFINITY_BITS, MIN_NORMAL_BITS,
};
use vstd::prelude::*;
use vstd::arithmetic::div_mod::*;
use vstd::arithmetic::power2::*;

verus! {

/// Dimensions from here up are not pruned: `x = d * 2^-23` has reached one half.
/// It holds `R` below two, which keeps the widening bounded.
pub const DIMENSION_LIMIT: usize = 0x40_0000;

/// The factor `R = 1/(1 - x)` as a double, in units of 2^-52.
pub open spec fn widening_factor(d: nat) -> nat {
    round_half_even(pow2(75), (0x80_0000 - d) as nat)
}

/// `R*upper + (R + 1)*A` as double arithmetic evaluates it, every operation
/// rounded to 53 significant bits, in units of 2^-52 * 2^-149. `upper` is given
/// in units of 2^-149.
pub open spec fn widened_cut(upper: nat, d: nat) -> nat {
    let r = widening_factor(d);
    let relative = round_significant(r * upper, 53);
    let additive = round_significant(round_significant(r + pow2(52), 53) * d, 53);
    round_significant(relative + additive, 53)
}

/// The largest finite single, in units of 2^-149.
pub open spec fn largest_single() -> nat {
    0xff_ffff * pow2(253)
}

/// The bit pattern of the positive single worth `n` units, for an `n` of at most
/// 24 significant bits.
pub open spec fn pattern_of(n: nat) -> nat {
    if bit_length(n) <= 24 {
        n
    } else {
        let shift = (bit_length(n) - 24) as nat;
        shift * 0x80_0000 + n / pow2(shift)
    }
}

/// The single nearest to a widened cut, ties to even, in units of 2^-149.
pub open spec fn narrowed_cut(w: nat) -> nat {
    round_significant(w, 24) / pow2(52)
}

/// The threshold for a normal upper cut of `upper` units and a dimension below
/// the limit: the widened cut narrowed to a single, one place up; infinity where
/// the widened cut is past the largest single.
pub open spec fn widened_threshold(upper: nat, d: nat) -> Single {
    let w = widened_cut(upper, d);
    if w > largest_single() * pow2(52) {
        Single::infinity()
    } else {
        Single { bits: (pattern_of(narrowed_cut(w)) + 1) as u32 }
    }
}

/// Pruning on a partial sum is justified: the metric is L2, the only one whose
/// partial sums bound the full distance from below; there is an upper cut, and
/// it is a normal number; and the dimension is below the limit.
pub open spec fn prunable(band: DistanceBand, dimension: nat) -> bool {
    &&& band.spec_metric() == MetricType::L2
    &&& band.spec_upper() matches Bound::Finite(cut) && cut.units() >= 0x80_0000
    &&& dimension < DIMENSION_LIMIT
}

/// The threshold of a band at a dimension; infinity where pruning cannot be
/// justified.
pub open spec fn threshold(band: DistanceBand, dimension: nat) -> Single {
    if prunable(band, dimension) {
        widened_threshold(band.spec_upper()->Finite_0.units() as nat, dimension)
    } else {
        Single::infinity()
    }
}

/// No metric but L2 is pruned: its threshold is infinity at every dimension and
/// for all cuts.
pub proof fn law_other_metrics_are_not_pruned(band: DistanceBand, dimension: nat)
    requires
        band.spec_metric() != MetricType::L2,
    ensures
        threshold(band, dimension) == Single::infinity(),
        threshold(band, dimension).bits == 0x7f80_0000,
{
}

/// Outside the error model nothing is pruned: without an upper cut, at an upper
/// cut below the smallest normal number, which is worth 2^23 units, and from
/// 2^22 dimensions up, the threshold is infinity.
pub proof fn law_nothing_is_pruned_outside_the_model(band: DistanceBand, dimension: nat)
    requires
        dimension >= 0x40_0000 || (band.spec_upper() matches Bound::Finite(cut) ==> cut.units()
            < 0x80_0000),
    ensures
        threshold(band, dimension) == Single::infinity(),
        threshold(band, dimension).bits == 0x7f80_0000,
{
}

/// Bands of one metric with the same upper end, or with upper cuts of the same
/// value, have the same threshold. The lower ends do not matter.
pub proof fn law_lower_end_does_not_matter(
    band: DistanceBand,
    other: DistanceBand,
    dimension: nat,
)
    requires
        band.spec_metric() == other.spec_metric(),
        band.spec_upper() == other.spec_upper() || (band.spec_upper() is Finite
            && other.spec_upper() is Finite && band.spec_upper()->Finite_0.units()
            == other.spec_upper()->Finite_0.units()),
    ensures
        threshold(band, dimension) == threshold(other, dimension),
{
}

/// Literal values of the powers of two that the computation uses.
pub(crate) proof fn lemma_powers()
    ensures
        pow2(22) == 0x40_0000,
        pow2(23) == 0x80_0000,
        pow2(24) == 0x100_0000,
        pow2(29) == 0x2000_0000,
        pow2(52) == 0x10_0000_0000_0000,
        pow2(53) == 0x20_0000_0000_0000,
        pow2(54) == 0x40_0000_0000_0000,
        pow2(75) == 0x800_0000_0000_0000_0000,
        pow2(76) == 0x1000_0000_0000_0000_0000,
        pow2(77) == 0x2000_0000_0000_0000_0000,
        pow2(78) == 0x4000_0000_0000_0000_0000,
{
    lemma2_to64();
    lemma2_to64_rest();
    lemma_pow2_adds(52, 23);
    lemma_pow2_adds(52, 24);
    lemma_pow2_adds(53, 24);
    lemma_pow2_adds(54, 24);
}

/// Adds `q` to the 53-bit double `sig * 2^e`, rounding to 53 bits. The sum is
/// returned as a significand and an exponent.
fn add_rounded(sig: u128, e: u32, q: u128) -> (sum: (u128, u32))
    requires
        pow2(52) <= sig <= pow2(53),
        23 <= e <= 1000,
        q < pow2(76),
    ensures
        sum.0 * pow2(sum.1 as nat) == round_significant((sig * pow2(e as nat) + q) as nat, 53),
        pow2(52) <= sum.0 <= pow2(53),
        e <= sum.1 <= e + 1,
{
    proof {
        lemma_powers();
        lemma_pow2_unfold((e + 1) as nat);
        lemma_pow2_pos(e as nat);
    }
    if e >= 78 {
        proof {
            if e > 78 {
                lemma_pow2_strictly_increases(78, e as nat);
            }
            let (hi, f): (nat, nat) = if sig < pow2(53) {
                (sig as nat, e as nat)
            } else {
                (pow2(52), (e + 1) as nat)
            };
            let step = pow2(f);
            assert(hi * step == sig * pow2(e as nat)) by (nonlinear_arith)
                requires
                    hi == sig && step == pow2(e as nat) || (2 * hi == sig && step == 2 * pow2(
                        e as nat,
                    )),
            ;
            lemma_round_significant_split(hi, q as nat, f, 53);
            lemma_round_half_even_is(hi * step + q as nat, step, hi, q as nat);
        }
        return (sig, e);
    }
    let step: u128 = power_of_two(e);
    let hi: u128 = sig + q / step;
    let lo: u128 = q % step;
    let ghost x: nat = (sig * pow2(e as nat) + q) as nat;
    proof {
        if e > 23 {
            lemma_pow2_strictly_increases(23, e as nat);
        }
        lemma_fundamental_div_mod(q as int, step as int);
        let t = q / step;
        assert(x == hi * step + lo) by (nonlinear_arith)
            requires
                x == sig * step + q,
                q == step * t + lo,
                hi == sig + t,
        ;
        assert(t < 0x20_0000_0000_0000) by (nonlinear_arith)
            requires
                q == step * t + lo,
                q < 0x1000_0000_0000_0000_0000,
                step >= 0x80_0000,
                lo >= 0,
        ;
    }
    if hi < 0x20_0000_0000_0000 {
        proof {
            lemma_round_significant_split(hi as nat, lo as nat, e as nat, 53);
        }
        let rounded: u128 = round_parts(hi, lo, step);
        assert(rounded == round_half_even(x, step as nat));
        (rounded, e)
    } else {
        proof {
            if e < 77 {
                lemma_pow2_strictly_increases(e as nat, 77);
            }
        }
        let half: u128 = hi / 2;
        let rest: u128 = if hi % 2 == 0 {
            lo
        } else {
            step + lo
        };
        proof {
            let double = pow2((e + 1) as nat);
            let odd = hi % 2;
            assert(rest == odd * step + lo) by (nonlinear_arith)
                requires
                    odd == 0 && rest == lo || (odd == 1 && rest == step + lo),
            ;
            assert(x == half * double + rest) by (nonlinear_arith)
                requires
                    x == hi * step + lo,
                    hi == 2 * half + odd,
                    double == 2 * step,
                    rest == odd * step + lo,
            ;
            lemma_round_significant_split(half as nat, rest as nat, (e + 1) as nat, 53);
        }
        let rounded: u128 = round_parts(half, rest, 2 * step);
        assert(rounded == round_half_even(x, (2 * step) as nat));
        (rounded, e + 1)
    }
}

/// A number of 24 significant bits, or the power of two past them, scaled: what
/// its bit pattern is.
pub(crate) proof fn lemma_pattern(sig: nat, shift: nat)
    requires
        pow2(23) <= sig <= pow2(24),
    ensures
        pattern_of(sig * pow2(shift)) == shift * 0x80_0000 + sig,
{
    lemma_powers();
    lemma2_to64();
    lemma_pow2_pos(shift);
    if shift == 0 {
        assert(sig * pow2(0) == sig) by (nonlinear_arith)
            requires
                pow2(0) == 1,
        ;
    }
    if sig < pow2(24) {
        lemma_bit_length_is(sig, 24);
        lemma_bit_length_scaled(sig, shift);
        lemma_div_by_multiple(sig as int, pow2(shift) as int);
    } else {
        lemma_pow2_unfold(25);
        lemma_bit_length_is(sig, 25);
        lemma_bit_length_scaled(sig, shift);
        lemma_pow2_unfold((shift + 1) as nat);
        let step = pow2(shift);
        let double = pow2((shift + 1) as nat);
        assert(sig * step == 0x80_0000 * double) by (nonlinear_arith)
            requires
                sig == 0x100_0000,
                double == 2 * step,
        ;
        lemma_div_by_multiple(0x80_0000, double as int);
        assert((shift + 1) * 0x80_0000 == shift * 0x80_0000 + 0x80_0000) by (nonlinear_arith);
    }
}

/// A number of at most 24 significant bits is what its pattern stands for.
pub proof fn law_pattern_stands_for_its_number(n: nat)
    requires
        round_significant(n, 24) == n,
    ensures
        magnitude_units(pattern_of(n)) == n,
{
    lemma_powers();
    lemma2_to64();
    let length = bit_length(n);
    if n > 0 {
        lemma_bit_length_bounds(n);
    }
    if length <= 24 {
        if length < 24 {
            lemma_pow2_strictly_increases(length, 24);
        }
        if n >= 0x80_0000 {
            assert(n / 0x80_0000 == 1);
        }
    } else {
        let shift = (length - 24) as nat;
        let step = pow2(shift);
        let sig = round_half_even(n, step);
        lemma_pow2_pos(shift);
        lemma_pow2_adds(23, shift);
        lemma_pow2_adds(24, shift);
        assert(0x80_0000 <= sig < 0x100_0000) by (nonlinear_arith)
            requires
                0x80_0000 * step <= sig * step < 0x100_0000 * step,
                step > 0,
        ;
        lemma_pattern(sig, shift);
        let pattern = shift * 0x80_0000 + sig;
        assert(pattern / 0x80_0000 == shift + 1);
        assert(pattern % 0x80_0000 == sig - 0x80_0000);
    }
}

/// Narrowing a 53-bit double, scaled, rounds its significand to 24 bits.
pub(crate) proof fn lemma_narrowed(sig: nat, e: nat)
    requires
        pow2(52) <= sig <= pow2(53),
        e >= 23,
    ensures
        pow2(23) <= round_half_even(sig, pow2(29)) <= pow2(24),
        round_significant(sig * pow2(e), 24) == round_half_even(sig, pow2(29)) * pow2(29 + e),
        narrowed_cut(sig * pow2(e)) == round_half_even(sig, pow2(29)) * pow2((e - 23) as nat),
{
    lemma_powers();
    let step = pow2(29);
    let m = round_half_even(sig, step);
    lemma_round_half_even_monotone(pow2(52), sig, step);
    lemma_round_half_even_monotone(sig, pow2(53), step);
    lemma_round_half_even_exact(0x80_0000, step);
    lemma_round_half_even_exact(0x100_0000, step);
    lemma_round_significant_scaled(sig, 24, e);
    if sig < pow2(53) {
        lemma_bit_length_is(sig, 53);
    } else {
        lemma_bit_length_is(sig, 54);
        lemma_pow2_unfold(30);
        lemma_round_half_even_exact(0x80_0000, pow2(30));
    }
    assert(round_significant(sig, 24) == m * step);
    lemma_pow2_adds(29, e);
    lemma_pow2_adds((e - 23) as nat, 52);
    assert(e - 23 + 52 == 29 + e);
    let a = pow2(e);
    assert((m * step) * a == m * (step * a)) by (nonlinear_arith);
    let b = pow2((e - 23) as nat);
    let c = pow2(52);
    assert(m * (b * c) == (m * b) * c) by (nonlinear_arith);
    lemma_div_by_multiple((m * b) as int, c as int);
}

/// The double `sig * 2^e`, in units of 2^-52 * 2^-149, narrowed to a single and
/// moved one place up; infinity where it is past the largest single.
fn narrow_up(sig: u128, e: u32) -> (x: Single)
    requires
        pow2(52) <= sig <= pow2(53),
        23 <= e <= 1000,
    ensures
        ({
            let w = (sig * pow2(e as nat)) as nat;
            if w > largest_single() * pow2(52) {
                x == Single::infinity()
            } else {
                x.bits == pattern_of(narrowed_cut(w)) + 1
            }
        }),
        0 < x.bits <= INFINITY_BITS,
{
    let ghost w = (sig * pow2(e as nat)) as nat;
    let past: bool = e > 276 || (e == 276 && sig > 0x1f_ffff_e000_0000);
    proof {
        lemma_powers();
        lemma_past_largest(sig as nat, e as nat);
    }
    if past {
        return Single { bits: INFINITY_BITS };
    }
    let m: u128 = round_quotient(sig, 0x2000_0000);
    proof {
        lemma_narrowed(sig as nat, e as nat);
        lemma_pattern(m as nat, (e - 23) as nat);
        if e == 276 {
            lemma_round_half_even_monotone(sig as nat, 0x1f_ffff_e000_0000, pow2(29));
            lemma_round_half_even_exact(0xff_ffff, pow2(29));
        }
    }
    Single { bits: (e - 23) * FRACTION_RANGE + m as u32 + 1 }
}

/// When a double is past the largest single.
pub(crate) proof fn lemma_past_largest(sig: nat, e: nat)
    requires
        pow2(52) <= sig <= pow2(53),
    ensures
        sig * pow2(e) > largest_single() * pow2(52) <==> (e > 276 || (e == 276 && sig
            > 0x1f_ffff_e000_0000)),
{
    lemma_powers();
    let b = pow2(276);
    let p = pow2(e);
    lemma_pow2_adds(253, 52);
    lemma_pow2_adds(276, 29);
    let c = pow2(253);
    let l = pow2(52);
    assert((0xff_ffff * c) * l == 0xff_ffff * (c * l)) by (nonlinear_arith);
    assert(0xff_ffff * (b * 0x2000_0000) == 0x1f_ffff_e000_0000 * b) by (nonlinear_arith);
    assert(largest_single() * pow2(52) == 0x1f_ffff_e000_0000 * b);
    lemma_pow2_pos(276);
    if e > 276 {
        lemma_pow2_unfold(277);
        if e > 277 {
            lemma_pow2_strictly_increases(277, e);
        }
        assert(sig * p > 0x1f_ffff_e000_0000 * b) by (nonlinear_arith)
            requires
                sig >= 0x10_0000_0000_0000,
                p >= 2 * b,
                b > 0,
        ;
    } else if e == 276 {
        if sig > 0x1f_ffff_e000_0000 {
            assert(sig * b > 0x1f_ffff_e000_0000 * b) by (nonlinear_arith)
                requires
                    sig > 0x1f_ffff_e000_0000,
                    b > 0,
            ;
        } else {
            assert(sig * b <= 0x1f_ffff_e000_0000 * b) by (nonlinear_arith)
                requires
                    sig <= 0x1f_ffff_e000_0000,
                    b > 0,
            ;
        }
    } else {
        lemma_pow2_unfold(276);
        if e < 275 {
            lemma_pow2_strictly_increases(e, 275);
        }
        lemma_pow2_pos(e);
        assert(sig * p <= 0x1f_ffff_e000_0000 * b) by (nonlinear_arith)
            requires
                sig <= 0x20_0000_0000_0000,
                2 * p <= b,
                p > 0,
        ;
    }
}

/// The widening factor lies between one and two, and is the nearest 53-bit
/// number to the exact quotient.
pub(crate) proof fn lemma_widening_factor(d: nat)
    requires
        d < DIMENSION_LIMIT,
    ensures
        pow2(52) <= widening_factor(d) < pow2(53),
        2 * (widening_factor(d) * (0x80_0000 - d)) <= 2 * pow2(75) + (0x80_0000 - d),
        2 * pow2(75) <= 2 * (widening_factor(d) * (0x80_0000 - d)) + (0x80_0000 - d),
{
    lemma_powers();
    let den = (0x80_0000 - d) as nat;
    let r = widening_factor(d);
    lemma_round_half_even_error(pow2(75), den);
    assert(r < 0x20_0000_0000_0000) by (nonlinear_arith)
        requires
            2 * (r * den) <= 0x1000_0000_0000_0000_0000 + den,
            0x40_0001 <= den,
    ;
    assert(r >= 0x10_0000_0000_0000) by (nonlinear_arith)
        requires
            0x1000_0000_0000_0000_0000 <= 2 * (r * den) + den,
            den <= 0x80_0000,
    ;
}

/// Multiplies a factor of 53 bits by the single `significand * 2^k`, rounding to
/// 53 bits. The product is returned as a significand and an exponent.
fn scale_rounded(r: u128, significand: u128, k: u32) -> (product: (u128, u32))
    requires
        pow2(52) <= r < pow2(53),
        pow2(23) <= significand < pow2(24),
        k <= 300,
    ensures
        product.0 * pow2(product.1 as nat) == round_significant(
            (r * (significand * pow2(k as nat))) as nat,
            53,
        ),
        pow2(52) <= product.0 <= pow2(53),
        k + 23 <= product.1 <= k + 24,
{
    proof {
        lemma_powers();
        assert(0x800_0000_0000_0000_0000 <= r * significand < 0x2000_0000_0000_0000_0000)
            by (nonlinear_arith)
            requires
                0x10_0000_0000_0000 <= r < 0x20_0000_0000_0000,
                0x80_0000 <= significand < 0x100_0000,
        ;
    }
    let exact: u128 = r * significand;
    let length: u32 = count_bits(exact);
    proof {
        if exact < pow2(76) {
            lemma_bit_length_is(exact as nat, 76);
        } else {
            lemma_bit_length_is(exact as nat, 77);
        }
    }
    let step: u128 = power_of_two(length - 53);
    proof {
        lemma_pow2_pos((length - 53) as nat);
    }
    let rounded: u128 = round_quotient(exact, step);
    proof {
        let s = (length - 53) as nat;
        lemma_pow2_adds(s, k as nat);
        lemma_pow2_adds(s, 52);
        lemma_pow2_adds(s, 53);
        lemma_round_half_even_monotone(pow2(52) * step as nat, exact as nat, step as nat);
        lemma_round_half_even_monotone(exact as nat, pow2(53) * step as nat, step as nat);
        lemma_round_half_even_exact(pow2(52), step as nat);
        lemma_round_half_even_exact(pow2(53), step as nat);
        lemma_round_significant_scaled(exact as nat, 53, k as nat);
        let t = pow2(k as nat);
        assert(r * (significand * t) == (r * significand) * t) by (nonlinear_arith);
        assert((rounded * step) * t == rounded * (step * t)) by (nonlinear_arith);
    }
    (rounded, length - 53 + k)
}

/// Bounds on the additive part of the widened cut.
pub(crate) proof fn lemma_additive_bounds(r: nat, d: nat)
    requires
        pow2(52) <= r < pow2(53),
        d < DIMENSION_LIMIT,
    ensures
        round_significant(r + pow2(52), 53) <= 0x30_0000_0000_0000,
        round_significant(r + pow2(52), 53) * d < pow2(76),
        round_significant(round_significant(r + pow2(52), 53) * d, 53) < pow2(76),
{
    lemma_powers();
    let s = round_significant(r + pow2(52), 53);
    lemma_round_significant_error(r + pow2(52), 53);
    assert(s <= 0x30_0000_0000_0000);
    let x = s * d;
    assert(x <= 0x30_0000_0000_0000 * 0x3f_ffff) by (nonlinear_arith)
        requires
            x == s * d,
            s <= 0x30_0000_0000_0000,
            d <= 0x3f_ffff,
    ;
    lemma_round_significant_error(x, 53);
}

/// The threshold at which a partially accumulated L2 distance can be given up.
///
/// Infinity is returned wherever pruning cannot be justified, which is always
/// safe: it only means that no row is given up early.
pub fn early_abandon_threshold(band: DistanceBand, dimension: usize) -> (cutoff: Single)
    ensures
        cutoff == threshold(band, dimension as nat),
        !cutoff.nan(),
        0 < cutoff.bits <= 0x7f80_0000,
        band.spec_metric() != MetricType::L2 ==> cutoff.bits == 0x7f80_0000,
        dimension >= 0x40_0000 ==> cutoff.bits == 0x7f80_0000,
        band.spec_upper() is Unbounded ==> cutoff.bits == 0x7f80_0000,
        band.spec_upper() matches Bound::Finite(cut) ==> (cut.units() < 0x80_0000 ==> cutoff.bits
            == 0x7f80_0000),
{
    proof {
        use_type_invariant(&band);
    }
    // Only an L2 partial sum bounds the full distance from below. The remaining
    // terms of an inner product or a cosine can have either sign.
    if band.metric() != MetricType::L2 {
        return Single { bits: INFINITY_BITS };
    }
    let upper: Single = match band.upper() {
        Bound::Finite(cut) => cut,
        Bound::Unbounded => {
            return Single { bits: INFINITY_BITS };
        },
    };
    // A subnormal cut's own arithmetic is outside the relative-error model.
    proof {
        lemma_min_normal();
    }
    if upper.is_less(Single { bits: MIN_NORMAL_BITS }) {
        return Single { bits: INFINITY_BITS };
    }
    if dimension >= DIMENSION_LIMIT {
        return Single { bits: INFINITY_BITS };
    }
    proof {
        lemma_normal(upper);
    }
    let d: u128 = dimension as u128;
    let fraction: u128 = (upper.bits % FRACTION_RANGE) as u128;
    let significand: u128 = 0x80_0000 + fraction;
    let k: u32 = upper.bits / FRACTION_RANGE - 1;
    let ghost cut = upper.units() as nat;
    assert(cut == significand * pow2(k as nat));
    // R = 1/(1 - x), in units of 2^-52.
    let r: u128 = round_quotient(0x800_0000_0000_0000_0000, 0x80_0000 - d);
    proof {
        lemma_powers();
        lemma_widening_factor(d as nat);
    }
    // R*upper, rounded: a significand of 53 bits, scaled.
    let (relative, e): (u128, u32) = scale_rounded(r, significand, k);
    // (R + 1)*A, rounded. In units of 2^-149, A is the dimension.
    let successor: u128 = round_to_precision(r + 0x10_0000_0000_0000, 53);
    proof {
        lemma_additive_bounds(r as nat, d as nat);
    }
    let additive: u128 = round_to_precision(successor * d, 53);
    let (sig, exp): (u128, u32) = add_rounded(relative, e, additive);
    narrow_up(sig, exp)
}

} // verus!
