//! Rounding of integers to a number of significant bits, ties to even.
//!
//! This is what IEEE 754 arithmetic does to an exact result whose exponent is
//! in range: it keeps the nearest number that fits the precision.
use vstd::prelude::*;
use vstd::arithmetic::power2::*;
use vstd::arithmetic::div_mod::*;

verus! {

/// The integer nearest to `num / den`; the even one of two that are equally near.
pub open spec fn round_half_even(num: nat, den: nat) -> nat {
    let quotient = num / den;
    let remainder = num % den;
    if 2 * remainder < den || (2 * remainder == den && quotient % 2 == 0) {
        quotient
    } else {
        quotient + 1
    }
}

/// Number of binary digits of `x`; none for zero.
pub open spec fn bit_length(x: nat) -> nat
    decreases x,
{
    if x == 0 {
        0
    } else {
        bit_length(x / 2) + 1
    }
}

/// Distance between neighbours among the numbers with `precision` significant
/// bits, at the size of `x`; one where `x` itself has no more bits than that.
pub open spec fn quantum(x: nat, precision: nat) -> nat {
    if bit_length(x) <= precision {
        1
    } else {
        pow2((bit_length(x) - precision) as nat)
    }
}

/// The number with at most `precision` significant bits nearest to `x`, ties to
/// even.
pub open spec fn round_significant(x: nat, precision: nat) -> nat {
    round_half_even(x, quantum(x, precision)) * quantum(x, precision)
}

/// `x` lies in the binade of its bit length.
pub(crate) proof fn lemma_bit_length_bounds(x: nat)
    requires
        x > 0,
    ensures
        bit_length(x) >= 1,
        pow2((bit_length(x) - 1) as nat) <= x < pow2(bit_length(x)),
    decreases x,
{
    lemma2_to64();
    if x > 1 {
        lemma_bit_length_bounds(x / 2);
        let n = bit_length(x / 2);
        lemma_pow2_unfold(n);
        lemma_pow2_unfold((n + 1) as nat);
    } else {
        assert(bit_length(0) == 0);
        assert(bit_length(1) == bit_length(1nat / 2) + 1);
    }
}

/// The binade of a number fixes its bit length.
pub(crate) proof fn lemma_bit_length_is(x: nat, n: nat)
    requires
        n >= 1,
        pow2((n - 1) as nat) <= x < pow2(n),
    ensures
        bit_length(x) == n,
{
    lemma_pow2_pos((n - 1) as nat);
    lemma_bit_length_bounds(x);
    let b = bit_length(x);
    if b < n {
        if b < n - 1 {
            lemma_pow2_strictly_increases(b, (n - 1) as nat);
        }
    } else if n < b {
        if n < b - 1 {
            lemma_pow2_strictly_increases(n, (b - 1) as nat);
        }
    }
}

/// Scaling by a power of two lengthens a number by the exponent.
pub(crate) proof fn lemma_bit_length_scaled(x: nat, k: nat)
    requires
        x > 0,
    ensures
        bit_length(x * pow2(k)) == bit_length(x) + k,
{
    let n = bit_length(x);
    lemma_bit_length_bounds(x);
    lemma_pow2_pos(k);
    lemma_pow2_adds((n - 1) as nat, k);
    lemma_pow2_adds(n, k);
    let lo = pow2((n - 1) as nat);
    let hi = pow2(n);
    let s = pow2(k);
    assert(lo * s <= x * s < hi * s) by (nonlinear_arith)
        requires
            lo <= x < hi,
            s > 0,
    ;
    assert(n - 1 + k == n + k - 1);
    lemma_bit_length_is(x * pow2(k), n + k);
}

/// Powers of two below 2^128 fit a machine word of that width.
pub(crate) proof fn lemma_pow2_fits(k: int)
    requires
        0 <= k < 128,
    ensures
        pow2(k as nat) <= 0x8000_0000_0000_0000_0000_0000_0000_0000,
{
    lemma2_to64_rest();
    lemma_pow2_adds(64, 63);
    if k < 127 {
        lemma_pow2_strictly_increases(k as nat, 127);
    }
}

/// A quotient and a remainder determine the rounded quotient.
pub(crate) proof fn lemma_round_half_even_is(num: nat, den: nat, quotient: nat, remainder: nat)
    requires
        num == quotient * den + remainder,
        remainder < den,
    ensures
        num / den == quotient,
        num % den == remainder,
        round_half_even(num, den) == if 2 * remainder < den || (2 * remainder == den && quotient % 2
            == 0) {
            quotient
        } else {
            quotient + 1
        },
{
    lemma_fundamental_div_mod_converse(num as int, den as int, quotient as int, remainder as int);
}

/// The rounded quotient is at most half a denominator away.
pub(crate) proof fn lemma_round_half_even_error(num: nat, den: nat)
    requires
        den > 0,
    ensures
        2 * (round_half_even(num, den) * den) <= 2 * num + den,
        2 * num <= 2 * (round_half_even(num, den) * den) + den,
{
    lemma_fundamental_div_mod(num as int, den as int);
    let q = num / den;
    let r = num % den;
    assert(q * den == den * q) by (nonlinear_arith);
    assert((q + 1) * den == den * q + den) by (nonlinear_arith);
    lemma_mod_bound(num as int, den as int);
}

/// The rounded quotient is an integer nearest to the quotient, and the even one of
/// two that are equally near.
pub proof fn law_rounded_quotient_is_nearest(num: nat, den: nat)
    requires
        den > 0,
    ensures
        2 * (round_half_even(num, den) * den) <= 2 * num + den,
        2 * num <= 2 * (round_half_even(num, den) * den) + den,
        2 * (round_half_even(num, den) * den) == 2 * num + den ==> round_half_even(num, den) % 2
            == 0,
        2 * num == 2 * (round_half_even(num, den) * den) + den ==> round_half_even(num, den) % 2
            == 0,
{
    lemma_round_half_even_error(num, den);
    lemma_fundamental_div_mod(num as int, den as int);
    let q = num / den;
    assert(q * den == den * q) by (nonlinear_arith);
    assert((q + 1) * den == den * q + den) by (nonlinear_arith);
    lemma_mod_bound(num as int, den as int);
}

/// The bit length of a number is the least exponent whose power of two is above
/// it.
pub proof fn law_bit_length_is_least(x: nat)
    ensures
        x < pow2(bit_length(x)),
        x > 0 ==> bit_length(x) > 0 && pow2((bit_length(x) - 1) as nat) <= x,
        x == 0 ==> bit_length(x) == 0,
{
    lemma_pow2_pos(bit_length(x));
    if x > 0 {
        lemma_bit_length_bounds(x);
    }
}

/// Rounding to a precision leaves numbers of no more bits as they are. A number of
/// `e` bits more becomes a multiple of `2^e`, at most half of `2^e` away, and an
/// even multiple where two are equally near.
pub proof fn law_rounded_number_is_nearest(x: nat, precision: nat, e: nat)
    requires
        precision >= 1,
    ensures
        x < pow2(precision) ==> round_significant(x, precision) == x,
        pow2((precision - 1) as nat) * pow2(e) <= x < pow2(precision) * pow2(e) ==> ({
            let y = round_significant(x, precision);
            &&& y % pow2(e) == 0
            &&& 2 * y <= 2 * x + pow2(e)
            &&& 2 * x <= 2 * y + pow2(e)
            &&& (2 * y == 2 * x + pow2(e) || 2 * x == 2 * y + pow2(e)) ==> (y / pow2(e)) % 2 == 0
        }),
{
    lemma_pow2_pos(precision);
    lemma_pow2_pos(e);
    if x < pow2(precision) {
        if x > 0 {
            lemma_bit_length_bounds(x);
            if bit_length(x) > precision {
                if bit_length(x) - 1 > precision {
                    lemma_pow2_strictly_increases(precision, (bit_length(x) - 1) as nat);
                }
            }
        }
        lemma_round_half_even_exact(x, 1);
    }
    if pow2((precision - 1) as nat) * pow2(e) <= x < pow2(precision) * pow2(e) {
        let q = pow2(e);
        lemma_pow2_adds((precision - 1) as nat, e);
        lemma_pow2_adds(precision, e);
        assert(precision - 1 + e == precision + e - 1);
        lemma_bit_length_is(x, precision + e);
        lemma2_to64();
        assert(quantum(x, precision) == q);
        law_rounded_quotient_is_nearest(x, q);
        let m = round_half_even(x, q);
        lemma_div_by_multiple(m as int, q as int);
        lemma_mod_multiples_basic(m as int, q as int);
    }
}

/// A common factor does not change the rounded quotient.
pub(crate) proof fn lemma_round_half_even_scaled(num: nat, den: nat, c: nat)
    requires
        den > 0,
        c > 0,
    ensures
        round_half_even(num * c, den * c) == round_half_even(num, den),
{
    let q = num / den;
    let r = num % den;
    lemma_fundamental_div_mod(num as int, den as int);
    lemma_mod_bound(num as int, den as int);
    assert(num * c == q * (den * c) + r * c) by (nonlinear_arith)
        requires
            num == den * q + r,
    ;
    assert(r * c < den * c) by (nonlinear_arith)
        requires
            r < den,
            c > 0,
    ;
    lemma_round_half_even_is(num * c, den * c, q, r * c);
    assert(2 * (r * c) == (2 * r) * c) by (nonlinear_arith);
    if 2 * r < den {
        assert((2 * r) * c < den * c) by (nonlinear_arith)
            requires
                2 * r < den,
                c > 0,
        ;
    } else if 2 * r > den {
        assert((2 * r) * c > den * c) by (nonlinear_arith)
            requires
                2 * r > den,
                c > 0,
        ;
    }
}

/// An exact multiple is not changed by rounding.
pub(crate) proof fn lemma_round_half_even_exact(q: nat, den: nat)
    requires
        den > 0,
    ensures
        round_half_even(q * den, den) == q,
{
    lemma_round_half_even_is(q * den, den, q, 0);
}

/// Rounding respects order.
pub(crate) proof fn lemma_round_half_even_monotone(a: nat, b: nat, den: nat)
    requires
        a <= b,
        den > 0,
    ensures
        round_half_even(a, den) <= round_half_even(b, den),
{
    lemma_div_is_ordered(a as int, b as int, den as int);
    lemma_fundamental_div_mod(a as int, den as int);
    lemma_fundamental_div_mod(b as int, den as int);
}

/// Rounding commutes with scaling by a power of two.
pub(crate) proof fn lemma_round_significant_scaled(x: nat, precision: nat, k: nat)
    requires
        x > 0,
    ensures
        round_significant(x * pow2(k), precision) == round_significant(x, precision) * pow2(k),
{
    let n = bit_length(x);
    let s = pow2(k);
    lemma_pow2_pos(k);
    lemma_bit_length_scaled(x, k);
    if n > precision {
        let e = (n - precision) as nat;
        let q = pow2(e);
        lemma_pow2_pos(e);
        lemma_pow2_adds(e, k);
        assert(quantum(x * s, precision) == q * s);
        lemma_round_half_even_scaled(x, q, s);
        let m = round_half_even(x, q);
        assert(m * (q * s) == (m * q) * s) by (nonlinear_arith);
    } else {
        lemma_round_half_even_exact(x, 1);
        assert(round_significant(x, precision) == x);
        if n + k > precision {
            let e = (n + k - precision) as nat;
            let rest = (k - e) as nat;
            lemma_pow2_adds(rest, e);
            lemma_pow2_pos(e);
            let q = pow2(e);
            let y = x * pow2(rest);
            let t = pow2(rest);
            assert(x * (t * q) == (x * t) * q) by (nonlinear_arith);
            lemma_round_half_even_exact(y, q);
        } else {
            lemma_round_half_even_exact(x * s, 1);
        }
    }
}

/// Rounding to `precision` bits errs by at most half a unit in the last place.
pub(crate) proof fn lemma_round_significant_error(x: nat, precision: nat)
    requires
        precision >= 1,
    ensures
        pow2(precision) * round_significant(x, precision) <= pow2(precision) * x + x,
        pow2(precision) * x <= pow2(precision) * round_significant(x, precision) + x,
{
    let n = bit_length(x);
    let y = round_significant(x, precision);
    let m = pow2(precision);
    if n <= precision {
        lemma_round_half_even_exact(x, 1);
        assert(y == x);
    } else {
        let e = (n - precision) as nat;
        let q = pow2(e);
        let h = pow2((precision - 1) as nat);
        lemma_pow2_pos(e);
        lemma_round_half_even_error(x, q);
        lemma_bit_length_bounds(x);
        lemma_pow2_unfold(precision);
        lemma_pow2_adds((precision - 1) as nat, e);
        assert(precision - 1 + e == n - 1);
        assert(h * q <= x);
        assert(m * y <= m * x + x && m * x <= m * y + x) by (nonlinear_arith)
            requires
                m == 2 * h,
                h * q <= x,
                2 * y <= 2 * x + q,
                2 * x <= 2 * y + q,
                h >= 0,
        ;
    }
}

/// Rounding to a precision respects order.
pub(crate) proof fn lemma_round_significant_monotone(a: nat, b: nat, precision: nat)
    requires
        precision >= 1,
        a <= b,
    ensures
        round_significant(a, precision) <= round_significant(b, precision),
{
    if a > 0 {
        lemma_bit_length_bounds(a);
        lemma_bit_length_bounds(b);
        let la = bit_length(a);
        let lb = bit_length(b);
        if lb < la {
            if lb < la - 1 {
                lemma_pow2_strictly_increases(lb, (la - 1) as nat);
            }
        } else if la == lb {
            let q = quantum(a, precision);
            if la > precision {
                lemma_pow2_pos((la - precision) as nat);
            }
            lemma_round_half_even_monotone(a, b, q);
            assert(round_half_even(a, q) * q <= round_half_even(b, q) * q) by (nonlinear_arith)
                requires
                    round_half_even(a, q) <= round_half_even(b, q),
            ;
        } else {
            lemma_round_significant_in_binade(a, precision);
            lemma_round_significant_in_binade(b, precision);
            if la < lb - 1 {
                lemma_pow2_strictly_increases(la, (lb - 1) as nat);
            }
        }
    } else {
        lemma_round_half_even_exact(0, 1);
    }
}

/// A rounded number stays in the closed binade of the number.
proof fn lemma_round_significant_in_binade(x: nat, precision: nat)
    requires
        precision >= 1,
        x > 0,
    ensures
        pow2((bit_length(x) - 1) as nat) <= round_significant(x, precision) <= pow2(bit_length(x)),
{
    let n = bit_length(x);
    lemma_bit_length_bounds(x);
    if n <= precision {
        lemma_round_half_even_exact(x, 1);
    } else {
        let e = (n - precision) as nat;
        let q = pow2(e);
        let lo = pow2((precision - 1) as nat);
        let hi = pow2(precision);
        lemma_pow2_pos(e);
        lemma_pow2_adds((precision - 1) as nat, e);
        lemma_pow2_adds(precision, e);
        assert(precision - 1 + e == n - 1);
        lemma_round_half_even_monotone(lo * q, x, q);
        lemma_round_half_even_monotone(x, hi * q, q);
        lemma_round_half_even_exact(lo, q);
        lemma_round_half_even_exact(hi, q);
        let m = round_half_even(x, q);
        assert(lo * q <= m * q <= hi * q) by (nonlinear_arith)
            requires
                lo <= m <= hi,
        ;
    }
}

/// A number of `precision` significant bits, scaled, plus less than one last
/// place: what it rounds to is decided by that last place alone.
pub(crate) proof fn lemma_round_significant_split(hi: nat, lo: nat, e: nat, precision: nat)
    requires
        precision >= 1,
        pow2((precision - 1) as nat) <= hi < pow2(precision),
        lo < pow2(e),
    ensures
        round_significant(hi * pow2(e) + lo, precision) == round_half_even(
            hi * pow2(e) + lo,
            pow2(e),
        ) * pow2(e),
        bit_length(hi * pow2(e) + lo) == precision + e,
        hi * pow2(e) + lo > 0,
{
    let q = pow2(e);
    let x = hi * q + lo;
    let h = pow2((precision - 1) as nat);
    let m = pow2(precision);
    lemma_pow2_pos(e);
    lemma_pow2_pos((precision - 1) as nat);
    lemma_pow2_adds((precision - 1) as nat, e);
    lemma_pow2_adds(precision, e);
    assert(h * q <= x < m * q) by (nonlinear_arith)
        requires
            h <= hi < m,
            x == hi * q + lo,
            0 <= lo < q,
    ;
    assert(0 < h * q) by (nonlinear_arith)
        requires
            h > 0,
            q > 0,
    ;
    assert(precision - 1 + e == precision + e - 1);
    lemma_bit_length_is(x, precision + e);
    lemma2_to64();
}

/// The rounded quotient from the quotient and the remainder of a division.
pub(crate) fn round_parts(quotient: u128, remainder: u128, den: u128) -> (rounded: u128)
    requires
        remainder < den,
        quotient < u128::MAX || remainder == 0,
    ensures
        forall|num: nat|
            num == quotient * den + remainder ==> rounded == #[trigger] round_half_even(
                num,
                den as nat,
            ),
        quotient <= rounded <= quotient + 1,
{
    proof {
        assert forall|num: nat| num == quotient * den + remainder implies num / (den as nat)
            == quotient && #[trigger] round_half_even(num, den as nat) == if 2 * remainder < den
            || (2 * remainder == den && quotient % 2 == 0) {
            quotient as int
        } else {
            quotient + 1
        } by {
            lemma_round_half_even_is(num, den as nat, quotient as nat, remainder as nat);
        }
    }
    if remainder < den - remainder || (remainder == den - remainder && quotient % 2 == 0) {
        quotient
    } else {
        quotient + 1
    }
}

/// Computes [`round_half_even`].
pub fn round_quotient(num: u128, den: u128) -> (rounded: u128)
    requires
        den > 0,
    ensures
        rounded == round_half_even(num as nat, den as nat),
{
    let quotient: u128 = num / den;
    let remainder: u128 = num % den;
    proof {
        lemma_fundamental_div_mod(num as int, den as int);
        assert(quotient < u128::MAX || remainder == 0) by (nonlinear_arith)
            requires
                num == den * quotient + remainder,
                num <= u128::MAX,
                remainder < den,
        ;
        assert(den * quotient == quotient * den) by (nonlinear_arith);
        assert(num as nat == quotient * den + remainder);
    }
    round_parts(quotient, remainder, den)
}

/// Computes [`bit_length`].
pub(crate) fn count_bits(x: u128) -> (n: u32)
    ensures
        n == bit_length(x as nat),
        n <= 128,
{
    let mut rest: u128 = x;
    let mut n: u32 = 0;
    proof {
        if bit_length(x as nat) > 128 {
            lemma_bit_length_bounds(x as nat);
            lemma2_to64_rest();
            lemma_pow2_adds(64, 64);
            let top = (bit_length(x as nat) - 1) as nat;
            if top > 128 {
                lemma_pow2_strictly_increases(128, top);
            }
        }
    }
    while rest > 0
        invariant
            n + bit_length(rest as nat) == bit_length(x as nat),
            bit_length(x as nat) <= 128,
        decreases rest,
    {
        rest = rest / 2;
        n = n + 1;
    }
    n
}

/// The given power of two.
pub(crate) fn power_of_two(k: u32) -> (p: u128)
    requires
        k < 128,
    ensures
        p == pow2(k as nat),
{
    let mut p: u128 = 1;
    let mut i: u32 = 0;
    proof {
        lemma2_to64();
    }
    while i < k
        invariant
            i <= k < 128,
            p == pow2(i as nat),
        decreases k - i,
    {
        proof {
            lemma_pow2_unfold((i + 1) as nat);
            lemma_pow2_fits(i + 1);
        }
        p = p * 2;
        i = i + 1;
    }
    p
}

/// Computes [`round_significant`]. The bound leaves room for rounding up.
pub fn round_to_precision(x: u128, precision: u32) -> (rounded: u128)
    requires
        1 <= precision,
        x < 0x8000_0000_0000_0000_0000_0000_0000_0000,
    ensures
        rounded == round_significant(x as nat, precision as nat),
{
    let length: u32 = count_bits(x);
    if length <= precision {
        proof {
            lemma_round_half_even_exact(x as nat, 1);
        }
        x
    } else {
        let step: u128 = power_of_two(length - precision);
        proof {
            lemma_pow2_pos((length - precision) as nat);
        }
        let quotient: u128 = round_quotient(x, step);
        proof {
            lemma_round_half_even_error(x as nat, step as nat);
            lemma_bit_length_bounds(x as nat);
            let e = (length - precision) as nat;
            if e < length - 1 {
                lemma_pow2_strictly_increases(e, (length - 1) as nat);
            }
            assert(step <= x);
        }
        quotient * step
    }
}

} // verus!
