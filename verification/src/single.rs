//! IEEE 754 single-precision numbers by their bit pattern.
//!
//! Every finite single is a whole multiple of the smallest positive one,
//! 2^-149. [`Single::units`] is that multiple, so that statements about
//! distances are statements about integers.
use vstd::prelude::*;
use vstd::arithmetic::power2::*;

verus! {

/// Number of distinct fraction values: 2^23.
pub const FRACTION_RANGE: u32 = 0x80_0000;

/// Bit pattern of negative zero; patterns from here up carry the minus sign.
pub const SIGN_BIT: u32 = 0x8000_0000;

/// Bit pattern of positive infinity.
pub const INFINITY_BITS: u32 = 0x7f80_0000;

/// Bit pattern of the smallest positive normal number, 2^-126.
pub const MIN_NORMAL_BITS: u32 = 0x80_0000;

/// A single-precision number. Two values are equal under `==` when their bits
/// are, so the two zeros differ and a NaN equals itself.
#[derive(Clone, Copy, Debug, PartialEq, Eq, Structural)]
pub struct Single {
    pub bits: u32,
}

/// The sign-free part of a bit pattern.
pub open spec fn magnitude_bits(bits: u32) -> u32 {
    if bits >= SIGN_BIT {
        (bits - SIGN_BIT) as u32
    } else {
        bits
    }
}

/// The absolute value that a sign-free bit pattern stands for, in units of
/// 2^-149: the fraction alone when the exponent field is zero, and the fraction
/// with its hidden bit, scaled by the exponent, otherwise.
///
/// The pattern of infinity gives 2^277, one step past the largest finite value.
pub open spec fn magnitude_units(m: nat) -> nat {
    let exponent = m / 0x80_0000;
    let fraction = m % 0x80_0000;
    if exponent == 0 {
        fraction
    } else {
        (0x80_0000 + fraction) * pow2((exponent - 1) as nat)
    }
}

impl Single {
    /// Positive infinity.
    pub open spec fn infinity() -> Single {
        Single { bits: INFINITY_BITS }
    }

    /// Neither an infinity nor a NaN.
    pub open spec fn finite(self) -> bool {
        magnitude_bits(self.bits) < INFINITY_BITS
    }

    /// Not a number.
    pub open spec fn nan(self) -> bool {
        magnitude_bits(self.bits) > INFINITY_BITS
    }

    /// The value in units of 2^-149. An infinity counts as plus or minus 2^277,
    /// which is past every finite value, so that the order of units is the order
    /// of numbers. Of a NaN the units mean nothing.
    pub open spec fn units(self) -> int {
        if self.bits >= SIGN_BIT {
            -(magnitude_units(magnitude_bits(self.bits) as nat) as int)
        } else {
            magnitude_units(magnitude_bits(self.bits) as nat) as int
        }
    }

    /// The number with the given bit pattern.
    pub fn from_bits(bits: u32) -> (x: Single)
        ensures
            x.bits == bits,
    {
        Single { bits }
    }

    /// The bit pattern of the number.
    pub fn to_bits(self) -> (bits: u32)
        ensures
            bits == self.bits,
    {
        self.bits
    }
}

/// A longer exponent-and-fraction pattern stands for a larger number.
pub(crate) proof fn lemma_magnitude_is_increasing(a: nat, b: nat)
    requires
        a < b,
    ensures
        magnitude_units(a) < magnitude_units(b),
{
    let ea = a / 0x80_0000;
    let eb = b / 0x80_0000;
    let fa = a % 0x80_0000;
    let fb = b % 0x80_0000;
    assert(ea <= eb);
    if eb == 0 {
    } else if ea == eb {
        let p = pow2((ea - 1) as nat);
        lemma_pow2_pos((ea - 1) as nat);
        assert((0x80_0000 + fa) * p < (0x80_0000 + fb) * p) by (nonlinear_arith)
            requires
                fa < fb,
                p > 0,
        ;
    } else {
        let q = pow2((eb - 1) as nat);
        lemma_pow2_pos((eb - 1) as nat);
        assert(0x80_0000 * q <= (0x80_0000 + fb) * q) by (nonlinear_arith)
            requires
                q > 0,
        ;
        if ea == 0 {
            assert(0x80_0000 <= 0x80_0000 * q) by (nonlinear_arith)
                requires
                    q > 0,
            ;
        } else {
            let p = pow2((ea - 1) as nat);
            lemma_pow2_pos((ea - 1) as nat);
            lemma_pow2_unfold(ea);
            if ea < eb - 1 {
                lemma_pow2_strictly_increases(ea, (eb - 1) as nat);
            }
            assert((0x80_0000 + fa) * p < 0x80_0000 * q) by (nonlinear_arith)
                requires
                    fa < 0x80_0000,
                    p > 0,
                    2 * p <= q,
            ;
        }
    }
}

/// A pattern is a sign bit, an exponent field of eight bits and a fraction of 23.
/// It is finite exactly when the exponent field is not all ones, whatever the
/// sign; with all ones it is an infinity where the fraction is zero, and a NaN
/// otherwise.
pub proof fn law_exponent_field_decides(x: Single)
    ensures
        x.finite() <==> (x.bits / 0x80_0000) % 0x100 != 0xff,
        x.nan() <==> (x.bits / 0x80_0000) % 0x100 == 0xff && x.bits % 0x80_0000 != 0,
        x == Single::infinity() <==> x.bits < 0x8000_0000 && (x.bits / 0x80_0000) % 0x100 == 0xff
            && x.bits % 0x80_0000 == 0,
{
}

/// The value of every pattern. Up to the second binade the units are the pattern
/// itself; one step of the exponent field doubles a normal number; and the sign
/// bit negates.
pub proof fn law_units_of_patterns(x: Single, y: Single)
    ensures
        x.bits < 0x100_0000 ==> x.units() == x.bits,
        0x80_0000 <= x.bits && y.bits == x.bits + 0x80_0000 && y.bits < 0x8000_0000 ==> y.units()
            == 2 * x.units(),
        y.bits == x.bits + 0x8000_0000 ==> y.units() == -x.units(),
{
    lemma2_to64();
    let b = x.bits as nat;
    let e = b / 0x80_0000;
    let f = b % 0x80_0000;
    if b < 0x100_0000 && b >= 0x80_0000 {
        assert(e == 1);
        assert(magnitude_units(b) == (0x80_0000 + f) * pow2(0));
    }
    if 0x80_0000 <= x.bits && y.bits == x.bits + 0x80_0000 && y.bits < 0x8000_0000 {
        let c = y.bits as nat;
        assert(c / 0x80_0000 == e + 1);
        assert(c % 0x80_0000 == f);
        lemma_pow2_unfold(e);
        let p = pow2((e - 1) as nat);
        assert((0x80_0000 + f) * (2 * p) == 2 * ((0x80_0000 + f) * p)) by (nonlinear_arith);
    }
}

/// Numbers of one sign are ordered as their patterns are, and a negative number
/// is below every positive one.
pub proof fn law_units_are_ordered(x: Single, y: Single)
    ensures
        x.bits < y.bits < 0x8000_0000 ==> 0 <= x.units() < y.units(),
        0x8000_0000 <= x.bits < y.bits ==> y.units() < x.units() <= 0,
        x.bits >= 0x8000_0000 && y.bits < 0x8000_0000 ==> x.units() <= 0 <= y.units(),
{
    let a = magnitude_bits(x.bits) as nat;
    let b = magnitude_bits(y.bits) as nat;
    if a < b {
        lemma_magnitude_is_increasing(a, b);
    }
}

/// A finite number from the smallest normal one up has its hidden bit set.
pub(crate) proof fn lemma_normal(x: Single)
    requires
        x.finite(),
        x.units() >= 0x80_0000,
    ensures
        MIN_NORMAL_BITS <= x.bits < INFINITY_BITS,
        x.units() == (0x80_0000 + x.bits % FRACTION_RANGE) * pow2(
            (x.bits / FRACTION_RANGE - 1) as nat,
        ),
{
}

/// The smallest normal number is 2^23 units.
pub(crate) proof fn lemma_min_normal()
    ensures
        (Single { bits: MIN_NORMAL_BITS }).units() == 0x80_0000,
{
    lemma2_to64();
    assert(0x80_0000nat / 0x80_0000 == 1);
    assert(0x80_0000nat % 0x80_0000 == 0);
    assert(magnitude_units(0x80_0000) == 0x80_0000 * pow2(0));
}

impl Single {
    /// Whether the number is neither an infinity nor a NaN.
    pub fn is_finite(self) -> (b: bool)
        ensures
            b == self.finite(),
            b <==> (self.bits / 0x80_0000) % 0x100 != 0xff,
    {
        proof {
            law_exponent_field_decides(self);
        }
        self.magnitude() < INFINITY_BITS
    }

    /// Whether the pattern is that of a NaN.
    pub fn is_nan(self) -> (b: bool)
        ensures
            b == self.nan(),
            b <==> (self.bits / 0x80_0000) % 0x100 == 0xff && self.bits % 0x80_0000 != 0,
    {
        proof {
            law_exponent_field_decides(self);
        }
        self.magnitude() > INFINITY_BITS
    }

    fn magnitude(self) -> (m: u32)
        ensures
            m == magnitude_bits(self.bits),
    {
        if self.bits >= SIGN_BIT {
            self.bits - SIGN_BIT
        } else {
            self.bits
        }
    }

    /// An integer by which numbers other than NaN are ordered.
    fn order_key(self) -> (key: i64)
        ensures
            key == self.spec_order_key(),
    {
        if self.bits >= SIGN_BIT {
            -((self.bits - SIGN_BIT) as i64)
        } else {
            self.bits as i64
        }
    }

    spec fn spec_order_key(self) -> int {
        if self.bits >= SIGN_BIT {
            -(magnitude_bits(self.bits) as int)
        } else {
            magnitude_bits(self.bits) as int
        }
    }

    proof fn lemma_order_key(self, other: Single)
        ensures
            self.spec_order_key() < other.spec_order_key() <==> self.units() < other.units(),
            self.spec_order_key() == other.spec_order_key() <==> self.units() == other.units(),
    {
        let a = magnitude_bits(self.bits) as nat;
        let b = magnitude_bits(other.bits) as nat;
        if a < b {
            lemma_magnitude_is_increasing(a, b);
        }
        if b < a {
            lemma_magnitude_is_increasing(b, a);
        }
        if 0 < a {
            lemma_magnitude_is_increasing(0, a);
        }
        if 0 < b {
            lemma_magnitude_is_increasing(0, b);
        }
    }

    /// `self < other`, false when either is a NaN.
    pub fn is_less(self, other: Single) -> (b: bool)
        ensures
            b == (!self.nan() && !other.nan() && self.units() < other.units()),
    {
        proof {
            self.lemma_order_key(other);
        }
        !self.is_nan() && !other.is_nan() && self.order_key() < other.order_key()
    }

    /// `self <= other`, false when either is a NaN.
    pub fn is_at_most(self, other: Single) -> (b: bool)
        ensures
            b == (!self.nan() && !other.nan() && self.units() <= other.units()),
    {
        proof {
            self.lemma_order_key(other);
        }
        !self.is_nan() && !other.is_nan() && self.order_key() <= other.order_key()
    }
}

} // verus!
