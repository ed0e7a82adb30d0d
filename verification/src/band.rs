//! Half-open bands of distances.
use crate::single::{law_exponent_field_decides, Single};
use vstd::prelude::*;

verus! {

/// What the distance of a row measures. Internal distances are squared L2,
/// negated inner product and cosine distance.
#[derive(Clone, Copy, Debug, PartialEq, Eq, Structural)]
pub enum MetricType {
    L2,
    InnerProduct,
    Cosine,
}

/// One end of a band.
#[derive(Clone, Copy, Debug, PartialEq, Eq, Structural)]
pub enum Bound {
    /// A cut at this distance.
    Finite(Single),
    /// No cut: the band has no end on this side.
    Unbounded,
}

/// Why two bounds make no band.
#[derive(Clone, Copy, Debug, PartialEq, Eq, Structural)]
pub enum BandError {
    /// A cut is an infinity or a NaN. An open end is [`Bound::Unbounded`].
    NonFiniteCut,
    /// The lower cut lies above the upper one.
    ReversedCuts,
}

impl Bound {
    /// The cut, where there is one, is a finite number.
    pub open spec fn finite_or_absent(self) -> bool {
        self matches Bound::Finite(cut) ==> cut.finite()
    }

    fn is_finite_or_absent(self) -> (b: bool)
        ensures
            b == self.finite_or_absent(),
    {
        match self {
            Bound::Finite(cut) => cut.is_finite(),
            Bound::Unbounded => true,
        }
    }
}

/// Both cuts are present and the lower one lies above the upper one.
pub open spec fn reversed(lower: Bound, upper: Bound) -> bool {
    match (lower, upper) {
        (Bound::Finite(low), Bound::Finite(high)) => low.units() > high.units(),
        _ => false,
    }
}

/// The distances from a lower cut, which belongs to the band, up to an upper
/// cut, which does not. Equal cuts make a valid band that holds no distance.
#[derive(Clone, Copy, Debug, PartialEq, Eq, Structural)]
pub struct DistanceBand {
    lower: Bound,
    upper: Bound,
    metric: MetricType,
}

impl DistanceBand {
    /// The lower end.
    pub closed spec fn spec_lower(self) -> Bound {
        self.lower
    }

    /// The upper end.
    pub closed spec fn spec_upper(self) -> Bound {
        self.upper
    }

    /// The metric whose distances the band cuts.
    pub closed spec fn spec_metric(self) -> MetricType {
        self.metric
    }

    /// Cuts are finite and in order. Every band that exists is so.
    #[verifier::type_invariant]
    pub open spec fn valid(self) -> bool {
        &&& self.spec_lower().finite_or_absent()
        &&& self.spec_upper().finite_or_absent()
        &&& !reversed(self.spec_lower(), self.spec_upper())
    }

    /// The band holds the distance `value`.
    pub open spec fn holds(self, value: Single) -> bool {
        &&& self.spec_lower() matches Bound::Finite(low) ==> !value.nan() && low.units()
            <= value.units()
        &&& self.spec_upper() matches Bound::Finite(high) ==> !value.nan() && value.units()
            < high.units()
    }

    /// A band from its ends. A cut that is not finite is refused, and so is a
    /// lower cut above the upper one.
    pub fn new(lower: Bound, upper: Bound, metric: MetricType) -> (band: Result<
        DistanceBand,
        BandError,
    >)
        ensures
            band is Ok <==> lower.finite_or_absent() && upper.finite_or_absent() && !reversed(
                lower,
                upper,
            ),
            band matches Ok(b) ==> b.valid() && b.spec_lower() == lower && b.spec_upper() == upper
                && b.spec_metric() == metric,
            band == Err::<DistanceBand, BandError>(BandError::NonFiniteCut) <==> !(
            lower.finite_or_absent() && upper.finite_or_absent()),
            band == Err::<DistanceBand, BandError>(BandError::ReversedCuts) <==> (
            lower.finite_or_absent() && upper.finite_or_absent() && reversed(lower, upper)),
            // Two cuts.
            lower matches Bound::Finite(low) ==> (upper matches Bound::Finite(high) ==> {
                &&& band is Ok <==> (low.bits / 0x80_0000) % 0x100 != 0xff && (high.bits
                    / 0x80_0000) % 0x100 != 0xff && low.units() <= high.units()
                &&& band == Err::<DistanceBand, BandError>(BandError::NonFiniteCut) <==> (low.bits
                    / 0x80_0000) % 0x100 == 0xff || (high.bits / 0x80_0000) % 0x100 == 0xff
            }),
            // One cut.
            lower matches Bound::Finite(low) ==> (upper is Unbounded ==> {
                &&& band is Ok <==> (low.bits / 0x80_0000) % 0x100 != 0xff
                &&& band is Err ==> band->Err_0 == BandError::NonFiniteCut
            }),
            upper matches Bound::Finite(high) ==> (lower is Unbounded ==> {
                &&& band is Ok <==> (high.bits / 0x80_0000) % 0x100 != 0xff
                &&& band is Err ==> band->Err_0 == BandError::NonFiniteCut
            }),
            // No cut.
            lower is Unbounded && upper is Unbounded ==> band is Ok,
    {
        if !lower.is_finite_or_absent() || !upper.is_finite_or_absent() {
            return Err(BandError::NonFiniteCut);
        }
        match (lower, upper) {
            (Bound::Finite(low), Bound::Finite(high)) => {
                if high.is_less(low) {
                    return Err(BandError::ReversedCuts);
                }
            },
            _ => {},
        }
        Ok(DistanceBand { lower, upper, metric })
    }

    /// The lower end.
    pub fn lower(self) -> (b: Bound)
        ensures
            b == self.spec_lower(),
    {
        self.lower
    }

    /// The upper end.
    pub fn upper(self) -> (b: Bound)
        ensures
            b == self.spec_upper(),
    {
        self.upper
    }

    /// The metric whose distances the band cuts.
    pub fn metric(self) -> (m: MetricType)
        ensures
            m == self.spec_metric(),
    {
        self.metric
    }

    /// Whether the band holds the distance `value`.
    pub fn admits(self, value: Single) -> (b: bool)
        ensures
            b == self.holds(value),
            (value.bits / 0x80_0000) % 0x100 != 0xff ==> (b <==> {
                &&& self.spec_lower() matches Bound::Finite(low) ==> low.units() <= value.units()
                &&& self.spec_upper() matches Bound::Finite(high) ==> value.units() < high.units()
            }),
    {
        proof {
            use_type_invariant(&self);
        }
        let above: bool = match self.lower {
            Bound::Finite(low) => low.is_at_most(value),
            Bound::Unbounded => true,
        };
        let below: bool = match self.upper {
            Bound::Finite(high) => value.is_less(high),
            Bound::Unbounded => true,
        };
        above && below
    }
}

/// Two bounds make a band exactly when every cut is a finite number and, where
/// there are two, the lower one is worth at most the upper one. Of the sign of a
/// cut, and of the metric, nothing is asked.
pub proof fn law_cuts_in_order_make_a_band(band: DistanceBand, low: Single, high: Single)
    ensures
        band.spec_lower() == Bound::Finite(low) && band.spec_upper() == Bound::Finite(high) ==> (
        band.valid() <==> (low.bits / 0x80_0000) % 0x100 != 0xff && (high.bits / 0x80_0000) % 0x100
            != 0xff && low.units() <= high.units()),
        band.spec_lower() == Bound::Finite(low) && band.spec_upper() is Unbounded ==> (band.valid()
            <==> (low.bits / 0x80_0000) % 0x100 != 0xff),
        band.spec_lower() is Unbounded && band.spec_upper() == Bound::Finite(high) ==> (band.valid()
            <==> (high.bits / 0x80_0000) % 0x100 != 0xff),
        band.spec_lower() is Unbounded && band.spec_upper() is Unbounded ==> band.valid(),
        reversed(Bound::Finite(low), Bound::Finite(high)) <==> high.units() < low.units(),
        !reversed(Bound::Finite(low), Bound::Unbounded),
        !reversed(Bound::Unbounded, Bound::Finite(high)),
        !reversed(Bound::Unbounded, Bound::Unbounded),
        Bound::Finite(low).finite_or_absent() <==> (low.bits / 0x80_0000) % 0x100 != 0xff,
        Bound::Unbounded.finite_or_absent(),
{
    law_exponent_field_decides(low);
    law_exponent_field_decides(high);
}

/// What a band holds of the finite distances: those worth at least the lower cut,
/// where there is one, and less than the upper cut, where there is one. A NaN is
/// in no band that has a cut.
pub proof fn law_band_holds_an_interval(band: DistanceBand, value: Single)
    ensures
        (value.bits / 0x80_0000) % 0x100 != 0xff ==> (band.holds(value) <==> {
            &&& band.spec_lower() matches Bound::Finite(low) ==> low.units() <= value.units()
            &&& band.spec_upper() matches Bound::Finite(high) ==> value.units() < high.units()
        }),
        (value.bits / 0x80_0000) % 0x100 == 0xff && value.bits % 0x80_0000 != 0 && (
        band.spec_lower() is Finite || band.spec_upper() is Finite) ==> !band.holds(value),
{
    law_exponent_field_decides(value);
}

/// Which distances a band holds depends on its ends alone, not on its metric.
pub proof fn law_metric_does_not_move_the_band(
    band: DistanceBand,
    other: DistanceBand,
    value: Single,
)
    requires
        band.spec_lower() == other.spec_lower(),
        band.spec_upper() == other.spec_upper(),
    ensures
        band.holds(value) <==> other.holds(value),
        band.valid() <==> other.valid(),
{
}

/// The band is closed below and open above: the lower cut is in it, the upper
/// cut is not, and a distance between two that are in it is in it.
pub proof fn law_band_is_half_open(band: DistanceBand, low: Single, high: Single)
    requires
        band.valid(),
        band.spec_lower() == Bound::Finite(low),
        band.spec_upper() == Bound::Finite(high),
    ensures
        band.holds(low) <==> low.units() < high.units(),
        !band.holds(high),
        forall|a: Single, b: Single, c: Single|
            #![trigger band.holds(a), band.holds(b), band.holds(c)]
            band.holds(a) && band.holds(c) && !b.nan() && a.units() <= b.units() <= c.units()
                ==> band.holds(b),
{
}

} // verus!
