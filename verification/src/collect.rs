//! The seam between a list scan and what becomes of the rows it visits.
use crate::band::{law_band_holds_an_interval, Bound, DistanceBand};
use crate::error::{non_finite_message, Error, ErrorKind};
use crate::single::{law_exponent_field_decides, Single};
use crate::threshold::{early_abandon_threshold, threshold};
use vstd::prelude::*;

verus! {

/// The interface a scan kernel uses to hand candidate rows to a collector.
pub trait Collector: Sized {
    /// How many more rows can be handed over before a counter is full. Handing
    /// one over takes at most one from it, so a kernel may hand over as many
    /// rows as there is room for. A collector that does not count keeps the
    /// default, room for any list of rows, and never runs out.
    open spec fn room(&self) -> nat {
        usize::MAX as nat
    }

    /// Called when the scan kernel gives a row up early because of
    /// [`Collector::cutoff`].
    ///
    /// Such a row never reaches [`Collector::push`], so a collector that counts
    /// the rows a scan touched cannot recover that count from its `push` calls:
    /// the kernel has to report the row explicitly. The default does nothing,
    /// which is free for collectors that do not count.
    fn note_abandoned(&mut self)
        requires
            old(self).room() > 0,
        ensures
            final(self).room() + 1 >= old(self).room(),
        default_ensures
            *final(self) == *old(self),
    {
    }

    /// The threshold currently in force. A row may be given up as soon as its
    /// partially accumulated distance exceeds this value.
    ///
    /// Infinity means that no pruning is possible, and callers must not enter
    /// the early-abandon kernel in that case: it would run a full pass that can
    /// never give anything up.
    fn cutoff(&self) -> (c: Single);

    /// Delivers one row, with the value the scan computed for it.
    ///
    /// Fallible because a collector may own a resource the scan cannot see.
    fn push(&mut self, id: i64, value: Single) -> (outcome: Result<(), Error>)
        requires
            old(self).room() > 0,
        ensures
            final(self).room() + 1 >= old(self).room(),
    ;
}

/// What a [`RangeCollector`] has gathered.
#[verifier::ext_equal]
pub struct RangeState {
    /// The band whose rows are kept.
    pub band: DistanceBand,
    /// The early-abandon threshold.
    pub cutoff: Single,
    /// The rows kept, in the order in which they were delivered.
    pub rows: Seq<(i64, Single)>,
    /// Rows read and at least partially evaluated.
    pub scanned: nat,
    /// Rows given up early, which were scanned too.
    pub early_abandoned: nat,
}

impl RangeState {
    /// Nothing gathered yet.
    pub open spec fn empty(band: DistanceBand, dimension: nat) -> RangeState {
        RangeState {
            band,
            cutoff: threshold(band, dimension),
            rows: Seq::empty(),
            scanned: 0,
            early_abandoned: 0,
        }
    }

    /// A delivered row is kept: its distance is finite and in the band.
    pub open spec fn keeps(self, value: Single) -> bool {
        value.finite() && self.band.holds(value)
    }

    /// One row delivered.
    pub open spec fn pushed(self, id: i64, value: Single) -> RangeState {
        RangeState {
            rows: if self.keeps(value) {
                self.rows.push((id, value))
            } else {
                self.rows
            },
            scanned: self.scanned + 1,
            ..self
        }
    }

    /// One row given up early.
    pub open spec fn abandoned(self) -> RangeState {
        RangeState {
            scanned: self.scanned + 1,
            early_abandoned: self.early_abandoned + 1,
            ..self
        }
    }

    /// Every row that is kept or was given up has been counted as scanned, and
    /// only finite distances in the band are kept.
    pub open spec fn consistent(self) -> bool {
        &&& self.band.valid()
        &&& !self.cutoff.nan()
        &&& self.rows.len() + self.early_abandoned <= self.scanned
        &&& forall|i: int| 0 <= i < self.rows.len() ==> self.keeps((#[trigger] self.rows[i]).1)
    }
}

/// A fresh state has the given band, that band's threshold at the given dimension
/// as its cutoff, no rows and counts of zero, whatever the ends of the band are.
pub proof fn law_fresh_state_by_field(band: DistanceBand, dimension: nat)
    ensures
        RangeState::empty(band, dimension).band == band,
        RangeState::empty(band, dimension).cutoff == threshold(band, dimension),
        RangeState::empty(band, dimension).rows.len() == 0,
        RangeState::empty(band, dimension).scanned == 0,
        RangeState::empty(band, dimension).early_abandoned == 0,
{
}

/// What a delivery does, field by field. It counts one row as scanned and leaves
/// the other count, the band and the cutoff. The row is added at the end exactly
/// when its distance is finite, worth at least the lower cut, where there is one,
/// and less than the upper cut, where there is one.
pub proof fn law_delivery_by_field(state: RangeState, id: i64, value: Single)
    ensures
        state.pushed(id, value).scanned == state.scanned + 1,
        state.pushed(id, value).early_abandoned == state.early_abandoned,
        state.pushed(id, value).band == state.band,
        state.pushed(id, value).cutoff == state.cutoff,
        ({
            &&& (value.bits / 0x80_0000) % 0x100 != 0xff
            &&& state.band.spec_lower() matches Bound::Finite(low) ==> low.units()
                <= value.units()
            &&& state.band.spec_upper() matches Bound::Finite(high) ==> value.units()
                < high.units()
        }) ==> state.pushed(id, value).rows == state.rows.push((id, value)),
        (value.bits / 0x80_0000) % 0x100 == 0xff ==> state.pushed(id, value).rows == state.rows,
        state.band.spec_lower() matches Bound::Finite(low) ==> (value.units() < low.units()
            ==> state.pushed(id, value).rows == state.rows),
        state.band.spec_upper() matches Bound::Finite(high) ==> (high.units() <= value.units()
            ==> state.pushed(id, value).rows == state.rows),
{
    law_exponent_field_decides(value);
    law_band_holds_an_interval(state.band, value);
}

/// What giving a row up does, field by field: it adds one to both counts and
/// leaves the rows, the band and the cutoff.
pub proof fn law_abandonment_by_field(state: RangeState)
    ensures
        state.abandoned().scanned == state.scanned + 1,
        state.abandoned().early_abandoned == state.early_abandoned + 1,
        state.abandoned().rows == state.rows,
        state.abandoned().band == state.band,
        state.abandoned().cutoff == state.cutoff,
{
}

/// In a consistent state the kept rows and the rows given up are among the
/// scanned ones, and every kept row has a finite distance between the cuts.
pub proof fn law_consistent_state_by_field(state: RangeState, i: int)
    requires
        state.consistent(),
    ensures
        state.rows.len() + state.early_abandoned <= state.scanned,
        0 <= i < state.rows.len() ==> {
            &&& (state.rows[i].1.bits / 0x80_0000) % 0x100 != 0xff
            &&& state.band.spec_lower() matches Bound::Finite(low) ==> low.units()
                <= state.rows[i].1.units()
            &&& state.band.spec_upper() matches Bound::Finite(high) ==> state.rows[i].1.units()
                < high.units()
        },
{
    law_exponent_field_decides(state.rows[i].1);
    law_band_holds_an_interval(state.band, state.rows[i].1);
}

/// Collects the rows falling inside a band. It neither sorts nor truncates:
/// ordering is the caller's business.
pub struct RangeCollector {
    band: DistanceBand,
    /// Constant for a band and a dimension, while [`Collector::cutoff`] is
    /// called once per row, so it is derived once, when the collector is made.
    cutoff: Single,
    rows: Vec<(i64, Single)>,
    scanned: usize,
    early_abandoned: usize,
}

impl View for RangeCollector {
    type V = RangeState;

    closed spec fn view(&self) -> RangeState {
        RangeState {
            band: self.band,
            cutoff: self.cutoff,
            rows: self.rows@,
            scanned: self.scanned as nat,
            early_abandoned: self.early_abandoned as nat,
        }
    }
}

impl RangeCollector {
    #[verifier::type_invariant]
    spec fn inv(self) -> bool {
        self@.consistent()
    }

    /// A collector for the rows of `band`, at vectors of the given dimension.
    pub fn new(band: DistanceBand, dimension: usize) -> (collector: RangeCollector)
        ensures
            collector@ == RangeState::empty(band, dimension as nat),
            collector@.consistent(),
            collector@.band == band,
            collector@.cutoff == threshold(band, dimension as nat),
            collector@.rows.len() == 0,
            collector@.scanned == 0,
            collector@.early_abandoned == 0,
            collector.room() == usize::MAX,
    {
        proof {
            use_type_invariant(&band);
        }
        RangeCollector {
            cutoff: early_abandon_threshold(band, dimension),
            band,
            rows: Vec::new(),
            scanned: 0,
            early_abandoned: 0,
        }
    }

    /// Rows read and at least partially evaluated, among them the rows given up
    /// early.
    pub fn scanned(&self) -> (n: usize)
        ensures
            n == self@.scanned,
            self@.consistent(),
    {
        proof {
            use_type_invariant(self);
        }
        self.scanned
    }

    /// Rows given up early.
    pub fn early_abandoned(&self) -> (n: usize)
        ensures
            n == self@.early_abandoned,
            self@.consistent(),
    {
        proof {
            use_type_invariant(self);
        }
        self.early_abandoned
    }

    /// The rows kept, in the order in which they were delivered.
    pub fn into_rows(self) -> (rows: Vec<(i64, Single)>)
        ensures
            rows@ == self@.rows,
            self@.consistent(),
    {
        proof {
            use_type_invariant(&self);
        }
        self.rows
    }
}

impl Collector for RangeCollector {
    /// How far the counter of scanned rows can still grow.
    open spec fn room(&self) -> nat {
        (usize::MAX - self@.scanned) as nat
    }

    fn note_abandoned(&mut self)
        ensures
            final(self)@ == old(self)@.abandoned(),
            final(self)@.scanned == old(self)@.scanned + 1,
            final(self)@.early_abandoned == old(self)@.early_abandoned + 1,
            final(self)@.rows == old(self)@.rows,
            final(self)@.band == old(self)@.band,
            final(self)@.cutoff == old(self)@.cutoff,
            final(self).room() + 1 == old(self).room(),
    {
        proof {
            use_type_invariant(&*self);
        }
        self.scanned = self.scanned + 1;
        self.early_abandoned = self.early_abandoned + 1;
    }

    fn cutoff(&self) -> (c: Single)
        ensures
            c == self@.cutoff,
            !c.nan(),
    {
        proof {
            use_type_invariant(self);
        }
        self.cutoff
    }

    /// A value that is not finite is an error, whatever the band: under inner
    /// product a negative infinity means "extremely similar", so dropping it
    /// silently would erase a row that should have matched. The row is counted
    /// all the same.
    fn push(&mut self, id: i64, value: Single) -> (outcome: Result<(), Error>)
        ensures
            final(self)@ == old(self)@.pushed(id, value),
            outcome is Ok <==> value.finite(),
            outcome matches Err(e) ==> e.kind == ErrorKind::InvalidData && e.message@
                == non_finite_message(id as int, value),
            outcome is Ok <==> (value.bits / 0x80_0000) % 0x100 != 0xff,
            final(self)@.scanned == old(self)@.scanned + 1,
            final(self)@.early_abandoned == old(self)@.early_abandoned,
            final(self)@.band == old(self)@.band,
            final(self)@.cutoff == old(self)@.cutoff,
            final(self).room() + 1 == old(self).room(),
            ({
                &&& outcome is Ok
                &&& old(self)@.band.spec_lower() matches Bound::Finite(low) ==> low.units()
                    <= value.units()
                &&& old(self)@.band.spec_upper() matches Bound::Finite(high) ==> value.units()
                    < high.units()
            }) ==> final(self)@.rows == old(self)@.rows.push((id, value)),
            outcome is Err ==> final(self)@.rows == old(self)@.rows,
            old(self)@.band.spec_lower() matches Bound::Finite(low) ==> (value.units()
                < low.units() ==> final(self)@.rows == old(self)@.rows),
            old(self)@.band.spec_upper() matches Bound::Finite(high) ==> (high.units()
                <= value.units() ==> final(self)@.rows == old(self)@.rows),
    {
        proof {
            use_type_invariant(&*self);
        }
        proof {
            law_delivery_by_field(self@, id, value);
        }
        self.scanned = self.scanned + 1;
        if !value.is_finite() {
            return Err(Error::non_finite(id, value));
        }
        if self.band.admits(value) {
            // The rows are taken out while they grow, so that the collector is
            // consistent throughout.
            let mut rows: Vec<(i64, Single)> = Vec::new();
            std::mem::swap(&mut rows, &mut self.rows);
            rows.push((id, value));
            self.rows = rows;
        }
        Ok(())
    }
}

} // verus!
