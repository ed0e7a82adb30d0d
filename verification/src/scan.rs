//! What a whole scan leaves behind in a range collector.
use crate::band::{law_band_holds_an_interval, Bound, DistanceBand};
use crate::collect::RangeState;
use crate::margin::{exceeds, law_row_below_cut_is_not_abandoned, within_error_model};
use crate::single::{law_exponent_field_decides, Single};
use vstd::prelude::*;

verus! {

/// The rows with a finite distance in the band, in their order.
pub open spec fn kept(band: DistanceBand, rows: Seq<(i64, Single)>) -> Seq<(i64, Single)> {
    rows.filter(|row: (i64, Single)| row.1.finite() && band.holds(row.1))
}

/// The state after all of `rows` have been delivered, in their order.
pub open spec fn delivered(state: RangeState, rows: Seq<(i64, Single)>) -> RangeState
    decreases rows.len(),
{
    if rows.len() == 0 {
        state
    } else {
        delivered(state, rows.drop_last()).pushed(rows.last().0, rows.last().1)
    }
}

/// One call that a kernel makes on a collector.
pub enum Event {
    /// A row delivered with its committed distance.
    Delivered(i64, Single),
    /// A row given up early.
    Abandoned,
}

/// The state after one call.
pub open spec fn after_event(state: RangeState, event: Event) -> RangeState {
    match event {
        Event::Delivered(id, value) => state.pushed(id, value),
        Event::Abandoned => state.abandoned(),
    }
}

/// The state after a history of calls, in their order.
pub open spec fn after_history(state: RangeState, history: Seq<Event>) -> RangeState
    decreases history.len(),
{
    if history.len() == 0 {
        state
    } else {
        after_event(after_history(state, history.drop_last()), history.last())
    }
}

/// The rows that a history delivers, in their order.
pub open spec fn deliveries(history: Seq<Event>) -> Seq<(i64, Single)>
    decreases history.len(),
{
    if history.len() == 0 {
        Seq::empty()
    } else {
        match history.last() {
            Event::Delivered(id, value) => deliveries(history.drop_last()).push((id, value)),
            Event::Abandoned => deliveries(history.drop_last()),
        }
    }
}

/// How many rows a history gives up.
pub open spec fn abandonments(history: Seq<Event>) -> nat {
    history.filter(|event: Event| event is Abandoned).len()
}

/// A row as a scan that prunes meets it.
pub struct Candidate {
    pub id: i64,
    /// The pruning kernel's partial sum, in units of 2^-149.
    pub partial: int,
    /// The committed distance.
    pub value: Single,
}

impl Candidate {
    /// The two kernels err within the model on this row.
    pub open spec fn within_model(self, dimension: nat) -> bool {
        exists|exact: int, scale: nat|
            within_error_model(self.partial, self.value.units(), exact, scale, dimension)
    }
}

/// The state after a pruning scan has met one row: given up where the partial
/// sum exceeds the cutoff, delivered otherwise.
pub open spec fn met(state: RangeState, candidate: Candidate) -> RangeState {
    if exceeds(candidate.partial, state.cutoff) {
        state.abandoned()
    } else {
        state.pushed(candidate.id, candidate.value)
    }
}

/// The state after a pruning scan has met all of `candidates`, in their order.
pub open spec fn pruned_scan(state: RangeState, candidates: Seq<Candidate>) -> RangeState
    decreases candidates.len(),
{
    if candidates.len() == 0 {
        state
    } else {
        met(pruned_scan(state, candidates.drop_last()), candidates.last())
    }
}

/// The rows of a scan with their committed distances.
pub open spec fn committed(candidates: Seq<Candidate>) -> Seq<(i64, Single)> {
    candidates.map_values(|c: Candidate| (c.id, c.value))
}

/// The rows that a scan with this cutoff gives up.
pub open spec fn given_up(cutoff: Single, candidates: Seq<Candidate>) -> Seq<Candidate> {
    candidates.filter(|c: Candidate| exceeds(c.partial, cutoff))
}

/// The rows that a scan with this cutoff delivers.
pub open spec fn reached(cutoff: Single, candidates: Seq<Candidate>) -> Seq<Candidate> {
    candidates.filter(|c: Candidate| !exceeds(c.partial, cutoff))
}

/// Which rows a band keeps, row by row: of one more row at the end, that row is
/// kept exactly when its distance is finite, worth at least the lower cut, where
/// there is one, and less than the upper cut, where there is one.
pub proof fn law_rows_are_kept_one_by_one(
    band: DistanceBand,
    rows: Seq<(i64, Single)>,
    row: (i64, Single),
)
    ensures
        kept(band, Seq::empty()).len() == 0,
        ({
            &&& (row.1.bits / 0x80_0000) % 0x100 != 0xff
            &&& band.spec_lower() matches Bound::Finite(low) ==> low.units() <= row.1.units()
            &&& band.spec_upper() matches Bound::Finite(high) ==> row.1.units() < high.units()
        }) ==> kept(band, rows.push(row)) == kept(band, rows).push(row),
        (row.1.bits / 0x80_0000) % 0x100 == 0xff ==> kept(band, rows.push(row)) == kept(
            band,
            rows,
        ),
        band.spec_lower() matches Bound::Finite(low) ==> (row.1.units() < low.units() ==> kept(
            band,
            rows.push(row),
        ) == kept(band, rows)),
        band.spec_upper() matches Bound::Finite(high) ==> (high.units() <= row.1.units() ==> kept(
            band,
            rows.push(row),
        ) == kept(band, rows)),
{
    reveal(Seq::filter);
    law_exponent_field_decides(row.1);
    law_band_holds_an_interval(band, row.1);
    assert(rows.push(row).drop_last() =~= rows);
}

/// When a pruning scan gives a row up: where the cutoff is finite and the partial
/// sum above it. Every other row is delivered, at an infinite cutoff all of them.
pub proof fn law_row_is_given_up_above_the_cutoff(state: RangeState, candidate: Candidate)
    requires
        state.cutoff.bits <= 0x7f80_0000,
    ensures
        state.cutoff.bits < 0x7f80_0000 && candidate.partial > state.cutoff.units() ==> met(
            state,
            candidate,
        ) == state.abandoned(),
        state.cutoff.bits == 0x7f80_0000 || candidate.partial <= state.cutoff.units() ==> met(
            state,
            candidate,
        ) == state.pushed(candidate.id, candidate.value),
{
}

/// Delivering rows keeps exactly those in the band, in their order, and counts
/// every one as scanned; nothing else changes.
pub proof fn law_delivery_keeps_the_band(state: RangeState, rows: Seq<(i64, Single)>)
    ensures
        delivered(state, rows).rows == state.rows + kept(state.band, rows),
        delivered(state, rows).scanned == state.scanned + rows.len(),
        delivered(state, rows).early_abandoned == state.early_abandoned,
        delivered(state, rows).band == state.band,
        delivered(state, rows).cutoff == state.cutoff,
    decreases rows.len(),
{
    reveal(Seq::filter);
    if rows.len() > 0 {
        law_delivery_keeps_the_band(state, rows.drop_last());
        let before = kept(state.band, rows.drop_last());
        if state.keeps(rows.last().1) {
            assert(kept(state.band, rows) == before.push(rows.last()));
            assert((state.rows + before).push(rows.last()) =~= state.rows + before.push(
                rows.last(),
            ));
        } else {
            assert(kept(state.band, rows) == before);
        }
    } else {
        assert(kept(state.band, rows) =~= Seq::<(i64, Single)>::empty());
        assert(state.rows + kept(state.band, rows) =~= state.rows);
    }
}

/// A list delivered in chunks leaves what the list delivered at once leaves.
pub proof fn law_delivery_in_chunks(
    state: RangeState,
    first: Seq<(i64, Single)>,
    second: Seq<(i64, Single)>,
)
    ensures
        delivered(delivered(state, first), second) == delivered(state, first + second),
    decreases second.len(),
{
    if second.len() > 0 {
        law_delivery_in_chunks(state, first, second.drop_last());
        assert((first + second).drop_last() =~= first + second.drop_last());
        assert((first + second).last() == second.last());
    } else {
        assert(first + second =~= first);
    }
}

/// What any history of deliveries and abandonments leaves, however the two are
/// interleaved and whatever the cutoff: of the delivered rows those in the band,
/// in their order; every call counted as scanned, every abandonment as abandoned.
pub proof fn law_history_keeps_the_band(state: RangeState, history: Seq<Event>)
    ensures
        after_history(state, history).rows == state.rows + kept(state.band, deliveries(history)),
        after_history(state, history).scanned == state.scanned + history.len(),
        after_history(state, history).early_abandoned == state.early_abandoned + abandonments(
            history,
        ),
        after_history(state, history).band == state.band,
        after_history(state, history).cutoff == state.cutoff,
        deliveries(history).len() + abandonments(history) == history.len(),
    decreases history.len(),
{
    reveal(Seq::filter);
    if history.len() > 0 {
        let rest = history.drop_last();
        law_history_keeps_the_band(state, rest);
        let before = deliveries(rest);
        let old_rows = kept(state.band, before);
        match history.last() {
            Event::Delivered(id, value) => {
                let row = (id, value);
                assert(before.push(row).drop_last() =~= before);
                assert((state.rows + old_rows).push(row) =~= state.rows + old_rows.push(row));
            },
            Event::Abandoned => {},
        }
    } else {
        assert(state.rows + Seq::<(i64, Single)>::empty() =~= state.rows);
    }
}

/// A history cut in two leaves what the whole leaves.
pub proof fn law_history_in_chunks(state: RangeState, first: Seq<Event>, second: Seq<Event>)
    ensures
        after_history(after_history(state, first), second) == after_history(
            state,
            first + second,
        ),
    decreases second.len(),
{
    if second.len() > 0 {
        law_history_in_chunks(state, first, second.drop_last());
        assert((first + second).drop_last() =~= first + second.drop_last());
        assert((first + second).last() == second.last());
    } else {
        assert(first + second =~= first);
    }
}

/// The deliveries of a history are those of its parts.
proof fn lemma_deliveries_of_both(first: Seq<Event>, second: Seq<Event>)
    ensures
        deliveries(first + second) == deliveries(first) + deliveries(second),
    decreases second.len(),
{
    if second.len() > 0 {
        lemma_deliveries_of_both(first, second.drop_last());
        assert((first + second).drop_last() =~= first + second.drop_last());
        assert((first + second).last() == second.last());
    } else {
        assert(first + second =~= first);
    }
}

/// Two collectors that each see one part of a history keep together what one
/// collector that sees the whole keeps, and their counts add up to its counts.
pub proof fn law_histories_merge(
    band: DistanceBand,
    dimension: nat,
    first: Seq<Event>,
    second: Seq<Event>,
)
    ensures
        ({
            let fresh = RangeState::empty(band, dimension);
            let one = after_history(fresh, first);
            let two = after_history(fresh, second);
            let both = after_history(fresh, first + second);
            &&& both.rows == one.rows + two.rows
            &&& both.scanned == one.scanned + two.scanned
            &&& both.early_abandoned == one.early_abandoned + two.early_abandoned
        }),
{
    let fresh = RangeState::empty(band, dimension);
    law_history_keeps_the_band(fresh, first);
    law_history_keeps_the_band(fresh, second);
    law_history_keeps_the_band(fresh, first + second);
    lemma_deliveries_of_both(first, second);
    Seq::filter_distributes_over_add(first, second, |event: Event| event is Abandoned);
    let pred = |row: (i64, Single)| row.1.finite() && band.holds(row.1);
    Seq::filter_distributes_over_add(deliveries(first), deliveries(second), pred);
}

/// Every history keeps a consistent state consistent.
pub proof fn law_history_keeps_consistency(state: RangeState, history: Seq<Event>)
    requires
        state.consistent(),
    ensures
        after_history(state, history).consistent(),
    decreases history.len(),
{
    if history.len() > 0 {
        law_history_keeps_consistency(state, history.drop_last());
    }
}

/// What a pruning scan leaves, whatever the partial sums are: of the rows it
/// delivers, those in the band are kept, in their order; every row it meets is
/// counted as scanned, and every row it gives up as abandoned.
pub proof fn law_scan_counts_every_row(state: RangeState, candidates: Seq<Candidate>)
    ensures
        pruned_scan(state, candidates).rows == state.rows + kept(
            state.band,
            committed(reached(state.cutoff, candidates)),
        ),
        pruned_scan(state, candidates).scanned == state.scanned + candidates.len(),
        pruned_scan(state, candidates).early_abandoned == state.early_abandoned + given_up(
            state.cutoff,
            candidates,
        ).len(),
        pruned_scan(state, candidates).band == state.band,
        pruned_scan(state, candidates).cutoff == state.cutoff,
        reached(state.cutoff, candidates).len() + given_up(state.cutoff, candidates).len()
            == candidates.len(),
    decreases candidates.len(),
{
    reveal(Seq::filter);
    if candidates.len() > 0 {
        let rest = candidates.drop_last();
        let last = candidates.last();
        law_scan_counts_every_row(state, rest);
        let before = reached(state.cutoff, rest);
        if !exceeds(last.partial, state.cutoff) {
            let row = (last.id, last.value);
            assert(committed(before.push(last)) =~= committed(before).push(row));
            assert(committed(before).push(row).drop_last() =~= committed(before));
            let old_rows = kept(state.band, committed(before));
            assert((state.rows + old_rows).push(row) =~= state.rows + old_rows.push(row));
        }
    } else {
        assert(committed(reached(state.cutoff, candidates)) =~= Seq::<(i64, Single)>::empty());
        assert(state.rows + Seq::<(i64, Single)>::empty() =~= state.rows);
    }
}

/// A list scanned in chunks leaves what the list scanned at once leaves, with
/// pruning as without.
pub proof fn law_scan_in_chunks(
    state: RangeState,
    first: Seq<Candidate>,
    second: Seq<Candidate>,
)
    ensures
        pruned_scan(pruned_scan(state, first), second) == pruned_scan(state, first + second),
    decreases second.len(),
{
    if second.len() > 0 {
        law_scan_in_chunks(state, first, second.drop_last());
        assert((first + second).drop_last() =~= first + second.drop_last());
        assert((first + second).last() == second.last());
    } else {
        assert(first + second =~= first);
    }
}

/// Two collectors over two lists keep together what one collector over both
/// keeps, and their counts add up to its counts.
pub proof fn law_collectors_merge(
    band: DistanceBand,
    dimension: nat,
    first: Seq<(i64, Single)>,
    second: Seq<(i64, Single)>,
)
    ensures
        ({
            let fresh = RangeState::empty(band, dimension);
            let one = delivered(fresh, first);
            let two = delivered(fresh, second);
            let both = delivered(fresh, first + second);
            &&& both.rows == one.rows + two.rows
            &&& both.scanned == one.scanned + two.scanned
            &&& both.early_abandoned == one.early_abandoned + two.early_abandoned
        }),
{
    let fresh = RangeState::empty(band, dimension);
    law_delivery_keeps_the_band(fresh, first);
    law_delivery_keeps_the_band(fresh, second);
    law_delivery_keeps_the_band(fresh, first + second);
    let pred = |row: (i64, Single)| row.1.finite() && band.holds(row.1);
    Seq::filter_distributes_over_add(first, second, pred);
}

/// Two pruning scans over two lists keep together what one scan over both keeps,
/// and their counts of scanned and of abandoned rows add up to its counts,
/// whatever the partial sums are.
pub proof fn law_scans_merge(
    band: DistanceBand,
    dimension: nat,
    first: Seq<Candidate>,
    second: Seq<Candidate>,
)
    ensures
        ({
            let fresh = RangeState::empty(band, dimension);
            let one = pruned_scan(fresh, first);
            let two = pruned_scan(fresh, second);
            let both = pruned_scan(fresh, first + second);
            &&& both.rows == one.rows + two.rows
            &&& both.scanned == one.scanned + two.scanned
            &&& both.early_abandoned == one.early_abandoned + two.early_abandoned
        }),
{
    let fresh = RangeState::empty(band, dimension);
    let cutoff = fresh.cutoff;
    law_scan_counts_every_row(fresh, first);
    law_scan_counts_every_row(fresh, second);
    law_scan_counts_every_row(fresh, first + second);
    Seq::filter_distributes_over_add(first, second, |c: Candidate| exceeds(c.partial, cutoff));
    Seq::filter_distributes_over_add(first, second, |c: Candidate| !exceeds(c.partial, cutoff));
    let one = committed(reached(cutoff, first));
    let two = committed(reached(cutoff, second));
    assert(committed(reached(cutoff, first + second)) =~= one + two);
    let pred = |row: (i64, Single)| row.1.finite() && band.holds(row.1);
    Seq::filter_distributes_over_add(one, two, pred);
}

/// Delivered and abandoned rows keep the state consistent: every kept or
/// abandoned row stays counted as scanned, and only the band's rows are kept.
pub proof fn law_consistency_is_kept(state: RangeState, id: i64, value: Single)
    requires
        state.consistent(),
    ensures
        state.pushed(id, value).consistent(),
        state.abandoned().consistent(),
{
}

/// Giving rows up early changes only the work, never the rows that come back:
/// where the two kernels err within the model, a scan that prunes keeps the rows
/// that a scan without pruning keeps, and counts as many as scanned.
pub proof fn law_pruning_keeps_every_row(
    band: DistanceBand,
    dimension: nat,
    candidates: Seq<Candidate>,
)
    requires
        band.valid(),
        forall|i: int|
            0 <= i < candidates.len() ==> (#[trigger] candidates[i]).within_model(dimension),
    ensures
        ({
            let fresh = RangeState::empty(band, dimension);
            let pruning = pruned_scan(fresh, candidates);
            let full = delivered(fresh, committed(candidates));
            &&& pruning.rows == full.rows
            &&& pruning.scanned == full.scanned
        }),
    decreases candidates.len(),
{
    let fresh = RangeState::empty(band, dimension);
    law_delivery_keeps_the_band(fresh, committed(candidates));
    law_scan_counts_every_row(fresh, candidates);
    if candidates.len() > 0 {
        let rest = candidates.drop_last();
        let last = candidates.last();
        law_pruning_keeps_every_row(band, dimension, rest);
        assert(committed(candidates).drop_last() =~= committed(rest));
        assert(committed(candidates).last() == (last.id, last.value));
        law_delivery_keeps_the_band(fresh, committed(rest));
        law_scan_counts_every_row(fresh, rest);
        if band.holds(last.value) {
            assert(last == candidates[candidates.len() - 1]);
            let (exact, scale) = choose|exact: int, scale: nat|
                within_error_model(last.partial, last.value.units(), exact, scale, dimension);
            law_row_below_cut_is_not_abandoned(
                band,
                dimension,
                last.partial,
                last.value.units(),
                exact,
                scale,
            );
        }
    }
}

/// Filtering a sequence filters its multiset.
proof fn lemma_filter_to_multiset<A>(s: Seq<A>, pred: spec_fn(A) -> bool)
    ensures
        s.filter(pred).to_multiset() =~= s.to_multiset().filter(pred),
    decreases s.len(),
{
    broadcast use vstd::multiset::group_multiset_axioms;

    reveal(Seq::filter);
    if s.len() > 0 {
        let rest = s.drop_last();
        lemma_filter_to_multiset(rest, pred);
        rest.to_multiset_ensures();
        rest.filter(pred).to_multiset_ensures();
        assert(s =~= rest.push(s.last()));
        if pred(s.last()) {
            assert(s.filter(pred) =~= rest.filter(pred).push(s.last()));
        }
    } else {
        assert(s.filter(pred) =~= s);
        s.to_multiset_ensures();
    }
}

/// The order of delivery does not decide which rows are kept, nor how often.
pub proof fn law_order_of_delivery(
    state: RangeState,
    rows: Seq<(i64, Single)>,
    reordered: Seq<(i64, Single)>,
)
    requires
        rows.to_multiset() == reordered.to_multiset(),
    ensures
        delivered(state, rows).rows.to_multiset() == delivered(
            state,
            reordered,
        ).rows.to_multiset(),
        delivered(state, rows).scanned == delivered(state, reordered).scanned,
{
    let pred = |row: (i64, Single)| row.1.finite() && state.band.holds(row.1);
    lemma_filter_to_multiset(rows, pred);
    lemma_filter_to_multiset(reordered, pred);
    law_delivery_keeps_the_band(state, rows);
    law_delivery_keeps_the_band(state, reordered);
    rows.to_multiset_ensures();
    reordered.to_multiset_ensures();
    vstd::seq_lib::lemma_multiset_commutative(state.rows, kept(state.band, rows));
    vstd::seq_lib::lemma_multiset_commutative(state.rows, kept(state.band, reordered));
}

/// Filtering the rows before delivery leaves what filtering the kept rows
/// leaves.
pub proof fn law_filter_before_or_after(
    band: DistanceBand,
    rows: Seq<(i64, Single)>,
    allowed: spec_fn((i64, Single)) -> bool,
)
    ensures
        kept(band, rows.filter(allowed)) == kept(band, rows).filter(allowed),
    decreases rows.len(),
{
    reveal(Seq::filter);
    let pred = |row: (i64, Single)| row.1.finite() && band.holds(row.1);
    if rows.len() > 0 {
        let rest = rows.drop_last();
        law_filter_before_or_after(band, rest, allowed);
        let last = rows.last();
        let inner = rest.filter(allowed);
        let outer = rest.filter(pred);
        assert(inner.push(last).drop_last() =~= inner);
        assert(outer.push(last).drop_last() =~= outer);
    }
}

/// A band cut in two at any distance loses no row and doubles none: its rows are
/// those of the part below the cut together with those of the part from the cut
/// up. A row exactly on the cut belongs to the upper part.
pub proof fn law_band_splits(
    whole: DistanceBand,
    below: DistanceBand,
    above: DistanceBand,
    cut: Single,
    rows: Seq<(i64, Single)>,
)
    requires
        whole.valid(),
        below.valid(),
        above.valid(),
        below.spec_lower() == whole.spec_lower(),
        below.spec_upper() == Bound::Finite(cut),
        above.spec_lower() == Bound::Finite(cut),
        above.spec_upper() == whole.spec_upper(),
    ensures
        kept(whole, rows).to_multiset() == kept(below, rows).to_multiset().add(
            kept(above, rows).to_multiset(),
        ),
        forall|value: Single|
            value.finite() ==> (#[trigger] whole.holds(value) <==> below.holds(value)
                || above.holds(value)),
        forall|value: Single| !(#[trigger] below.holds(value) && above.holds(value)),
        forall|value: Single|
            value.finite() && value.units() == cut.units() ==> !#[trigger] below.holds(value),
{
    broadcast use vstd::multiset::group_multiset_axioms;

    let w = |row: (i64, Single)| row.1.finite() && whole.holds(row.1);
    let b = |row: (i64, Single)| row.1.finite() && below.holds(row.1);
    let a = |row: (i64, Single)| row.1.finite() && above.holds(row.1);
    lemma_filter_to_multiset(rows, w);
    lemma_filter_to_multiset(rows, b);
    lemma_filter_to_multiset(rows, a);
    let all = rows.to_multiset();
    assert(all.filter(w) =~= all.filter(b).add(all.filter(a))) by {
        assert forall|row: (i64, Single)|
            all.filter(w).count(row) == #[trigger] all.filter(b).add(all.filter(a)).count(row) by {
            assert(w(row) <==> b(row) || a(row));
            assert(!(b(row) && a(row)));
        }
    }
}

/// A band whose cuts are equal keeps no row.
pub proof fn law_equal_cuts_keep_nothing(
    band: DistanceBand,
    low: Single,
    high: Single,
    rows: Seq<(i64, Single)>,
)
    requires
        band.spec_lower() == Bound::Finite(low),
        band.spec_upper() == Bound::Finite(high),
        low.units() == high.units(),
    ensures
        kept(band, rows) == Seq::<(i64, Single)>::empty(),
{
    let pred = |row: (i64, Single)| row.1.finite() && band.holds(row.1);
    rows.lemma_all_neg_filter_empty(pred);
    assert(kept(band, rows) =~= Seq::<(i64, Single)>::empty());
}

/// A band without cuts keeps every row that has a finite distance.
pub proof fn law_no_cuts_keep_everything(band: DistanceBand, rows: Seq<(i64, Single)>)
    requires
        band.spec_lower() == Bound::Unbounded,
        band.spec_upper() == Bound::Unbounded,
        forall|i: int| 0 <= i < rows.len() ==> (#[trigger] rows[i]).1.finite(),
    ensures
        kept(band, rows) == rows,
    decreases rows.len(),
{
    reveal(Seq::filter);
    if rows.len() > 0 {
        assert(rows.last() == rows[rows.len() - 1]);
        law_no_cuts_keep_everything(band, rows.drop_last());
        assert(rows.drop_last().push(rows.last()) =~= rows);
    } else {
        assert(kept(band, rows) =~= rows);
    }
}

} // verus!
