//! The collector as a scan kernel uses it, with distances given as floats.
use vindex_collect::band::{BandError, Bound, DistanceBand, MetricType};
use vindex_collect::collect::{Collector, RangeCollector};
use vindex_collect::error::ErrorKind;
use vindex_collect::single::Single;

fn single(x: f32) -> Single {
    Single::from_bits(x.to_bits())
}

fn float(x: Single) -> f32 {
    f32::from_bits(x.to_bits())
}

fn finite(x: f32) -> Bound {
    Bound::Finite(single(x))
}

fn l2_band(lower: f32, upper: f32) -> DistanceBand {
    DistanceBand::new(finite(lower), finite(upper), MetricType::L2).unwrap()
}

fn rows_of(collector: RangeCollector) -> Vec<(i64, f32)> {
    collector
        .into_rows()
        .into_iter()
        .map(|(id, value)| (id, float(value)))
        .collect()
}

fn collect(band: DistanceBand, rows: &[(i64, f32)]) -> Vec<(i64, f32)> {
    let mut collector = RangeCollector::new(band, TEST_D);
    for &(id, value) in rows {
        collector.push(id, single(value)).unwrap();
    }
    rows_of(collector)
}

/// A dimension below 128, where the two L2 kernels happen to agree exactly,
/// so the widening margin is negligible but still exercised.
const TEST_D: usize = 16;

#[test]
fn a_range_collector_keeps_only_in_band_rows() {
    let mut collector = RangeCollector::new(l2_band(1.0, 3.0), TEST_D);
    collector.push(10, single(0.5)).unwrap();
    collector.push(11, single(1.0)).unwrap();
    collector.push(12, single(2.9)).unwrap();
    collector.push(13, single(3.0)).unwrap();
    assert_eq!(rows_of(collector), vec![(11, 1.0), (12, 2.9)]);
}

#[test]
fn an_exact_l2_collector_reports_a_cutoff_at_or_above_the_upper_cut() {
    // A partial sum above `upper` implies that the full distance is above
    // `upper`, but only up to the divergence between the two kernels, so the
    // reported cutoff is widened.
    let cutoff = float(RangeCollector::new(l2_band(1.0, 3.0), TEST_D).cutoff());
    assert!(
        cutoff >= 3.0,
        "the cutoff must never be below the upper cut, or in-band rows are dropped"
    );
    assert!(
        cutoff <= 3.0 * (1.0 + 1e-4),
        "the widening margin must stay negligible, got {cutoff}"
    );
}

#[test]
fn the_widening_margin_dominates_the_summation_error_bound() {
    // Sweep several binades: the claim is about arbitrary normal cuts, and
    // fixing one value would leave the final rounding untested.
    for upper in [f32::MIN_POSITIVE, 1.0e-20, 0.5, 1.0, 3.0, 1.0e6, 1.0e30] {
        for d in [
            1usize,
            2,
            64,
            128,
            768,
            4095,
            4096,
            8192,
            65536,
            1 << 20,
            1 << 21,
            (1 << 22) - 1,
        ] {
            let cutoff = float(RangeCollector::new(l2_band(0.0, upper), d).cutoff());
            let x = d as f64 * f64::from(f32::EPSILON);
            //   P <= (1+g)S + A,  C >= (1-g)S - A,  C < upper
            //   => S < (upper + A)/(1-g)
            //   => P < R*upper + (R+1)*A,   R = 1/(1-x)
            let r = 1.0 / (1.0 - x);
            let a = 2.0 * d as f64 * f64::powi(2.0, -150);
            let needed_absolute = r * f64::from(upper) + (r + 1.0) * a;
            // Every pair here is inside both guards, so a non-finite cutoff is
            // a defect rather than a guard firing.
            assert!(
                cutoff.is_finite(),
                "d={d} upper={upper:e}: expected a finite cutoff inside both guards"
            );
            assert!(
                f64::from(cutoff) >= needed_absolute,
                "d={d} upper={upper:e}: threshold {cutoff:e} is below the joint \
                 relative-plus-additive requirement {needed_absolute:e}"
            );
        }
    }
}

#[test]
fn the_margin_declines_to_prune_outside_its_conservative_domain() {
    // `R = 1/(1 - x)` stays defined to `x = 1`, so this cap is conservative
    // rather than forced. Refusing beyond it costs pruning and nothing else.
    let huge = 1usize << 22; // d * EPSILON == 0.5 exactly
    assert_eq!(
        float(RangeCollector::new(l2_band(0.0, 3.0), huge).cutoff()),
        f32::INFINITY,
        "the guard must trip once d * EPSILON reaches 0.5"
    );
    assert!(
        float(RangeCollector::new(l2_band(0.0, 3.0), huge - 1).cutoff()).is_finite(),
        "just inside the guard a finite margin is still produced"
    );

    // Subnormal cuts: the relative-error model does not survive gradual
    // underflow.
    let subnormal = f32::from_bits(1);
    let band = DistanceBand::new(finite(0.0), finite(subnormal), MetricType::L2).unwrap();
    assert_eq!(
        float(RangeCollector::new(band, 768).cutoff()),
        f32::INFINITY,
        "a subnormal upper cut must not prune"
    );
}

#[test]
fn the_widening_margin_grows_with_dimension() {
    // The divergence between the two kernels grows with d.
    let narrow = float(RangeCollector::new(l2_band(0.0, 3.0), 16).cutoff());
    let wide = float(RangeCollector::new(l2_band(0.0, 3.0), 768).cutoff());
    assert!(
        wide > narrow,
        "a larger d must widen the margin: {narrow} vs {wide}"
    );
    assert!(wide >= 3.0 && narrow >= 3.0);
}

#[test]
fn an_unbounded_upper_reports_no_cutoff() {
    let band = DistanceBand::new(finite(1.0), Bound::Unbounded, MetricType::L2).unwrap();
    assert_eq!(
        float(RangeCollector::new(band, TEST_D).cutoff()),
        f32::INFINITY
    );
}

#[test]
fn an_uncertified_metric_never_prunes_on_a_partial_sum() {
    // A partial cosine or inner-product accumulation does not bound the full
    // value, so the cutoff must stay infinite no matter what the band says.
    for metric in [MetricType::Cosine, MetricType::InnerProduct] {
        let band = DistanceBand::new(finite(0.1), finite(0.5), metric).unwrap();
        assert_eq!(
            float(RangeCollector::new(band, TEST_D).cutoff()),
            f32::INFINITY,
            "metric {metric:?} must not expose a finite cutoff"
        );
    }
}

#[test]
fn the_collector_rejects_a_non_finite_computed_value() {
    // Fail loud on every family: under inner product -inf means "extremely
    // similar", so dropping it silently would erase a row that should have
    // matched.
    let mut collector = RangeCollector::new(l2_band(0.0, 10.0), TEST_D);
    assert!(collector.push(1, single(f32::NAN)).is_err());
    assert!(collector.push(2, single(f32::INFINITY)).is_err());
}

#[test]
fn early_abandoned_rows_are_counted_as_scanned() {
    // "Scanned" means read and at least partially evaluated. Rows given up
    // early never reach push, so the scan kernel has to report them.
    let mut collector = RangeCollector::new(l2_band(1.0, 2.0), TEST_D);
    collector.note_abandoned();
    collector.push(1, single(1.5)).unwrap();
    assert_eq!(collector.scanned(), 2);
    assert_eq!(collector.early_abandoned(), 1);
}

#[test]
fn rows_are_counted_even_when_rejected() {
    let mut collector = RangeCollector::new(l2_band(1.0, 2.0), TEST_D);
    collector.push(1, single(0.0)).unwrap();
    collector.push(2, single(1.5)).unwrap();
    assert_eq!(collector.scanned(), 2);
}

#[test]
fn a_non_finite_value_is_reported_with_its_row_and_counted() {
    let mut collector = RangeCollector::new(l2_band(0.0, 10.0), TEST_D);
    let error = collector.push(42, single(f32::NAN)).unwrap_err();
    assert_eq!(error.kind, ErrorKind::InvalidData);
    assert_eq!(error.message, "non-finite distance NaN computed for row 42");
    let error = collector.push(0, single(f32::INFINITY)).unwrap_err();
    assert_eq!(error.message, "non-finite distance inf computed for row 0");
    let error = collector.push(-7, single(f32::NEG_INFINITY)).unwrap_err();
    assert_eq!(error.message, "non-finite distance -inf computed for row -7");
    assert_eq!(collector.scanned(), 3);
    assert_eq!(collector.early_abandoned(), 0);
    assert!(collector.into_rows().is_empty());
}

#[test]
fn the_error_text_is_what_formatting_gives() {
    for id in [0, 9, 10, 1_234_567_890_123, -1, -10, i64::MAX, i64::MIN] {
        for value in [f32::NAN, -f32::NAN, f32::INFINITY, f32::NEG_INFINITY] {
            let mut collector = RangeCollector::new(l2_band(0.0, 1.0), 1);
            let error = collector.push(id, single(value)).unwrap_err();
            assert_eq!(
                error.message,
                format!("non-finite distance {value} computed for row {id}")
            );
        }
    }
}

#[test]
fn a_new_collector_is_empty() {
    let collector = RangeCollector::new(l2_band(0.0, 1.0), TEST_D);
    assert_eq!(collector.scanned(), 0);
    assert_eq!(collector.early_abandoned(), 0);
    assert!(collector.into_rows().is_empty());
}

#[test]
fn rows_stay_in_delivery_order_and_duplicates_stay() {
    let rows = [(5, 2.0), (3, 1.0), (5, 2.0), (4, 9.0), (1, 1.5)];
    assert_eq!(
        collect(l2_band(1.0, 3.0), &rows),
        vec![(5, 2.0), (3, 1.0), (5, 2.0), (1, 1.5)]
    );
}

#[test]
fn a_band_cut_in_two_loses_no_row() {
    let rows = [(1, 0.0), (2, 1.0), (3, 2.0), (4, 2.5), (5, 4.0), (6, 3.9999998)];
    let mut whole = collect(l2_band(0.0, 4.0), &rows);
    let below = collect(l2_band(0.0, 2.0), &rows);
    let above = collect(l2_band(2.0, 4.0), &rows);
    assert_eq!(below, vec![(1, 0.0), (2, 1.0)]);
    assert_eq!(above, vec![(3, 2.0), (4, 2.5), (6, 3.9999998)]);
    let mut parts: Vec<(i64, f32)> = below.into_iter().chain(above).collect();
    whole.sort_by_key(|row| row.0);
    parts.sort_by_key(|row| row.0);
    assert_eq!(whole, parts);
}

#[test]
fn equal_cuts_keep_nothing() {
    let rows = [(1, 0.0), (2, 1.0), (3, 2.0)];
    assert!(collect(l2_band(1.0, 1.0), &rows).is_empty());
    assert!(collect(l2_band(0.0, -0.0), &rows).is_empty());
}

#[test]
fn a_band_without_cuts_keeps_everything() {
    let band = DistanceBand::new(Bound::Unbounded, Bound::Unbounded, MetricType::Cosine).unwrap();
    let rows = [(1, -3.5), (2, 0.0), (3, f32::MAX), (4, f32::MIN)];
    assert_eq!(collect(band, &rows), rows.to_vec());
}

#[test]
fn one_sided_bands_cut_one_side() {
    let from = DistanceBand::new(finite(1.0), Bound::Unbounded, MetricType::L2).unwrap();
    let to = DistanceBand::new(Bound::Unbounded, finite(1.0), MetricType::InnerProduct).unwrap();
    let rows = [(1, -2.0), (2, 1.0), (3, f32::MAX)];
    assert_eq!(collect(from, &rows), vec![(2, 1.0), (3, f32::MAX)]);
    assert_eq!(collect(to, &rows), vec![(1, -2.0)]);
}

#[test]
fn filtering_before_or_after_collection_agrees() {
    let rows: Vec<(i64, f32)> = (0..50).map(|i| (i, (i * 7 % 11) as f32)).collect();
    let band = l2_band(2.0, 8.0);
    let before: Vec<(i64, f32)> = rows.iter().copied().filter(|row| row.0 % 3 == 0).collect();
    let after: Vec<(i64, f32)> = collect(band, &rows)
        .into_iter()
        .filter(|row| row.0 % 3 == 0)
        .collect();
    assert!(!after.is_empty());
    assert_eq!(collect(band, &before), after);
}

#[test]
fn reordered_rows_are_the_same_rows() {
    let rows: Vec<(i64, f32)> = (0..40).map(|i| (i, (i * 5 % 9) as f32)).collect();
    let reordered: Vec<(i64, f32)> = rows.iter().rev().copied().collect();
    let mut one = collect(l2_band(1.0, 6.0), &rows);
    let mut two = collect(l2_band(1.0, 6.0), &reordered);
    one.sort_by_key(|row| row.0);
    two.sort_by_key(|row| row.0);
    assert_eq!(one, two);
}

#[test]
fn chunks_and_separate_collectors_add_up() {
    let rows: Vec<(i64, f32)> = (0..30).map(|i| (i, (i % 7) as f32)).collect();
    let band = l2_band(1.0, 5.0);
    let whole = collect(band, &rows);
    let parts: Vec<(i64, f32)> = collect(band, &rows[..13])
        .into_iter()
        .chain(collect(band, &rows[13..]))
        .collect();
    assert_eq!(whole, parts);
}

#[test]
fn giving_a_row_up_leaves_the_rows_alone() {
    let mut collector = RangeCollector::new(l2_band(1.0, 2.0), TEST_D);
    collector.push(1, single(1.5)).unwrap();
    collector.note_abandoned();
    collector.note_abandoned();
    assert_eq!(collector.scanned(), 3);
    assert_eq!(collector.early_abandoned(), 2);
    assert_eq!(rows_of(collector), vec![(1, 1.5)]);
}

#[test]
fn any_interleaving_of_calls_is_counted() {
    // An uncertified metric reports an infinite cutoff; abandonments count all
    // the same.
    let band = DistanceBand::new(finite(-1.0), finite(1.0), MetricType::InnerProduct).unwrap();
    let mut collector = RangeCollector::new(band, TEST_D);
    collector.note_abandoned();
    collector.push(1, single(0.5)).unwrap();
    collector.push(2, single(1.0)).unwrap();
    collector.note_abandoned();
    assert!(collector.push(3, single(f32::NEG_INFINITY)).is_err());
    collector.push(4, single(-1.0)).unwrap();
    collector.note_abandoned();
    assert_eq!(float(collector.cutoff()), f32::INFINITY);
    assert_eq!(collector.scanned(), 7);
    assert_eq!(collector.early_abandoned(), 3);
    assert_eq!(rows_of(collector), vec![(1, 0.5), (4, -1.0)]);
}

/// A collector that keeps no count and relies on the default.
struct LastRow {
    id: i64,
}

impl Collector for LastRow {
    fn cutoff(&self) -> Single {
        single(f32::INFINITY)
    }

    fn push(&mut self, id: i64, _value: Single) -> Result<(), vindex_collect::error::Error> {
        self.id = id;
        Ok(())
    }
}

#[test]
fn noting_an_abandoned_row_does_nothing_by_default() {
    let mut last = LastRow { id: -1 };
    last.push(8, single(1.0)).unwrap();
    last.note_abandoned();
    assert_eq!(last.id, 8);
    assert_eq!(float(last.cutoff()), f32::INFINITY);
}

/// A scan that gives rows up as soon as the partial sum passes the cutoff.
fn scan(collector: &mut RangeCollector, query: &[f32], vectors: &[Vec<f32>], prune: bool) {
    for (row, vector) in vectors.iter().enumerate() {
        let cutoff = float(collector.cutoff());
        let mut blocks = 0.0f32;
        let mut given_up = false;
        for (q, v) in query.chunks(8).zip(vector.chunks(8)) {
            let block: f32 = q.iter().zip(v).map(|(a, b)| (a - b) * (a - b)).sum();
            blocks += block;
            if prune && blocks > cutoff {
                given_up = true;
                break;
            }
        }
        if given_up {
            collector.note_abandoned();
        } else {
            let distance: f32 = query.iter().zip(vector).map(|(a, b)| (a - b) * (a - b)).sum();
            collector.push(row as i64, single(distance)).unwrap();
        }
    }
}

#[test]
fn pruning_changes_only_the_work() {
    let d = 64;
    let query: Vec<f32> = (0..d).map(|i| (i as f32 * 0.37).sin()).collect();
    let vectors: Vec<Vec<f32>> = (0..200)
        .map(|row| (0..d).map(|i| ((row * d + i) as f32 * 0.73).sin()).collect())
        .collect();
    let mut distances: Vec<f32> = vectors
        .iter()
        .map(|v| query.iter().zip(v).map(|(a, b)| (a - b) * (a - b)).sum())
        .collect();
    distances.sort_by(f32::total_cmp);
    // Cuts one place above a row's own distance, where pruning is tightest.
    for rank in [20, 60, 100, 180] {
        let cut = f32::from_bits(distances[rank].to_bits() + 1);
        let mut pruning = RangeCollector::new(l2_band(0.0, cut), d);
        let mut full = RangeCollector::new(l2_band(0.0, cut), d);
        scan(&mut pruning, &query, &vectors, true);
        scan(&mut full, &query, &vectors, false);
        assert!(pruning.early_abandoned() > 0);
        assert_eq!(pruning.scanned(), full.scanned());
        assert!(pruning.early_abandoned() <= pruning.scanned());
        let kept = rows_of(pruning);
        assert!(kept.len() > rank);
        assert_eq!(kept, rows_of(full));
    }
}

#[test]
fn counts_of_pruned_chunks_add_up() {
    let d = 32;
    let query = vec![0.0f32; d];
    let vectors: Vec<Vec<f32>> = (0..90)
        .map(|row| (0..d).map(|i| ((row * d + i) as f32 * 0.41).sin() * row as f32 * 0.02).collect())
        .collect();
    let band = l2_band(0.5, 6.0);
    let mut whole = RangeCollector::new(band, d);
    scan(&mut whole, &query, &vectors, true);
    assert!(whole.early_abandoned() > 0 && whole.early_abandoned() < whole.scanned());
    // One collector over two chunks.
    let mut chunked = RangeCollector::new(band, d);
    scan(&mut chunked, &query, &vectors[..50], true);
    scan(&mut chunked, &query, &vectors[50..], true);
    assert_eq!(chunked.scanned(), whole.scanned());
    assert_eq!(chunked.early_abandoned(), whole.early_abandoned());
    // Two collectors over one chunk each.
    let mut first = RangeCollector::new(band, d);
    let mut second = RangeCollector::new(band, d);
    scan(&mut first, &query, &vectors[..50], true);
    scan(&mut second, &query, &vectors[50..], true);
    assert_eq!(first.scanned() + second.scanned(), whole.scanned());
    assert_eq!(
        first.early_abandoned() + second.early_abandoned(),
        whole.early_abandoned()
    );
}

#[test]
fn bands_with_bad_cuts_are_refused() {
    for bad in [f32::NAN, f32::INFINITY, f32::NEG_INFINITY] {
        assert_eq!(
            DistanceBand::new(finite(bad), Bound::Unbounded, MetricType::L2),
            Err(BandError::NonFiniteCut)
        );
        assert_eq!(
            DistanceBand::new(finite(0.0), finite(bad), MetricType::L2),
            Err(BandError::NonFiniteCut)
        );
    }
    assert_eq!(
        DistanceBand::new(finite(2.0), finite(1.0), MetricType::L2),
        Err(BandError::ReversedCuts)
    );
    assert_eq!(
        DistanceBand::new(finite(-1.0), finite(-1.5), MetricType::InnerProduct),
        Err(BandError::ReversedCuts)
    );
}

#[test]
fn a_band_gives_back_what_it_was_made_of() {
    let band = DistanceBand::new(finite(-2.0), Bound::Unbounded, MetricType::InnerProduct).unwrap();
    assert_eq!(band.lower(), finite(-2.0));
    assert_eq!(band.upper(), Bound::Unbounded);
    assert_eq!(band.metric(), MetricType::InnerProduct);
}

#[test]
fn a_band_is_half_open() {
    let band = l2_band(1.0, 3.0);
    assert!(band.admits(single(1.0)));
    assert!(band.admits(single(f32::from_bits(3.0f32.to_bits() - 1))));
    assert!(!band.admits(single(3.0)));
    assert!(!band.admits(single(f32::from_bits(1.0f32.to_bits() - 1))));
    assert!(!band.admits(single(f32::NAN)));
    assert!(l2_band(0.0, 1.0).admits(single(-0.0)));
    assert!(l2_band(-0.0, 1.0).admits(single(0.0)));
}
