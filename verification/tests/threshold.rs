//! The threshold against double-precision arithmetic, and the integer pieces.
use vindex_collect::band::{Bound, DistanceBand, MetricType};
use vindex_collect::rounding::{round_quotient, round_to_precision};
use vindex_collect::single::Single;
use vindex_collect::threshold::early_abandon_threshold;

fn single(x: f32) -> Single {
    Single::from_bits(x.to_bits())
}

fn cutoff(upper: f32, dimension: usize) -> f32 {
    let band = DistanceBand::new(
        Bound::Unbounded,
        Bound::Finite(single(upper)),
        MetricType::L2,
    )
    .unwrap();
    f32::from_bits(early_abandon_threshold(band, dimension).to_bits())
}

/// The same bound in double precision.
fn expected(upper: f32, dimension: usize) -> f32 {
    if upper < f32::MIN_POSITIVE {
        return f32::INFINITY;
    }
    let x = dimension as f64 * f64::from(f32::EPSILON);
    if x >= 0.5 {
        return f32::INFINITY;
    }
    let r = 1.0 / (1.0 - x);
    let a = 2.0 * dimension as f64 * f64::powi(2.0, -150);
    let widened = r * f64::from(upper) + (r + 1.0) * a;
    if widened > f64::from(f32::MAX) {
        return f32::INFINITY;
    }
    f32::from_bits((widened as f32).to_bits() + 1)
}

struct Lcg(u64);

impl Lcg {
    fn next(&mut self) -> u64 {
        self.0 = self
            .0
            .wrapping_mul(6364136223846793005)
            .wrapping_add(1442695040888963407);
        self.0 >> 32
    }
}

#[test]
fn the_threshold_equals_double_arithmetic_on_a_sweep() {
    let mut rng = Lcg(0x5eed_1234);
    for _ in 0..200_000 {
        let upper = f32::from_bits((rng.next() % 0x7f80_0000) as u32);
        let shift = rng.next() % 24;
        let dimension = (rng.next() >> (8 + shift)) as usize;
        let got = cutoff(upper, dimension);
        let want = expected(upper, dimension);
        assert_eq!(
            got.to_bits(),
            want.to_bits(),
            "upper {upper:e} d {dimension}: {got:e} against {want:e}"
        );
    }
}

#[test]
fn the_threshold_equals_double_arithmetic_near_the_ends() {
    for d in [0usize, 1, 2, 3, 767, 768, 4095, (1 << 21) + 1, (1 << 22) - 1, 1 << 22] {
        for step in 0..3000u32 {
            for bits in [0x0080_0000 + step, 0x7f7f_ffff - step, 0x00ff_fff0 + step] {
                let upper = f32::from_bits(bits);
                assert_eq!(cutoff(upper, d).to_bits(), expected(upper, d).to_bits());
            }
            // Where the additive part is next to half a place of the sum.
            let upper = f32::from_bits((24 + step % 40) << 23 | (step * 2797) & 0x7f_ffff);
            assert_eq!(cutoff(upper, d).to_bits(), expected(upper, d).to_bits());
        }
    }
}

#[test]
fn exact_thresholds() {
    assert_eq!(cutoff(1.0, 0).to_bits(), 1.0f32.to_bits() + 1);
    // R is one part in 2^23 above one: one place, and one more for the nudge.
    assert_eq!(cutoff(1.0, 1).to_bits(), 1.0f32.to_bits() + 2);
    assert_eq!(cutoff(3.0, 16).to_bits(), 3.0f32.to_bits() + 25);
    assert_eq!(cutoff(f32::MAX, 0), f32::INFINITY);
    assert_eq!(cutoff(f32::MAX, 1), f32::INFINITY);
    assert_eq!(cutoff(f32::from_bits(0x7f7f_fffe), 0), f32::MAX);
}

#[test]
fn no_threshold_where_pruning_is_not_justified() {
    assert_eq!(cutoff(-1.0, 16), f32::INFINITY);
    assert_eq!(cutoff(0.0, 16), f32::INFINITY);
    assert_eq!(cutoff(f32::from_bits(0x007f_ffff), 16), f32::INFINITY);
    assert!(cutoff(f32::MIN_POSITIVE, 16).is_finite());
    assert_eq!(cutoff(1.0, usize::MAX), f32::INFINITY);
}

#[test]
fn every_further_dimension_raises_the_threshold() {
    for upper in [f32::MIN_POSITIVE, 0.1, 1.0, 1.9999999, 3.0, 1.0e30] {
        let mut before = cutoff(upper, 0);
        for d in 1..2000 {
            let now = cutoff(upper, d);
            assert!(now > before, "upper {upper:e} d {d}");
            before = now;
        }
    }
}

#[test]
fn a_higher_cut_never_lowers_the_threshold() {
    for d in [0usize, 1, 768, (1 << 22) - 1] {
        for start in [0x0080_0000u32, 0x3fff_ff00, 0x7eff_ff00, 0x7f7f_f000] {
            let mut before = cutoff(f32::from_bits(start), d);
            for bits in start + 1..(start + 4000).min(0x7f80_0000) {
                let now = cutoff(f32::from_bits(bits), d);
                assert!(now > 0.0 && now >= before);
                before = now;
            }
        }
    }
}

#[test]
fn the_threshold_is_tight() {
    for upper in [f32::MIN_POSITIVE, 0.1, 1.0, 1.9999999, 3.0, 1.0e30] {
        for d in [1usize, 100, 10_000, 1_000_000] {
            let x = d as f64 / f64::powi(2.0, 23);
            let r = 1.0 / (1.0 - x);
            let a = d as f64 * f64::powi(2.0, -149);
            let bound = r * f64::from(upper) + (r + 1.0) * a;
            let got = f64::from(cutoff(upper, d));
            assert!(got > bound);
            assert!(got < bound * (1.0 + f64::powi(2.0, -22)));
            assert!(got > f64::from(upper));
            let two_below = f32::from_bits(cutoff(upper, d).to_bits() - 2);
            assert!(f64::from(two_below) < bound);
        }
    }
}

#[test]
fn the_widening_stays_below_double() {
    for upper in [1.0e-20f32, 0.1, 1.0, 1.9999999, 3.0, 1.0e30] {
        for d in [1usize, 1 << 20, 1 << 21, (1 << 22) - 1] {
            assert!(f64::from(cutoff(upper, d)) < 2.0001 * f64::from(upper));
        }
    }
}

#[test]
fn a_higher_cutoff_gives_up_fewer_partial_sums() {
    let sums: Vec<f32> = (0..1000).map(|i| 0.9995 + i as f32 * 1.0e-6).collect();
    let given_up = |c: f32| sums.iter().filter(|sum| **sum > c).count();
    let mut before = sums.len();
    for d in [0usize, 64, 768, 4096, 1 << 22] {
        let now = given_up(cutoff(0.9997, d));
        assert!(now <= before);
        before = now;
    }
    assert_eq!(before, 0);
}

#[test]
fn quotients_round_half_to_even() {
    assert_eq!(round_quotient(5, 2), 2);
    assert_eq!(round_quotient(7, 2), 4);
    assert_eq!(round_quotient(10, 4), 2);
    assert_eq!(round_quotient(11, 4), 3);
    assert_eq!(round_quotient(9, 4), 2);
    assert_eq!(round_quotient(u128::MAX, 1), u128::MAX);
    assert_eq!(round_quotient(0, 3), 0);
}

#[test]
fn integers_round_to_a_precision() {
    assert_eq!(round_to_precision(0, 3), 0);
    assert_eq!(round_to_precision(7, 3), 7);
    assert_eq!(round_to_precision(0b1001, 3), 0b1000);
    assert_eq!(round_to_precision(0b1011, 3), 0b1100);
    assert_eq!(round_to_precision(0b1111, 3), 0b10000);
    for x in [(1u64 << 53) + 1, (1 << 53) + 3, u64::MAX, 0x1234_5678_9abc_def1] {
        assert_eq!(round_to_precision(x as u128, 53), (x as f64) as u128);
    }
}

#[test]
fn singles_compare_as_floats() {
    let values = [
        f32::NAN,
        f32::NEG_INFINITY,
        f32::MIN,
        -1.5,
        -f32::from_bits(1),
        -0.0,
        0.0,
        f32::from_bits(1),
        f32::MIN_POSITIVE,
        1.0,
        f32::MAX,
        f32::INFINITY,
    ];
    for a in values {
        assert_eq!(single(a).is_finite(), a.is_finite());
        assert_eq!(single(a).is_nan(), a.is_nan());
        assert_eq!(single(a).to_bits(), a.to_bits());
        for b in values {
            assert_eq!(single(a).is_less(single(b)), a < b, "{a} < {b}");
            assert_eq!(single(a).is_at_most(single(b)), a <= b, "{a} <= {b}");
        }
    }
}
