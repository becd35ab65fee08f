use radiance_cascades::binary32::{Binary32, INFINITY_BITS, ONE_BITS, TWO_BITS};
use radiance_cascades::natural::Natural;
use radiance_cascades::probes::checked_axis_probes;

fn value(x: f32) -> Binary32 {
    Binary32::from_bits(x.to_bits())
}

#[test]
fn encodings_of_named_values() {
    assert_eq!(ONE_BITS, 1.0f32.to_bits());
    assert_eq!(TWO_BITS, 2.0f32.to_bits());
    assert_eq!(INFINITY_BITS, f32::INFINITY.to_bits());
    assert_eq!(Binary32::one(), value(1.0));
    assert_eq!(Binary32::two(), value(2.0));
    assert_eq!(Binary32::from_bits(0x1234_5678).to_bits(), 0x1234_5678);
}

#[test]
fn decode_gives_significand_and_exponent() {
    assert_eq!(value(1.0).decode(), (1 << 23, -23));
    assert_eq!(value(2.0).decode(), (1 << 23, -22));
    assert_eq!(value(1.5).decode(), (3 << 22, -23));
    assert_eq!(value(0.75).decode(), (3 << 22, -24));
    assert_eq!(value(0.0).decode(), (0, -149));
    assert_eq!(Binary32::from_bits(1).decode(), (1, -149));
    assert_eq!(value(f32::MIN_POSITIVE).decode(), (1 << 23, -149));
    assert_eq!(value(f32::MAX).decode(), ((1 << 24) - 1, 104));
    for x in [1.0f32, 0.1, 3.25, 1.0e-40, 123456.789, f32::MAX] {
        let (significand, exponent) = value(x).decode();
        assert_eq!((significand as f64) * 2f64.powi(exponent), x as f64);
    }
}

#[test]
fn sign_and_size_predicates() {
    assert!(value(1.0).is_positive());
    assert!(value(1.0).is_at_least_one());
    assert!(value(0.5).is_positive());
    assert!(!value(0.5).is_at_least_one());
    assert!(!value(0.99999994).is_at_least_one());
    assert!(value(1.0000001).is_at_least_one());
    assert!(!value(0.0).is_positive());
    assert!(!value(-3.0).is_positive());
    assert!(!value(-3.0).is_at_least_one());
    assert!(!value(f32::INFINITY).is_positive());
    assert!(!value(f32::INFINITY).is_at_least_one());
    assert!(!value(f32::NAN).is_positive());
    assert!(value(f32::MAX).is_at_least_one());
    assert!(Binary32::from_bits(1).is_positive());
}

#[test]
fn natural_from_u32_round_trips() {
    for x in [0u32, 1, 77, u32::MAX] {
        let n = Natural::from_u32(x);
        assert_eq!(n.to_u32(), Some(x));
        assert_eq!(n.is_zero(), x == 0);
    }
}

#[test]
fn natural_division_rounds_down() {
    let mut n = Natural::from_u32(1000);
    n.div_small(7);
    assert_eq!(n.to_u32(), Some(142));
    n.div_small(142);
    assert_eq!(n.to_u32(), Some(1));
    n.div_small(2);
    assert_eq!(n.to_u32(), Some(0));
    assert!(n.is_zero());
}

#[test]
fn natural_below_shifted() {
    assert_eq!(Natural::below_shifted(1, 0).to_u32(), Some(0));
    assert_eq!(Natural::below_shifted(5, 0).to_u32(), Some(4));
    assert_eq!(Natural::below_shifted(5, 3).to_u32(), Some(39));
    assert_eq!(Natural::below_shifted(1, 31).to_u32(), Some((1 << 31) - 1));
    assert_eq!(Natural::below_shifted(1, 32).to_u32(), Some(u32::MAX));
    assert_eq!(Natural::below_shifted(2, 32).to_u32(), None);
    assert_eq!(Natural::below_shifted(1, 33).to_u32(), None);
    assert!(!Natural::below_shifted(1, 200).is_zero());
}

#[test]
fn natural_division_across_limbs() {
    // 3 * 2^100 - 1, divided by 2^16 six times and then by 16, is
    // 3 * 2^100 / 2^100 - 1 rounded down towards 2.
    let mut n = Natural::below_shifted(3, 100);
    for _ in 0..6 {
        n.div_small(1 << 16);
    }
    n.div_small(16);
    assert_eq!(n.to_u32(), Some(2));
    // (7 * 2^64 - 1) / 7 / 2^32 = 2^32 - 1.
    let mut m = Natural::below_shifted(7, 64);
    m.div_small(7);
    assert_eq!(m.to_u32(), None);
    m.div_small(1 << 31);
    m.div_small(2);
    assert_eq!(m.to_u32(), Some(u32::MAX));
    // 10^18 - 1 is below 2^60: (2^60 - 1) / 10^9 / 10^9 = 1.
    let mut k = Natural::below_shifted(1, 60);
    k.div_small(1_000_000_000);
    assert_eq!(k.to_u32(), Some(1_152_921_504));
    k.div_small(1_000_000_000);
    assert_eq!(k.to_u32(), Some(1));
}

#[test]
fn axis_probes_on_plain_values() {
    assert_eq!(checked_axis_probes(8, value(1.0), value(2.0), 0), Some(9));
    assert_eq!(checked_axis_probes(8, value(1.0), value(2.0), 1), Some(5));
    assert_eq!(checked_axis_probes(8, value(1.0), value(2.0), 4), Some(2));
    assert_eq!(checked_axis_probes(0, value(1.0), value(2.0), 4), Some(1));
    assert_eq!(checked_axis_probes(9, value(2.0), value(1.0), 3), Some(6));
    assert_eq!(checked_axis_probes(10, value(0.5), value(1.0), 0), Some(21));
    assert_eq!(checked_axis_probes(u32::MAX, value(1.0), value(2.0), 0), None);
    assert_eq!(checked_axis_probes(u32::MAX - 1, value(1.0), value(2.0), 0), Some(u32::MAX));
    assert_eq!(checked_axis_probes(1, value(1.0e-20), value(2.0), 0), None);
}
