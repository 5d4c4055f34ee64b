//! The sampling interval under changing temperatures.
use std::time::Duration;
use syspulse::frequency::{to_degrees, FrequencyController};

const MS: u128 = 1_000_000;

fn controller(base: u128, threshold: f64) -> FrequencyController {
    FrequencyController::new(base, threshold.to_bits())
}

fn update(fc: &mut FrequencyController, temp: f64) -> u128 {
    fc.update(temp.to_bits())
}

#[test]
fn test_no_throttle_below_threshold() {
    let mut fc = controller(100 * MS, 80.0);
    let interval = update(&mut fc, 70.0);
    assert_eq!(interval, 100 * MS);
    assert!(!fc.is_throttled());
}

#[test]
fn test_throttle_above_threshold() {
    let mut fc = controller(100 * MS, 80.0);
    let interval = update(&mut fc, 90.0);
    assert!(interval > 100 * MS);
    assert!(fc.is_throttled());
}

#[test]
fn test_max_backoff() {
    let mut fc = controller(100 * MS, 80.0);
    let interval = update(&mut fc, 200.0);
    assert_eq!(interval, 1000 * MS);
}

#[test]
fn test_recovery() {
    let mut fc = controller(100 * MS, 80.0);
    update(&mut fc, 95.0);
    assert!(fc.is_throttled());
    update(&mut fc, 70.0);
    assert!(!fc.is_throttled());
    assert_eq!(fc.current_interval(), 100 * MS);
}

#[test]
fn test_frequency_rapid_oscillation() {
    let mut fc = controller(100 * MS, 80.0);
    for i in 0..100 {
        let temp = if i % 2 == 0 { 95.0 } else { 70.0 };
        let interval = update(&mut fc, temp);
        assert!(interval >= 100 * MS);
        assert!(interval <= 1000 * MS);
    }
}

#[test]
fn test_frequency_extreme_temperature() {
    let mut fc = controller(100 * MS, 80.0);
    let interval = update(&mut fc, 10000.0);
    assert_eq!(interval, 1000 * MS);
}

#[test]
fn test_frequency_negative_temperature() {
    let mut fc = controller(100 * MS, 80.0);
    let interval = update(&mut fc, -40.0);
    assert_eq!(interval, 100 * MS);
}

#[test]
fn interval_grows_by_its_base_every_five_degrees() {
    let mut fc = controller(100 * MS, 80.0);
    assert_eq!(update(&mut fc, 80.0), 100 * MS);
    assert_eq!(update(&mut fc, 85.0), 200 * MS);
    assert_eq!(update(&mut fc, 90.0), 300 * MS);
    assert_eq!(update(&mut fc, 82.5), 150 * MS);
    assert_eq!(update(&mut fc, 124.999), 999_980_000);
    assert_eq!(update(&mut fc, 125.0), 1000 * MS);
}

fn in_floating_point(base: Duration, threshold: f64, temp: f64) -> Duration {
    if temp <= threshold {
        base
    } else {
        let factor = (1.0 + (temp - threshold) / 10.0 * 2.0).min(10.0);
        Duration::from_secs_f64(base.as_secs_f64() * factor)
    }
}

fn agrees(base: Duration, threshold: f64, temp: f64) {
    let expected = in_floating_point(base, threshold, temp).as_nanos();
    let got = update(&mut controller(base.as_nanos(), threshold), temp);
    assert_eq!(got, expected, "{:?} {} {}", base, threshold, temp);
}

#[test]
fn interval_agrees_with_floating_point() {
    let bases = [
        Duration::ZERO,
        Duration::from_nanos(1),
        Duration::from_nanos(7),
        Duration::from_nanos(123_456_789),
        Duration::from_millis(1),
        Duration::from_millis(7),
        Duration::from_millis(100),
        Duration::from_millis(333),
        Duration::from_millis(1000),
        Duration::from_millis(60_000),
        Duration::new(1, 999_999_999),
        Duration::new(262_143, 999_999_999),
        Duration::new(8_388_607, 999_999_999),
        Duration::new(123_456_789_012, 345_678_901),
        Duration::new(1_000_000_000_000_000_000, 1),
    ];
    let temps = [
        85.0, 85.0005, 85.001, 86.123, 90.0, 97.777, 129.999, 130.0, 150.0, 1.0e10, 1.0e300, 0.0,
        -0.0, 1.0e-320, -1.0e-320, 5.0e-324, -5.0e-324, 2.3e-308, -273.15, -1.0e300, f64::MAX,
        f64::MIN, f64::INFINITY, f64::NEG_INFINITY, f64::NAN, 85.00000000000001, 84.99999999999999,
    ];
    for base in bases {
        for threshold in temps {
            for temp in temps {
                agrees(base, threshold, temp);
            }
        }
    }
}

#[test]
fn interval_agrees_with_floating_point_on_scattered_values() {
    let mut x: u64 = 0x9e37_79b9_7f4a_7c15;
    let mut next = || {
        x ^= x << 13;
        x ^= x >> 7;
        x ^= x << 17;
        x
    };
    for _ in 0..100_000 {
        let base = Duration::from_nanos(next() >> (next() % 60));
        let threshold = (next() % 100_000_000) as f64 / 1.0e6;
        let temp = threshold + (next() % 60_000_000) as f64 / 1.0e6 - 5.0;
        agrees(base, threshold, temp);
        agrees(base, f64::from_bits(next()), f64::from_bits(next()));
    }
}

#[test]
fn a_fine_threshold_counts() {
    let mut fc = controller(100 * MS, 85.0005);
    assert_eq!(update(&mut fc, 85.001), 100_010_000);
    let mut fc = controller(100 * MS, 85.0);
    assert_eq!(update(&mut fc, 85.001), 100_020_000);
}

#[test]
fn sensors_report_thousandths_of_a_degree() {
    for n in [0, 1, 999, 1000, 36_600, 85_001, 1 << 53, (1 << 53) + 1, u64::MAX] {
        assert_eq!(to_degrees(n), (n as f64 / 1000.0).to_bits());
    }
}

#[test]
fn hotter_is_never_faster() {
    let mut fc = controller(123_456_789, 60.0);
    let mut last = 0;
    for temp in 0..2000 {
        let interval = update(&mut fc, temp as f64 / 10.0 - 50.0);
        assert!(interval >= last);
        last = interval;
    }
}

#[test]
fn intervals_stay_within_bounds() {
    for base in [0, 1, 3, 999_999_999, 262_143_999_999_999] {
        for temp in 0..100 {
            let interval = update(&mut controller(base, 50.0), temp as f64 * 1.37);
            assert!(base <= interval && interval <= 10 * base);
        }
        assert_eq!(update(&mut controller(base, 50.0), 95.0), 10 * base);
    }
    let long = 8_388_607_999_999_999;
    assert!(update(&mut controller(long, 50.0), 50.0000001) >= long);
}

#[test]
fn a_little_heat_throttles() {
    for base in [10_000, 100 * MS, 262_143_999_999_999] {
        for threshold in [85.0, 0.0, -20.5] {
            let mut fc = controller(base, threshold);
            assert!(update(&mut fc, threshold + 1.0 / 1024.0) > base);
            assert!(fc.is_throttled());
        }
    }
    let mut fc = controller(100 * MS, 85.0);
    assert_eq!(update(&mut fc, 85.00000000000001), 100 * MS);
    assert!(!fc.is_throttled());
}

#[test]
fn the_longest_milliseconds_still_fit() {
    let base = u64::MAX as u128 * MS;
    assert!(update(&mut controller(base, 85.0), 200.0) <= syspulse::frequency::MAX_INTERVAL);
}

#[test]
fn very_long_intervals_are_rounded() {
    let base = 23_517_449_004_107_286;
    assert_eq!(update(&mut controller(base, 0.0), 1.0e-300), base - 1);
    let base = 1_325_545_473_300_643;
    assert_eq!(update(&mut controller(base, 85.0), 200.0), 10 * base + 1);
}
