//! Arithmetic on doubles.
use syspulse::double::{add, div, from_magnitude, from_u64, mul, sub, whole, Double};
use syspulse::metrics::Quantity;
use syspulse::share::rank_key;

const INTEGERS: [u64; 14] = [
    1,
    2,
    3,
    10,
    99,
    1_000_000_007,
    (1 << 52) - 1,
    (1 << 53) - 1,
    1 << 53,
    (1 << 53) + 1,
    (1 << 53) + 3,
    (1 << 60) + 129,
    u64::MAX - 1024,
    u64::MAX,
];

fn integer(n: u64) -> (Double, f64) {
    (from_u64(n), n as f64)
}

#[test]
fn integers_become_doubles() {
    assert_eq!(from_u64(0).to_bits(), 0);
    for n in INTEGERS {
        let (d, f) = integer(n);
        assert_eq!(d.to_bits(), f.to_bits());
    }
    assert_eq!(whole(100).to_bits(), 100.0f64.to_bits());
}

#[test]
fn operations_give_the_nearest_double() {
    for a in INTEGERS {
        for b in INTEGERS {
            let ((x, f), (y, g)) = (integer(a), integer(b));
            assert_eq!(mul(x, y).to_bits(), (f * g).to_bits());
            assert_eq!(div(x, y).to_bits(), (f / g).to_bits());
            if x.e >= y.e {
                assert_eq!(add(x, y).to_bits(), (f + g).to_bits());
                let third = div(y, whole(3));
                if third.e <= x.e {
                    assert_eq!(add(x, third).to_bits(), (f + g / 3.0).to_bits());
                }
            }
        }
    }
}

#[test]
fn differences_give_the_nearest_double() {
    let values = [1.0f64, 1.5, 85.0005, 85.001, 1.0e-300, 1.0e300, 4.0e-310, 5.0e-324, 0.1, 0.3];
    for a in values {
        for b in values {
            if a > b {
                let d = sub(from_magnitude(a.to_bits()), from_magnitude(b.to_bits()));
                let expected = from_magnitude((a - b).to_bits());
                assert_eq!(value(d), value(expected), "{} {}", a, b);
            }
        }
    }
}

fn value(d: Double) -> f64 {
    let half = d.e / 2;
    d.m as f64 * 2.0f64.powi(half) * 2.0f64.powi(d.e - half)
}

#[test]
fn shares_rank_as_doubles_do() {
    let share = |ticks: u64, elapsed_ns: u64| {
        rank_key(&Quantity::TickShare { ticks, ticks_per_sec: 100, elapsed_ns })
    };
    for ticks in [0, 1, 2, 50, 99, 1 << 40, 1 << 53, (1 << 53) + 1, u64::MAX] {
        for elapsed in [1_000_001u64, 1_000_000_000, 2_000_000_001, 3_600_000_000_000, u64::MAX] {
            let secs = elapsed as f64 / 1_000_000_000.0;
            let expected = (ticks as f64 / (secs * 100.0)) * 100.0;
            assert_eq!(share(ticks, elapsed), expected.to_bits());
        }
    }
    assert_eq!(share(1 << 53, 1_000_000_000), share((1 << 53) + 1, 1_000_000_000));
    assert!(share(5, 1_000_000_000) < share(6, 1_000_000_000));
    assert_eq!(rank_key(&Quantity::Whole(0)), 0);
    assert_eq!(rank_key(&Quantity::Whole(7)), 7.0f64.to_bits());
    assert_eq!(share(7, 0), 0);
}
