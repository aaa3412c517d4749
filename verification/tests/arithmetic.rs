use fx_scalp_core::clock::{milliseconds, timestamp};
use fx_scalp_core::decimal::fixed;
use fx_scalp_core::decimal::shortest::shortest_decimal;
use fx_scalp_core::text::{contains, decimal};
use fx_scalp_core::Double;

fn d(x: f64) -> Double {
    Double::from_bits(x.to_bits())
}

fn f(x: Double) -> f64 {
    f64::from_bits(x.to_bits())
}

struct Source(u64);

impl Source {
    fn next(&mut self) -> u64 {
        self.0 = self.0.wrapping_mul(6364136223846793005).wrapping_add(1442695040888963407);
        self.0 ^ (self.0 >> 29)
    }

    fn number(&mut self) -> f64 {
        match self.next() % 8 {
            0 => f64::from_bits(self.next()),
            1 => f64::from_bits(self.next() % 0x20_0000_0000_0000),
            2 => (self.next() % 2000) as f64 / 100.0 - 10.0,
            3 => (self.next() as f64) * 1e-15,
            4 => -((self.next() % 100000) as f64) / 3.0,
            5 => 1.0 + (self.next() % 1000) as f64 * f64::EPSILON,
            6 => f64::from_bits(0x7FD0_0000_0000_0000 + self.next() % 0x30_0000_0000_0000),
            _ => (self.next() % 64) as f64 * 0.5,
        }
    }
}

fn agree(ours: Double, theirs: f64) -> bool {
    f(ours).to_bits() == theirs.to_bits() || (f(ours).is_nan() && theirs.is_nan())
}

const SPECIAL: [f64; 20] = [
    0.0,
    -0.0,
    1.0,
    -1.0,
    0.1,
    2.5,
    -2.5,
    0.5,
    1e308,
    -1e308,
    f64::MAX,
    f64::MIN_POSITIVE,
    5e-324,
    -5e-324,
    f64::INFINITY,
    f64::NEG_INFINITY,
    f64::NAN,
    4503599627370495.5,
    9007199254740993.0,
    1.10010,
];

fn check_pair(a: f64, b: f64) {
    assert!(agree(d(a).plus(d(b)), a + b), "{} + {}", a, b);
    assert!(agree(d(a).minus(d(b)), a - b), "{} - {}", a, b);
    assert!(agree(d(a).times(d(b)), a * b), "{} * {}", a, b);
    assert!(agree(d(a).over(d(b)), a / b), "{} / {}", a, b);
    assert_eq!(d(a).is_below(d(b)), a < b);
    assert_eq!(d(a).is_above(d(b)), a > b);
    assert_eq!(d(a).is_at_most(d(b)), a <= b);
    assert_eq!(d(a).is_at_least(d(b)), a >= b);
    assert_eq!(d(a) == d(b), a == b);
    let (low, high) = (f(d(a).min(d(b))), f(d(a).max(d(b))));
    assert!(low == a.min(b) || (low.is_nan() && a.min(b).is_nan()));
    assert!(high == a.max(b) || (high.is_nan() && a.max(b).is_nan()));
}

fn check_one(a: f64) {
    assert!(agree(d(a).round(), a.round()), "round {}", a);
    assert!(agree(d(a).negate(), -a));
    assert!(agree(d(a).abs(), a.abs()));
    assert!(agree(d(a).signum(), a.signum()), "signum {}", a);
    assert_eq!(d(a).is_nan(), a.is_nan());
}

#[test]
fn special_values_behave_like_the_hardware() {
    for a in SPECIAL {
        check_one(a);
        for b in SPECIAL {
            check_pair(a, b);
        }
    }
}

#[test]
fn random_values_behave_like_the_hardware() {
    let mut source = Source(42);
    for _ in 0..40000 {
        let (a, b) = (source.number(), source.number());
        check_one(a);
        check_pair(a, b);
    }
}

#[test]
fn nearby_values_behave_like_the_hardware() {
    let mut source = Source(7);
    for _ in 0..20000 {
        let a = source.number();
        let b = f64::from_bits(a.to_bits() ^ (source.next() % 16));
        check_pair(a, b);
        check_pair(a, -b);
    }
}

#[test]
fn whole_numbers_and_fractions_are_nearest() {
    let mut source = Source(3);
    for _ in 0..20000 {
        let (n, m) = (source.next(), source.next() >> (source.next() % 60));
        assert!(agree(Double::from_u64(n), n as f64));
        assert!(agree(Double::from_u64(m), m as f64));
    }
    assert!(agree(Double::from_ratio(1, 10), 0.1));
    assert!(agree(Double::from_ratio(1, 100), 0.01));
    assert!(agree(Double::from_ratio(5, 1000), 0.005));
    assert!(agree(Double::from_ratio(1, 100000), 0.00001));
    assert!(agree(Double::from_ratio(1, 1000000), 0.000001));
    assert!(agree(Double::from_ratio(12, 10), 1.2));
    assert!(agree(Double::from_ratio(3, 10), 0.3));
    assert!(agree(Double::from_ratio(15, 10), 1.5));
}

#[test]
fn nan_equals_nothing() {
    assert!(d(f64::NAN) != d(f64::NAN));
    assert!(d(0.0) == d(-0.0));
    assert!(d(0.0).equals(d(-0.0)));
}

#[test]
fn rounding_of_ties() {
    assert_eq!(f(d(0.5).round()), 1.0);
    assert_eq!(f(d(-0.5).round()), -1.0);
    assert_eq!(f(d(2.5).round()), 3.0);
    assert_eq!(f(d(0.49999999999999994).round()), 0.0);
    // A sum half way between two neighbours goes to the even one
    assert_eq!(f(d(9007199254740992.0).plus(d(1.0))), 9007199254740992.0);
    assert_eq!(f(d(9007199254740994.0).plus(d(1.0))), 9007199254740996.0);
}

#[test]
fn order_of_sums_and_products() {
    // Values of laws on order and on one
    assert!(d(30.0).times(d(1.2)).is_at_least(d(30.0)));
    assert_eq!(f(d(1.10010).times(d(1.0))), 1.10010);
    assert!(d(1.1).plus(d(0.003)).is_at_least(d(1.1)));
    assert!(d(1.1).minus(d(0.003)).is_at_most(d(1.1)));
    assert_eq!(f(d(7.3).over(d(7.3))), 1.0);
    assert_eq!(f(d(7.3).minus(d(7.3))), 0.0);
}

#[test]
fn decimals_are_written_without_leading_zeros() {
    assert_eq!(decimal(0), "0");
    assert_eq!(decimal(9), "9");
    assert_eq!(decimal(10), "10");
    assert_eq!(decimal(1234567890), "1234567890");
    assert_eq!(decimal(u64::MAX), "18446744073709551615");
}

#[test]
fn text_is_found_anywhere() {
    assert!(contains("XAUUSD", "XAU"));
    assert!(contains("mXAU", "XAU"));
    assert!(contains("XAU", "XAU"));
    assert!(contains("abc", ""));
    assert!(!contains("XA", "XAU"));
    assert!(!contains("EURUSD", "XAU"));
    assert!(!contains("XAAU", "XAU"));
}

#[test]
fn clock_counts_milliseconds() {
    assert_eq!(milliseconds(0, 0), 0);
    assert_eq!(milliseconds(1, 999_999_999), 1999);
    assert_eq!(milliseconds(1_700_000_000, 5_000_000), 1_700_000_000_005);
    assert_eq!(milliseconds(u64::MAX, 0), ((u64::MAX as u128 * 1000) % (1u128 << 64)) as u64);
}

#[test]
fn timestamps_start_at_the_epoch() {
    assert_eq!(timestamp(None), 0);
    assert_eq!(timestamp(Some((0, 999_999))), 0);
    assert_eq!(timestamp(Some((12, 345_678_901))), 12345);
}

#[test]
fn decimals_are_written_like_the_standard_formatter_does() {
    for x in SPECIAL {
        assert_eq!(fixed(d(x), 0), format!("{:.0}", x));
        assert_eq!(fixed(d(x), 2), format!("{:.2}", x));
        assert_eq!(fixed(d(x), 5), format!("{:.5}", x));
        assert_eq!(fixed(d(x), 19), format!("{:.19}", x));
    }
    let mut source = Source(11);
    for _ in 0..4000 {
        let x = source.number();
        assert_eq!(fixed(d(x), 2), format!("{:.2}", x));
        assert_eq!(fixed(d(x), 5), format!("{:.5}", x));
    }
    for i in 0..2000u32 {
        // Many of these lie half way between two decimals
        let x = i as f64 / 64.0 - 10.0;
        assert_eq!(fixed(d(x), 2), format!("{:.2}", x));
        assert_eq!(fixed(d(x), 5), format!("{:.5}", x));
    }
}

#[test]
fn prices_are_written_with_their_decimals() {
    assert_eq!(fixed(d(1.1001), 5), "1.10010");
    assert_eq!(fixed(d(-0.005), 2), "-0.01");
    assert_eq!(fixed(d(0.015625), 5), "0.01562");
    assert_eq!(fixed(d(0.046875), 5), "0.04688");
    assert_eq!(fixed(d(-0.0), 2), "-0.00");
    assert_eq!(fixed(d(1e22), 2), "10000000000000000000000.00");
    assert_eq!(fixed(d(f64::NAN), 2), "NaN");
    assert_eq!(fixed(d(f64::NEG_INFINITY), 2), "-inf");
}

#[test]
fn shortest_decimals_are_written_like_the_standard_formatter_does() {
    let mut values = vec![
        0.0,
        -0.0,
        1.0,
        -2.5,
        0.1,
        0.3,
        1.0 / 3.0,
        123456.789,
        f64::NAN,
        f64::INFINITY,
        f64::NEG_INFINITY,
        f64::MAX,
        f64::MIN_POSITIVE,
        5e-324,
        1e-323,
        1.5e-323,
        1e16,
        9999999999999998.0,
        0.0001,
        0.00009999999999999999,
        1e23,
        9007199254740992.0,
        // Half way between two decimals that both tell them apart
        1125899906842624.25,
        1125899906842624.75,
    ];
    let mut bits: u64 = 0x9E37_79B9_7F4A_7C15;
    for _ in 0..60 {
        bits = bits.wrapping_mul(6364136223846793005).wrapping_add(1442695040888963407);
        values.push(f64::from_bits(bits));
        // Prices and amounts
        values.push((bits >> 40) as f64 / 100000.0);
    }
    for exponent in 0..40u64 {
        values.push(f64::from_bits((exponent * 51 + 1) << 52));
        values.push(f64::from_bits(((exponent * 51 + 1) << 52) - 1));
    }
    for value in values {
        assert_eq!(shortest_decimal(d(value)), format!("{:?}", value));
    }
}

#[test]
fn shortest_decimals_read_back() {
    for value in [0.1, 1.0 / 3.0, 6.02214076e23, 1.7976931348623157e308, 4.9e-322] {
        assert_eq!(shortest_decimal(d(value)).parse::<f64>(), Ok(value));
    }
}
