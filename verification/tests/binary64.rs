use valkey_timeseries::binary64::{
    float_is_nan, float_less, float_max, float_min, float_of_count, float_quotient, float_sum,
    round_to_53_bits,
};

fn samples() -> Vec<f64> {
    let mut all = vec![
        0.0,
        -0.0,
        1.0,
        -1.0,
        0.1,
        0.2,
        0.7,
        -0.3,
        1.5,
        3.0,
        1e-300,
        5e-324,
        -5e-324,
        f64::MIN_POSITIVE,
        f64::MAX,
        f64::MIN,
        f64::INFINITY,
        f64::NEG_INFINITY,
        9007199254740992.0,
        9007199254740991.0,
        -9007199254740993.0,
        1e16,
        1e100,
        -1e100,
        f64::EPSILON,
        1.0 + f64::EPSILON,
    ];
    let mut state: u64 = 88172645463325252;
    for _ in 0..60 {
        state ^= state << 13;
        state ^= state >> 7;
        state ^= state << 17;
        let x = f64::from_bits(state);
        if !x.is_nan() {
            all.push(x);
        }
        all.push((state % 1_000_000) as f64 / 1000.0);
    }
    all
}

#[test]
fn sums_are_those_of_the_machine() {
    for a in samples() {
        for b in samples() {
            let sum = f64::from_bits(float_sum(a.to_bits(), b.to_bits()));
            let expected = a + b;
            if expected.is_nan() {
                assert!(sum.is_nan(), "{a} + {b}");
            } else {
                assert_eq!(sum.to_bits(), expected.to_bits(), "{a} + {b}");
            }
            assert_eq!(
                float_sum(a.to_bits(), b.to_bits()),
                float_sum(b.to_bits(), a.to_bits())
            );
        }
    }
    assert!(f64::from_bits(float_sum(f64::NAN.to_bits(), 1.0f64.to_bits())).is_nan());
}

#[test]
fn orders_are_those_of_the_machine() {
    for a in samples() {
        for b in samples() {
            assert_eq!(float_less(a.to_bits(), b.to_bits()), a < b, "{a} < {b}");
            assert_eq!(f64::from_bits(float_min(a.to_bits(), b.to_bits())), a.min(b));
            assert_eq!(f64::from_bits(float_max(a.to_bits(), b.to_bits())), a.max(b));
        }
        assert!(!float_is_nan(a.to_bits()));
    }
    let nan = f64::NAN.to_bits();
    assert!(float_is_nan(nan));
    assert!(!float_less(nan, 0) && !float_less(0, nan));
    assert_eq!(float_min(nan, 7), 7);
    assert_eq!(float_max(7, nan), 7);
}

#[test]
fn quotients_are_those_of_the_machine() {
    for a in samples() {
        for count in [1u64, 2, 3, 7, 10, 49, 1000, 1 << 40, (1 << 53) - 1] {
            assert_eq!(
                float_quotient(a.to_bits(), count),
                (a / count as f64).to_bits(),
                "{a} / {count}"
            );
        }
    }
    assert!(f64::from_bits(float_quotient(0, 0)).is_nan());
}

#[test]
fn counts_become_the_nearest_floats() {
    for n in [0u64, 1, 2, 1000, 1 << 53, (1 << 53) + 1, (1 << 53) + 3, u64::MAX, u64::MAX - 1024] {
        assert_eq!(float_of_count(n), (n as f64).to_bits());
    }
}

#[test]
fn long_numbers_are_rounded_to_53_bits() {
    for n in [0u128, 1, 1 << 53, (1 << 53) + 1, (1 << 60) + 5, u64::MAX as u128, 1 << 100] {
        assert_eq!(round_to_53_bits(n), n as f64 as u128);
    }
}
