use nfsview::binary64::Binary64;

fn number(x: f64) -> Binary64 {
    Binary64::from_bits(x.to_bits())
}

fn float(x: Binary64) -> f64 {
    f64::from_bits(x.to_bits())
}

/// Equal as patterns, but for the payload of what is not a number.
fn assert_same(a: Binary64, b: f64, what: &str) {
    if b.is_nan() {
        assert!(float(a).is_nan(), "{what}");
    } else {
        assert_eq!(a.to_bits(), b.to_bits(), "{what}");
    }
}

fn samples() -> Vec<f64> {
    let mut v = vec![
        0.0,
        -0.0,
        1.0,
        -1.0,
        0.1,
        0.2,
        0.3,
        1.5,
        100.0,
        1000.0,
        1e9,
        1e-300,
        -1e-300,
        5e-324,
        -5e-324,
        f64::MIN_POSITIVE,
        f64::MAX,
        -f64::MAX,
        f64::EPSILON,
        f64::INFINITY,
        f64::NEG_INFINITY,
        f64::NAN,
        9007199254740991.0,
        9007199254740993.0,
    ];
    let mut n: u64 = 99;
    for i in 0..400u64 {
        n = n.wrapping_mul(6364136223846793005).wrapping_add(1442695040888963407);
        v.push(f64::from_bits(n));
        // Numbers with exponents close to each other.
        v.push(f64::from_bits((n >> 12) | ((1000 + i % 80) << 52)));
        // Numbers too small to have a full significand.
        v.push(f64::from_bits((n >> 12) >> (i % 52)));
    }
    v
}

#[test]
fn arithmetic_is_that_of_the_machine() {
    let v = samples();
    for (i, &x) in v.iter().enumerate() {
        for j in 0..60 {
            let y = v[(i * 7 + j * 13) % v.len()];
            let (a, b) = (number(x), number(y));
            assert_same(a.plus(b), x + y, &format!("{x:e} + {y:e}"));
            assert_same(a.minus(b), x - y, &format!("{x:e} - {y:e}"));
            assert_same(a.times(b), x * y, &format!("{x:e} * {y:e}"));
            assert_same(a.over(b), x / y, &format!("{x:e} / {y:e}"));
            assert_eq!(a.is_less(b), x < y, "{x:e} < {y:e}");
        }
        assert_eq!(number(x).is_nan(), x.is_nan());
        assert_eq!(number(x).is_finite(), x.is_finite());
    }
}

#[test]
fn integers_round_to_nearest() {
    let mut n: u64 = 3;
    for i in 0..2000 {
        n = n.wrapping_mul(6364136223846793005).wrapping_add(1442695040888963407);
        let k = n >> (i % 64);
        assert_same(Binary64::from_u64(k), k as f64, &format!("{k}"));
    }
    for k in [0, 1, 2, 1 << 53, (1 << 53) + 1, (1 << 54) + 2, (1 << 54) + 6, u64::MAX] {
        assert_same(Binary64::from_u64(k), k as f64, &format!("{k}"));
    }
}

#[test]
fn sums_keep_the_sign_of_zero() {
    assert_eq!(number(-0.0).plus(number(-0.0)).to_bits(), (-0.0f64).to_bits());
    assert_eq!(number(1.0).minus(number(1.0)).to_bits(), 0);
    assert_eq!(Binary64::zero().to_bits(), 0);
}

#[test]
fn exact_results() {
    assert_eq!(float(number(0.1).plus(number(0.2))), 0.30000000000000004);
    assert_eq!(float(number(1.0).over(number(3.0))), 0.3333333333333333);
    assert_eq!(float(number(0.1).times(number(3.0))), 0.30000000000000004);
    assert_eq!(float(number(3.0).minus(number(10.0))), -7.0);
}
