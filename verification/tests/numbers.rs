use stats_cruncher::float64::Float64;
use stats_cruncher::natural::Natural;
use stats_cruncher::numeral::read_number;

fn f(x: f64) -> Float64 {
    Float64 { bits: x.to_bits() }
}

fn g(x: Float64) -> f64 {
    f64::from_bits(x.bits)
}

fn samples() -> Vec<f64> {
    let mut v = vec![
        0.0,
        -0.0,
        1.0,
        -1.0,
        0.1,
        0.2,
        0.3,
        1.5,
        2.5,
        1e16,
        9007199254740993.0,
        1e308,
        f64::MAX,
        f64::MIN,
        f64::MIN_POSITIVE,
        5e-324,
        -5e-324,
        2.2250738585072011e-308,
        f64::INFINITY,
        f64::NEG_INFINITY,
        1e-300,
        3.0,
        1.0 / 3.0,
        123456789.125,
        -987654321.75,
    ];
    // A fixed walk over bit patterns.
    let mut x: u64 = 0x9e37_79b9_7f4a_7c15;
    for _ in 0..200 {
        x ^= x << 13;
        x ^= x >> 7;
        x ^= x << 17;
        let y = f64::from_bits(x);
        if !y.is_nan() {
            v.push(y);
        }
    }
    v
}

#[test]
fn addition_is_that_of_the_machine() {
    let v = samples();
    for a in &v {
        for b in &v {
            let expected = a + b;
            let got = f(*a).plus(f(*b));
            if expected.is_nan() {
                assert!(got.is_nan(), "{a:e} + {b:e}");
            } else {
                assert_eq!(got.bits, expected.to_bits(), "{a:e} + {b:e}");
            }
        }
    }
    assert!(f(f64::NAN).plus(f(1.0)).is_nan());
    assert!(f(1.0).plus(f(f64::NAN)).is_nan());
}

#[test]
fn comparisons_are_those_of_the_machine() {
    let mut v = samples();
    v.push(f64::NAN);
    for a in &v {
        for b in &v {
            assert_eq!(f(*a).less(f(*b)), a < b, "{a:e} < {b:e}");
            assert_eq!(f(*a).at_most(f(*b)), a <= b, "{a:e} <= {b:e}");
            assert_eq!(
                f(*a).order().cmp(&f(*b).order()),
                a.total_cmp(b),
                "{a:e} by {b:e}"
            );
        }
        assert_eq!(f(*a).is_nan(), a.is_nan());
        assert_eq!(f(*a).is_finite(), a.is_finite());
        assert_eq!(f(*a).is_negative(), a.is_sign_negative());
    }
}

#[test]
fn conversions_are_those_of_the_machine() {
    for i in [
        0,
        1,
        -1,
        42,
        i64::MAX,
        i64::MIN,
        1 << 53,
        (1 << 53) + 1,
        -(1 << 53) - 1,
        (1 << 54) + 2,
        (1 << 54) + 6,
        1_776_556_800,
    ] {
        assert_eq!(g(Float64::from_int(i)), i as f64, "{i}");
    }
    for x in samples() {
        assert_eq!(f(x).to_int(), x as i64, "{x:e}");
        assert_eq!(f(x).is_integral(), x.is_finite() && x.fract() == 0.0, "{x:e}");
    }
    assert_eq!(f(f64::NAN).to_int(), 0);
    assert!(!f(f64::NAN).is_integral());
}

#[test]
fn numbers_are_read_to_the_nearest() {
    let texts = [
        "0", "1", "12.5", "7", "99.50", "149.00", "49.99", "0.1", "-0", "+3", "-3.25", ".5", "5.",
        "1e3", "1E3", "1e+3", "1e-3", "1.5e10", "123456789012345678", "12345678901234567890",
        "123456789012345678901234567890", "9007199254740993", "9007199254740992.5",
        "9007199254740993.0000000000000000000000000001", "0.000000000000000000000000000001",
        "1e22", "1e23", "8.5e22", "1e-22", "1.7976931348623157e308", "1.7976931348623158e308",
        "1.7976931348623159e308", "1e309", "1e400", "1e401", "1e999999999999999999999999999999999",
        "1e-999999999999999999999999999999999", "0e99999999999999999999999999999999999999",
        "4.9406564584124654e-324", "2.4703282292062327e-324", "2.4703282292062328e-324",
        "2.2250738585072011e-308", "2.2250738585072014e-308", "1e-400", "1e-500",
        "000000000000000000000000000000000000000000001", "0.1e1", "00.00", "inf", "-inf",
        "Infinity", "+INFINITY", "3.14159265358979323846264338327950288419716939937510",
        "6.02214076e23", "1.6e-35", "89255e-22", "5708990770823839207320493820740630171355185152",
        "2.22507385850720113605740979670913197593481954635164564e-308", "18446744073709551615",
        "18446744073709551616", "18446744073709551615e-19", "0018446744073709551616e-19",
        "184467440737095516.159",
    ];
    for t in texts {
        let expected: f64 = t.parse().unwrap();
        let got = read_number(t).unwrap();
        assert_eq!(got.bits, expected.to_bits(), "{t}");
    }
    for x in samples() {
        for t in [format!("{x}"), format!("{x:e}"), format!("{x:.30e}")] {
            let expected: f64 = t.parse().unwrap();
            assert_eq!(read_number(&t).unwrap().bits, expected.to_bits(), "{t}");
        }
    }
    for t in ["nan", "NaN", "-nan", "+NAN"] {
        assert!(read_number(t).unwrap().is_nan(), "{t}");
    }
}

#[test]
fn other_texts_are_no_numbers() {
    for t in [
        "", " ", "+", "-", ".", "e5", ".e5", "1e", "1e+", "1e-", "1.2.3", "1 ", " 1", "0x10", "1_000",
        "infin", "nanny", "--1", "+-1", "1e5.0", "1e 5", "١",
    ] {
        assert!(read_number(t).is_none(), "{t:?}");
        assert!(t.parse::<f64>().is_err(), "{t:?}");
    }
}

#[test]
fn long_digit_strings_are_read_exactly() {
    // Just above, on and below the middle between two neighbours.
    let middle = "1.00000000000000011102230246251565404236316680908203125";
    assert_eq!(g(read_number(middle).unwrap()), 1.0);
    let above = format!("{middle}{}1", "0".repeat(700));
    assert_eq!(g(read_number(&above).unwrap()), 1.0000000000000002);
    let below = "1.00000000000000011102230246251565404236316680908203124999";
    assert_eq!(g(read_number(below).unwrap()), 1.0);
    let tiny = format!("0.{}1", "0".repeat(900));
    assert_eq!(read_number(&tiny).unwrap().bits, 0);
    let large = "1".repeat(400);
    assert_eq!(g(read_number(&large).unwrap()), f64::INFINITY);
}

#[test]
fn naturals_of_any_size() {
    let mut a = Natural::zero();
    assert!(a.is_zero());
    for _ in 0..50 {
        a = a.scaled(u32::MAX, u32::MAX);
    }
    let b = a.scaled(1, 1);
    assert!(b.at_least(&a));
    assert!(!a.at_least(&b));
    assert!(a.at_least(&a));
    assert!(!b.minus(&a).is_zero());
    assert!(b.minus(&a).minus(&Natural::zero().scaled(0, 1)).is_zero());
    assert!(a.minus(&a).is_zero());
}
