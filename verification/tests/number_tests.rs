use runit::{Number, ParseError, Scalar, Suffix};

fn sc(neg: bool, coeff: u64, exp: i32) -> Scalar {
    Scalar::new(neg, coeff, exp)
}

fn num(coeff: u64, exp: i32, suffix: Suffix) -> Number {
    Number::new(sc(false, coeff, exp), suffix)
}

#[test]
fn test_prefix_factor_and_suffix() {
    assert_eq!(Suffix::Giga.factor(), 9);
    assert_eq!(Suffix::Micro.name(), "u");
    assert_eq!(Suffix::from_str("K"), Ok(Suffix::Kilo));
    assert_eq!(Suffix::from_str("z"), Err(()));
}

#[test]
fn test_number_new_and_to_f64() {
    let n = num(33, -1, Suffix::Kilo);
    assert_eq!(n.to_absolute(), sc(false, 33, 2));
}

#[test]
fn test_number_from_f64() {
    let n = Number::from_absolute(sc(false, 1, -6));
    assert_eq!(n.suffix, Suffix::Micro);
    assert_eq!(n.value, sc(false, 1, 0));

    let n2 = Number::from_absolute(sc(false, 1, 3));
    assert_eq!(n2.suffix, Suffix::Kilo);
}

#[test]
fn test_number_from_str() {
    let a = Number::from_str("3.3K").unwrap();
    assert_eq!(a.suffix, Suffix::Kilo);
    assert_eq!(a.value, sc(false, 33, -1));

    let b = Number::from_str("2.2u").unwrap();
    assert_eq!(b.suffix, Suffix::Micro);
    assert_eq!(b.value, sc(false, 22, -1));

    let c = Number::from_str("100").unwrap();
    assert_eq!(c.suffix, Suffix::Unity);
    assert_eq!(c.value, sc(false, 100, 0));

    assert!(Number::from_str("3.3X").is_err());
}

#[test]
fn test_display() {
    let a = num(123456, -5, Suffix::Milli);
    let s = a.format(None);
    assert_eq!(s, "1.23456m");
}

#[test]
fn test_number_arithmetic() {
    let a = num(33, -1, Suffix::Kilo); // 3300
    let b = num(22, -1, Suffix::Micro); // 2.2e-6

    let c = a.add(b);
    assert_eq!(c.to_absolute(), sc(false, 33000000022, -7));

    let d = a.sub(b);
    assert_eq!(d.to_absolute(), sc(false, 32999999978, -7));

    let e = a.mul(b);
    assert_eq!(e.to_absolute(), sc(false, 726, -5));

    let f = a.div(b);
    assert_eq!(f.to_absolute(), sc(false, 15, 8));
}

#[test]
fn test_number_f64_arithmetic() {
    let a = num(33, -1, Suffix::Kilo); // 3300
    let b = a.add(num(1, 0, Suffix::Unity));
    assert_eq!(b.to_absolute(), sc(false, 3301, 0));
}

#[test]
fn test_num_macro() {
    let a = num(33, -1, Suffix::Kilo);
    assert_eq!(a.suffix, Suffix::Kilo);
    assert_eq!(a.value, sc(false, 33, -1));

    let b = num(1, 0, Suffix::Micro);
    assert_eq!(b.suffix, Suffix::Micro);
    assert_eq!(b.value, sc(false, 1, 0));

    let c = num(100, 0, Suffix::Unity);
    assert_eq!(c.suffix, Suffix::Unity);
    assert_eq!(c.value, sc(false, 100, 0));
}

#[test]
fn test_scalar_parse_and_text() {
    assert_eq!(Scalar::parse("3.3"), Some(sc(false, 33, -1)));
    assert_eq!(Scalar::parse("-0.005"), Some(sc(true, 5, -3)));
    assert_eq!(Scalar::parse(".5"), Some(sc(false, 5, -1)));
    assert_eq!(Scalar::parse("5."), Some(sc(false, 5, 0)));
    assert_eq!(Scalar::parse("1e5"), Some(sc(false, 1, 5)));
    assert_eq!(Scalar::parse("2.5E-3"), Some(sc(false, 25, -4)));
    assert_eq!(Scalar::parse("hello"), None);
    assert_eq!(Scalar::parse(""), None);
    assert_eq!(Scalar::parse("1e"), None);
    assert_eq!(Scalar::parse("inf"), Some(Scalar::Inf { neg: false }));
    assert_eq!(Scalar::parse("-inf"), Some(Scalar::Inf { neg: true }));
    assert_eq!(Scalar::parse("NaN"), Some(Scalar::Nan));
    assert_eq!(sc(false, 33, 2).to_text(), "3300");
    assert_eq!(sc(true, 123, -2).to_text(), "-1.23");
    assert_eq!(sc(false, 5, -3).to_text(), "0.005");
    assert_eq!(Scalar::Nan.to_text(), "NaN");
    assert_eq!((Scalar::Inf { neg: true }).to_text(), "-inf");
}

#[test]
fn test_scalar_division_conventions() {
    let one = Scalar::one();
    let zero = Scalar::zero();
    assert_eq!(one.div(zero), Scalar::Inf { neg: false });
    assert_eq!(zero.div(zero), Scalar::Nan);
    assert_eq!(one.negated().div(zero), Scalar::Inf { neg: true });
    assert_eq!(one.div(Scalar::Inf { neg: false }), zero);
}

#[test]
fn test_number_round_trip_concrete() {
    let samples = [
        num(33, -1, Suffix::Kilo),
        num(22, -1, Suffix::Micro),
        num(1, 0, Suffix::Unity),
        num(123456, -5, Suffix::Milli),
        Number::new(sc(true, 96, -1), Suffix::Nano),
        Number::new(sc(false, 0, 0), Suffix::Unity),
        Number::new(sc(false, 1, 11), Suffix::Giga),
    ];
    for n in samples.iter() {
        let text = n.format(None);
        let back = Number::from_str(&text).unwrap();
        assert_eq!(back, *n);
        assert_eq!(back.format(None), text);
    }
}

#[test]
fn test_normalize_boundaries() {
    let n = Number::from_absolute(sc(false, 999999, -3));
    assert_eq!(n.suffix, Suffix::Unity);
    assert_eq!(n.value, sc(false, 999999, -3));

    let k = Number::from_absolute(sc(false, 1, 3));
    assert_eq!(k.suffix, Suffix::Kilo);
    assert_eq!(k.value, sc(false, 1, 0));

    let z = Number::from_absolute(Scalar::zero());
    assert_eq!(z.suffix, Suffix::Unity);
    assert_eq!(z.value, Scalar::zero());

    let tiny = Number::from_absolute(sc(false, 1, -13));
    assert_eq!(tiny.suffix, Suffix::Unity);
    assert_eq!(tiny.value, sc(false, 1, -13));
}

#[test]
fn test_invalid_literal_error() {
    let r = Number::from_str("hello");
    assert_eq!(r, Err(ParseError::InvalidNumericLiteral));
    assert_eq!(r.unwrap_err().message(), "invalid numeric literal");
}

#[test]
fn test_ceil_floor_round() {
    let a = num(25, -1, Suffix::Unity); // 2.5
    assert_eq!(a.round().value, sc(false, 3, 0));
    assert_eq!(a.ceil().value, sc(false, 3, 0));
    assert_eq!(a.floor().value, sc(false, 2, 0));

    let b = Number::new(sc(true, 12, -1), Suffix::Unity); // -1.2
    assert_eq!(b.ceil().value, sc(true, 1, 0));
    assert_eq!(b.floor().value, sc(true, 2, 0));
    assert_eq!(b.round().value, sc(true, 1, 0));

    let c = num(7, 0, Suffix::Milli);
    assert_eq!(c.ceil().value, sc(false, 7, 0));
    assert_eq!(c.ceil().suffix, Suffix::Milli);
}

#[test]
fn test_value_eq_across_prefixes() {
    let a = num(33, -1, Suffix::Kilo);
    let b = num(33, 2, Suffix::Unity);
    assert!(a.value_eq(&b));
    assert_ne!(a, b);
    let c = num(34, -1, Suffix::Kilo);
    assert!(!a.value_eq(&c));
}

#[test]
fn test_precision_rounding_half_even() {
    // ties round to the even neighbour, as the mantissa formatter does
    assert_eq!(sc(false, 25, -1).to_text_prec(0), "2");
    assert_eq!(sc(false, 35, -1).to_text_prec(0), "4");
    assert_eq!(sc(false, 125, -2).to_text_prec(1), "1.2");
    assert_eq!(sc(false, 31415926, -7).to_text_prec(2), "3.14");
    assert_eq!(sc(false, 31415926, -7).to_text_prec(4), "3.1416");
}

#[test]
fn test_negated_and_abs() {
    let a = num(5, 0, Suffix::Milli);
    assert_eq!(a.neg().value, sc(true, 5, 0));
    assert_eq!(a.neg().suffix, Suffix::Milli);
    assert_eq!(a.neg().abs().value, sc(false, 5, 0));
    assert_eq!(Number::zero().neg().value, Scalar::zero());
}
