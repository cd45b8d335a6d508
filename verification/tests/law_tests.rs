use runit::{Current, Length, Number, Resistance, Scalar, Suffix, Time, Velocity, Voltage};

fn sc(neg: bool, coeff: u64, exp: i32) -> Scalar {
    Scalar::new(neg, coeff, exp)
}

fn num(coeff: u64, exp: i32, suffix: Suffix) -> Number {
    Number::new(sc(false, coeff, exp), suffix)
}

#[test]
fn test_dimensional_consistency_concrete() {
    // a product of a resistance by a current is a voltage, with the
    // exact product of the absolute values, and dividing back by the
    // current recovers the resistance exactly on these operands
    let r = Resistance::new(num(47, 2, Suffix::Unity));
    let i = Current::new(num(3, -1, Suffix::Unity));
    let v = r.mul(i);
    assert_eq!(v.to_absolute(), sc(false, 141, 1));
    let r2 = v.div(i);
    assert_eq!(r2.to_absolute(), r.to_absolute());
}

#[test]
fn test_addition_renormalizes_fresh() {
    // a kilo-scaled and a micro-scaled addend renormalize from the sum's
    // own magnitude
    let a = num(33, -1, Suffix::Kilo);
    let b = num(22, -1, Suffix::Micro);
    let c = a.add(b);
    assert_eq!(c.suffix, Suffix::Kilo);
    assert_eq!(c.value, sc(false, 33000000022, -10));
    assert_eq!(c.to_absolute(), sc(false, 33000000022, -7));
}

#[test]
fn test_parse_scaled_number_scenario() {
    let a = Number::from_str("3.3K").unwrap();
    assert_eq!(a.value, sc(false, 33, -1));
    assert_eq!(a.suffix, Suffix::Kilo);
    assert_eq!(a.to_absolute(), sc(false, 33, 2));
}

#[test]
fn test_ordering_on_absolute_values() {
    let a = num(1, 0, Suffix::Kilo);
    let b = num(999999, -3, Suffix::Unity);
    assert!(b.lt(&a));
    assert!(!a.lt(&b));
    let c = num(1000, 0, Suffix::Unity);
    assert!(!a.lt(&c) && !c.lt(&a));
    let neg = Number::new(sc(true, 5, 0), Suffix::Unity);
    assert!(neg.lt(&Number::zero()));
    assert!(!Number::zero().lt(&neg));
}

#[test]
fn test_velocity_length_chain() {
    // a length over a time is a velocity; scaled back by the time it
    // gives the length
    let d = Length::new(num(500, 0, Suffix::Unity));
    let t = Time::new(num(5, 0, Suffix::Unity));
    let v: Velocity = d.div(t);
    assert_eq!(v.value(), num(100, 0, Suffix::Unity));
    let d2: Length = v.mul(t);
    assert_eq!(d2, d);
}

#[test]
fn test_round_trip_with_temperature_symbol() {
    // the unit symbol of temperature doubles as the kilo symbol; the
    // parser strips the unit first and the prefix second
    let t = runit::Temperature::from_str("0.3KK").unwrap();
    assert_eq!(t.value(), num(3, -1, Suffix::Kilo));
    assert_eq!(t.format(None), "0.3KK");

    let plain = runit::Temperature::from_str("300K").unwrap();
    assert_eq!(plain.value(), num(300, 0, Suffix::Unity));
    assert_eq!(plain.format(None), "300K");
}

#[test]
fn test_non_finite_propagation() {
    let x = num(1, 0, Suffix::Unity);
    let zero = Number::zero();
    let q = x.div(zero);
    assert_eq!(q.value, Scalar::Inf { neg: false });
    assert!(!q.is_finite());
    let nn = zero.div(zero);
    assert!(nn.is_nan());
    assert_eq!(nn.format(None), "NaN");
}

#[test]
fn test_parse_failure_kinds() {
    assert!(Voltage::from_str("5.6A").is_err());
    assert!(Number::from_str("hello").is_err());
    assert!(Number::from_str("").is_err());
    assert!(Number::from_str("3.3.3").is_err());
    assert!(Number::from_str("1e5e5").is_err());
}

#[test]
fn test_prefix_unit_collision() {
    // the length symbol collides with the milli symbol: the unit is
    // stripped first and the prefix second
    let d = Length::from_str("5mm").unwrap();
    assert_eq!(d.value(), num(5, 0, Suffix::Milli));
    let d2 = Length::from_str("5m").unwrap();
    assert_eq!(d2.value(), num(5, 0, Suffix::Unity));
}

#[test]
fn test_exponent_notation_input() {
    // exponent notation is read on input though never written on output
    let n = Number::from_str("1.5e3").unwrap();
    assert_eq!(n.value, sc(false, 15, 2));
    assert_eq!(n.format(None), "1500");
    let q = Voltage::from_str("2e-2V").unwrap();
    assert_eq!(q.value().value, sc(false, 2, -2));
}
