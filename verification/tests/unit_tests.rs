use runit::{
    Angle, Area, Capacitance, Charge, Current, Energy, FluxDensity, Force, Frequency, Length,
    Number, ParseError, Power, Pressure, Resistance, Scalar, Suffix, Temperature, Time, UnitTag,
    Velocity, Voltage,
};

fn sc(neg: bool, coeff: u64, exp: i32) -> Scalar {
    Scalar::new(neg, coeff, exp)
}

fn num(coeff: u64, exp: i32, suffix: Suffix) -> Number {
    Number::new(sc(false, coeff, exp), suffix)
}

#[test]
fn test_voltage_parsing() {
    let v = Voltage::from_str("5.6V").unwrap();
    assert_eq!(v.value(), num(56, -1, Suffix::Unity));

    let v = Voltage::from_str("3.3mV").unwrap();
    assert_eq!(v.value(), num(33, -1, Suffix::Milli));
}

#[test]
fn test_resistance_parsing() {
    let r = Resistance::from_str("10Ω").unwrap();
    assert_eq!(r.value(), num(10, 0, Suffix::Unity));

    let r = Resistance::from_str("2.2KΩ").unwrap();
    assert_eq!(r.value(), num(22, -1, Suffix::Kilo));
}

#[test]
fn test_invalid_unit() {
    let result = Voltage::from_str("5.6A");
    assert!(result.is_err());
    assert_eq!(result.unwrap_err().message(), "Expect end with 'V'");
}

#[test]
fn test_unit_with_whitespace() {
    let v = Voltage::from_str("  1.2uV ").unwrap();
    assert_eq!(v.value(), num(12, -1, Suffix::Micro));
}

#[test]
fn test_same_unit_add_sub() {
    let q1 = Charge::new(num(10, 0, Suffix::Milli));
    let q2 = Charge::new(num(5, 0, Suffix::Milli));
    let q3 = q1.add(q2);
    assert_eq!(q3.format(Some(1)), "15.0mQ");

    let t1 = Time::new(num(2, 0, Suffix::Micro));
    let t2 = Time::new(num(3, 0, Suffix::Micro));
    let t3 = t2.sub(t1);
    assert_eq!(t3.format(Some(0)), "1us");

    let v1 = Voltage::new(num(15, -1, Suffix::Unity));
    let v2 = Voltage::new(num(5, -1, Suffix::Unity));
    assert_eq!(v1.add(v2).format(None), "2V");

    let i1 = Current::new(num(1, 0, Suffix::Unity));
    let i2 = Current::new(num(1, -1, Suffix::Unity));
    assert_eq!(i1.sub(i2).format(Some(2)), "900.00mA");

    let r1 = Resistance::new(num(100, 0, Suffix::Unity));
    let r2 = Resistance::new(num(200, 0, Suffix::Unity));
    assert_eq!(r1.add(r2).format(None), "300Ω");

    let c1 = Capacitance::new(num(10, 0, Suffix::Unity));
    let c2 = Capacitance::new(num(5, 0, Suffix::Unity));
    assert_eq!(c1.sub(c2).format(Some(0)), "5F");

    let e1 = Energy::new(num(12, -1, Suffix::Unity));
    let e2 = Energy::new(num(8, -1, Suffix::Unity));
    assert_eq!(e1.add(e2).format(None), "2J");

    let f1 = Force::new(num(98, -1, Suffix::Unity));
    let f2 = Force::new(num(2, -1, Suffix::Unity));
    assert_eq!(f1.sub(f2).format(Some(1)), "9.6N");

    let t1 = Temperature::new(num(300, 0, Suffix::Unity));
    let t2 = Temperature::new(num(273, 0, Suffix::Unity));
    assert_eq!(t1.sub(t2).format(Some(0)), "27K");

    let a1 = Angle::new(num(1, 0, Suffix::Unity));
    let a2 = Angle::new(num(2, 0, Suffix::Unity));
    assert_eq!(a1.add(a2).format(None), "3rad");
}

#[test]
fn test_display_default() {
    let v = Voltage::new(num(31415926, -7, Suffix::Unity));
    assert_eq!(v.format(None), "3.1415926V");

    let i = Current::new(num(5, -3, Suffix::Unity));
    assert_eq!(i.format(None), "0.005A");

    let r = Resistance::new(num(220, 0, Suffix::Unity));
    assert_eq!(r.format(None), "220Ω");
}

#[test]
fn test_display_precision() {
    let v = Voltage::new(num(31415926, -7, Suffix::Unity));
    assert_eq!(v.format(Some(2)), "3.14V");
    assert_eq!(v.format(Some(4)), "3.1416V");

    let i = Current::new(num(1234, -7, Suffix::Unity));
    assert_eq!(i.format(Some(6)), "0.000123A");
}

#[test]
fn test_display_zero_and_negative() {
    let v = Voltage::new(Number::zero());
    assert_eq!(v.format(None), "0V");

    let i = Current::new(Number::new(sc(true, 123, -2), Suffix::Unity));
    assert_eq!(i.format(None), "-1.23A");
}

#[test]
fn test_display_scientific_values() {
    let big = Voltage::new(num(1, 6, Suffix::Unity));
    assert_eq!(big.format(None), "1000000V");

    let small = Current::new(num(1, -9, Suffix::Unity));
    assert_eq!(small.format(Some(2)), "0.00A");
}

#[test]
fn test_display_various_units() {
    let e = Energy::new(num(125, -1, Suffix::Unity));
    assert_eq!(e.format(None), "12.5J");

    let t = Time::new(num(1, -3, Suffix::Unity));
    assert_eq!(t.format(Some(3)), "0.001s");

    let f = Force::new(num(981, -2, Suffix::Unity));
    assert_eq!(f.format(None), "9.81N");

    let p = Pressure::new(num(101325, 0, Suffix::Unity));
    assert_eq!(p.format(Some(0)), "101325Pa");
}

#[test]
fn test_ohms_law_voltage() {
    let i = Current::new(num(2, 0, Suffix::Unity));
    let r = Resistance::new(num(5, 0, Suffix::Unity));
    let v = r.mul(i);
    assert_eq!(v.value(), num(10, 0, Suffix::Unity));
}

#[test]
fn test_power_from_voltage_current() {
    let v = Voltage::new(num(3, 0, Suffix::Unity));
    let i = Current::new(num(2, 0, Suffix::Unity));
    let p = v.mul(i);
    assert_eq!(p.value(), num(6, 0, Suffix::Unity));
}

#[test]
fn test_energy_from_power_time() {
    let p = Power::new(num(5, 0, Suffix::Unity));
    let t = Time::new(num(10, 0, Suffix::Unity));
    let e = p.mul(t);
    assert_eq!(e.value(), num(50, 0, Suffix::Unity));

    let p = Power::new(num(5, 0, Suffix::Milli));
    let t = Time::new(num(10, 0, Suffix::Unity));
    let e = p.mul(t);
    assert_eq!(e.value(), num(50, 0, Suffix::Milli));
}

#[test]
fn test_charge_from_capacitance_voltage() {
    let c = Capacitance::new(num(15, -1, Suffix::Unity));
    let v = Voltage::new(num(4, 0, Suffix::Unity));
    let q = c.mul(v);
    assert_eq!(q.value(), num(6, 0, Suffix::Unity));

    let c = Capacitance::new(num(15, -1, Suffix::Pico));
    let v = Voltage::new(num(4, 0, Suffix::Unity));
    let q = c.mul(v);
    assert_eq!(q.value(), num(6, 0, Suffix::Pico));
}

#[test]
fn test_current_from_charge_time() {
    let q = Charge::new(num(10, 0, Suffix::Unity));
    let t = Time::new(num(2, 0, Suffix::Unity));
    let i = q.div(t);
    assert_eq!(i.value(), num(5, 0, Suffix::Unity));

    let q = Charge::new(num(10, 0, Suffix::Milli));
    let t = Time::new(num(2, 0, Suffix::Micro));
    let i = q.div(t);
    assert_eq!(i.value(), num(5, 0, Suffix::Kilo));
}

#[test]
fn test_power_from_force_velocity() {
    let f = Force::new(num(3, 0, Suffix::Unity));
    let v = Velocity::new(num(4, 0, Suffix::Unity));
    let p = f.mul(v);
    assert_eq!(p.value(), num(12, 0, Suffix::Unity));
}

#[test]
fn test_energy_from_force_length() {
    let f = Force::new(num(10, 0, Suffix::Unity));
    let d = Length::new(num(2, 0, Suffix::Unity));
    let e = f.mul(d);
    assert_eq!(e.value(), num(20, 0, Suffix::Unity));
}

#[test]
fn test_velocity_time() {
    let v = Velocity::new(num(100, 0, Suffix::Unity));
    let t = Time::new(num(5, 0, Suffix::Unity));
    let s = v.mul(t);
    assert_eq!(s, Length::new(num(500, 0, Suffix::Unity)));
}

#[test]
fn test_pressure_from_force_area() {
    let f = Force::new(num(100, 0, Suffix::Unity));
    let a = Area::new(num(5, 0, Suffix::Unity));
    let p = f.div(a);
    assert_eq!(p.value(), num(20, 0, Suffix::Unity));
}

#[test]
fn test_flux_from_density_area() {
    let b = FluxDensity::new(num(2, 0, Suffix::Unity));
    let a = Area::new(num(3, 0, Suffix::Unity));
    let phi = b.mul(a);
    assert_eq!(phi.value(), num(6, 0, Suffix::Unity));
}

#[test]
fn test_div_self() {
    let t1 = Time::new(num(100, 0, Suffix::Unity));
    let t2 = Time::new(num(100, 0, Suffix::Unity));
    let s = t1.ratio(t2);
    assert_eq!(s, num(1, 0, Suffix::Unity))
}

#[test]
fn test_ohms_law_current_from_text() {
    let v = Voltage::from_str("12V").unwrap();
    let r = Resistance::from_str("6Ω").unwrap();
    let i = v.div(r);
    assert_eq!(i.to_absolute(), sc(false, 2, 0));
    assert_eq!(i.format(None), "2A");
}

#[test]
fn test_quantity_round_trip_concrete() {
    let r = Resistance::from_str("2.2kΩ").unwrap();
    let text = r.format(None);
    assert_eq!(text, "2.2KΩ");
    let back = Resistance::from_str(&text).unwrap();
    assert_eq!(back, r);

    let a = Velocity::new(Number::new(sc(true, 5, -1), Suffix::Milli));
    let text = a.format(None);
    assert_eq!(text, "-0.5mm/s");
    assert_eq!(Velocity::from_str(&text).unwrap(), a);
}

#[test]
fn test_period_and_frequency() {
    let f = Frequency::new(num(10, 0, Suffix::Unity));
    let t = f.to_period();
    assert_eq!(t.value(), num(100, 0, Suffix::Milli));

    let t = Time::new(num(2, 0, Suffix::Milli));
    let f = t.to_frquency();
    assert_eq!(f.value(), num(500, 0, Suffix::Unity));
}

#[test]
fn test_registry_lookups() {
    assert_eq!(
        runit::output_of(UnitTag::Resistance, UnitTag::Current),
        Some(UnitTag::Voltage)
    );
    assert_eq!(
        runit::dividend_of(UnitTag::Voltage, UnitTag::Current),
        Some(UnitTag::Resistance)
    );
    assert_eq!(
        runit::dividend_of(UnitTag::Area, UnitTag::Length),
        Some(UnitTag::Length)
    );
    assert_eq!(runit::output_of(UnitTag::Voltage, UnitTag::Voltage), None);
    assert_eq!(runit::dividend_of(UnitTag::Angle, UnitTag::Time), None);
}

#[test]
fn test_unit_mismatch_error_kind() {
    let r = Voltage::from_str("3.3A");
    assert_eq!(
        r.unwrap_err(),
        ParseError::UnitMismatch { expected: UnitTag::Voltage }
    );
    let r = Resistance::from_str("bad");
    assert_eq!(
        r.unwrap_err(),
        ParseError::UnitMismatch { expected: UnitTag::Resistance }
    );
    let r = Voltage::from_str("xyzV");
    assert_eq!(r.unwrap_err(), ParseError::InvalidNumericLiteral);
}
