use vstd::prelude::*;

verus! {

/// The fixed catalog of physical dimensions, each with a canonical
/// display symbol.
#[derive(Debug, Clone, Copy, PartialEq, Eq, Structural)]
pub enum UnitTag {
    Voltage,
    Current,
    Resistance,
    Capacitance,
    Inductance,
    Charge,
    Power,
    Energy,
    Time,
    Frequency,
    Length,
    Area,
    Force,
    Pressure,
    MagneticFlux,
    FluxDensity,
    Conductance,
    Velocity,
    Accel,
    Temperature,
    Angle,
}

impl UnitTag {
    /// The canonical display symbol of the dimension.
    pub open spec fn symbol_spec(self) -> Seq<char> {
        match self {
            UnitTag::Voltage => seq!['V'],
            UnitTag::Current => seq!['A'],
            UnitTag::Resistance => seq!['Ω'],
            UnitTag::Capacitance => seq!['F'],
            UnitTag::Inductance => seq!['H'],
            UnitTag::Charge => seq!['Q'],
            UnitTag::Power => seq!['W'],
            UnitTag::Energy => seq!['J'],
            UnitTag::Time => seq!['s'],
            UnitTag::Frequency => seq!['H', 'z'],
            UnitTag::Length => seq!['m'],
            UnitTag::Area => seq!['m', '²'],
            UnitTag::Force => seq!['N'],
            UnitTag::Pressure => seq!['P', 'a'],
            UnitTag::MagneticFlux => seq!['W', 'b'],
            UnitTag::FluxDensity => seq!['T'],
            UnitTag::Conductance => seq!['S'],
            UnitTag::Velocity => seq!['m', '/', 's'],
            UnitTag::Accel => seq!['m', '/', 's', '²'],
            UnitTag::Temperature => seq!['K'],
            UnitTag::Angle => seq!['r', 'a', 'd'],
        }
    }
}

/// The registered multiplication facts: `output_of_spec(l, r)` is the
/// dimension of a product of an `l` by an `r`, where one is registered.
pub open spec fn output_of_spec(l: UnitTag, r: UnitTag) -> Option<UnitTag> {
    match (l, r) {
        (UnitTag::Resistance, UnitTag::Current) => Some(UnitTag::Voltage),
        (UnitTag::Voltage, UnitTag::Current) => Some(UnitTag::Power),
        (UnitTag::Power, UnitTag::Time) => Some(UnitTag::Energy),
        (UnitTag::Capacitance, UnitTag::Voltage) => Some(UnitTag::Charge),
        (UnitTag::Current, UnitTag::Time) => Some(UnitTag::Charge),
        (UnitTag::Charge, UnitTag::Time) => Some(UnitTag::Current),
        (UnitTag::Velocity, UnitTag::Time) => Some(UnitTag::Length),
        (UnitTag::Force, UnitTag::Velocity) => Some(UnitTag::Power),
        (UnitTag::Force, UnitTag::Length) => Some(UnitTag::Energy),
        (UnitTag::Pressure, UnitTag::Area) => Some(UnitTag::Force),
        (UnitTag::FluxDensity, UnitTag::Area) => Some(UnitTag::MagneticFlux),
        (UnitTag::Voltage, UnitTag::Time) => Some(UnitTag::MagneticFlux),
        (UnitTag::Length, UnitTag::Length) => Some(UnitTag::Area),
        _ => None,
    }
}

/// The division facts implied by the registry: `dividend_of_spec(o, d)`
/// is the dimension of an `o` divided by a `d`.
pub open spec fn dividend_of_spec(o: UnitTag, d: UnitTag) -> Option<UnitTag> {
    match (o, d) {
        (UnitTag::Voltage, UnitTag::Current) => Some(UnitTag::Resistance),
        (UnitTag::Voltage, UnitTag::Resistance) => Some(UnitTag::Current),
        (UnitTag::Power, UnitTag::Current) => Some(UnitTag::Voltage),
        (UnitTag::Power, UnitTag::Voltage) => Some(UnitTag::Current),
        (UnitTag::Energy, UnitTag::Time) => Some(UnitTag::Power),
        (UnitTag::Energy, UnitTag::Power) => Some(UnitTag::Time),
        (UnitTag::Charge, UnitTag::Voltage) => Some(UnitTag::Capacitance),
        (UnitTag::Charge, UnitTag::Capacitance) => Some(UnitTag::Voltage),
        (UnitTag::Charge, UnitTag::Time) => Some(UnitTag::Current),
        (UnitTag::Charge, UnitTag::Current) => Some(UnitTag::Time),
        (UnitTag::Current, UnitTag::Time) => Some(UnitTag::Charge),
        (UnitTag::Current, UnitTag::Charge) => Some(UnitTag::Time),
        (UnitTag::Length, UnitTag::Time) => Some(UnitTag::Velocity),
        (UnitTag::Length, UnitTag::Velocity) => Some(UnitTag::Time),
        (UnitTag::Power, UnitTag::Velocity) => Some(UnitTag::Force),
        (UnitTag::Power, UnitTag::Force) => Some(UnitTag::Velocity),
        (UnitTag::Energy, UnitTag::Length) => Some(UnitTag::Force),
        (UnitTag::Energy, UnitTag::Force) => Some(UnitTag::Length),
        (UnitTag::Force, UnitTag::Area) => Some(UnitTag::Pressure),
        (UnitTag::Force, UnitTag::Pressure) => Some(UnitTag::Area),
        (UnitTag::MagneticFlux, UnitTag::Area) => Some(UnitTag::FluxDensity),
        (UnitTag::MagneticFlux, UnitTag::FluxDensity) => Some(UnitTag::Area),
        (UnitTag::MagneticFlux, UnitTag::Time) => Some(UnitTag::Voltage),
        (UnitTag::MagneticFlux, UnitTag::Voltage) => Some(UnitTag::Time),
        (UnitTag::Area, UnitTag::Length) => Some(UnitTag::Length),
        _ => None,
    }
}

impl UnitTag {
    /// The canonical display symbol, as text.
    pub fn symbol(self) -> (r: &'static str)
        ensures
            r@ == self.symbol_spec(),
    {
        proof {
            reveal_strlit("V");
            reveal_strlit("A");
            reveal_strlit("Ω");
            reveal_strlit("F");
            reveal_strlit("H");
            reveal_strlit("Q");
            reveal_strlit("W");
            reveal_strlit("J");
            reveal_strlit("s");
            reveal_strlit("Hz");
            reveal_strlit("m");
            reveal_strlit("m²");
            reveal_strlit("N");
            reveal_strlit("Pa");
            reveal_strlit("Wb");
            reveal_strlit("T");
            reveal_strlit("S");
            reveal_strlit("m/s");
            reveal_strlit("m/s²");
            reveal_strlit("K");
            reveal_strlit("rad");
        }
        let r = match self {
            UnitTag::Voltage => "V",
            UnitTag::Current => "A",
            UnitTag::Resistance => "Ω",
            UnitTag::Capacitance => "F",
            UnitTag::Inductance => "H",
            UnitTag::Charge => "Q",
            UnitTag::Power => "W",
            UnitTag::Energy => "J",
            UnitTag::Time => "s",
            UnitTag::Frequency => "Hz",
            UnitTag::Length => "m",
            UnitTag::Area => "m²",
            UnitTag::Force => "N",
            UnitTag::Pressure => "Pa",
            UnitTag::MagneticFlux => "Wb",
            UnitTag::FluxDensity => "T",
            UnitTag::Conductance => "S",
            UnitTag::Velocity => "m/s",
            UnitTag::Accel => "m/s²",
            UnitTag::Temperature => "K",
            UnitTag::Angle => "rad",
        };
        proof {
            assert(r@ =~= self.symbol_spec());
        }
        r
    }
}

/// Looks up the dimension of a product, as the rule registry defines it.
pub fn output_of(l: UnitTag, r: UnitTag) -> (res: Option<UnitTag>)
    ensures
        res == output_of_spec(l, r),
{
    match (l, r) {
        (UnitTag::Resistance, UnitTag::Current) => Some(UnitTag::Voltage),
        (UnitTag::Voltage, UnitTag::Current) => Some(UnitTag::Power),
        (UnitTag::Power, UnitTag::Time) => Some(UnitTag::Energy),
        (UnitTag::Capacitance, UnitTag::Voltage) => Some(UnitTag::Charge),
        (UnitTag::Current, UnitTag::Time) => Some(UnitTag::Charge),
        (UnitTag::Charge, UnitTag::Time) => Some(UnitTag::Current),
        (UnitTag::Velocity, UnitTag::Time) => Some(UnitTag::Length),
        (UnitTag::Force, UnitTag::Velocity) => Some(UnitTag::Power),
        (UnitTag::Force, UnitTag::Length) => Some(UnitTag::Energy),
        (UnitTag::Pressure, UnitTag::Area) => Some(UnitTag::Force),
        (UnitTag::FluxDensity, UnitTag::Area) => Some(UnitTag::MagneticFlux),
        (UnitTag::Voltage, UnitTag::Time) => Some(UnitTag::MagneticFlux),
        (UnitTag::Length, UnitTag::Length) => Some(UnitTag::Area),
        _ => None,
    }
}

/// Looks up the dimension of a quotient, as the rule registry defines
/// it.
pub fn dividend_of(o: UnitTag, d: UnitTag) -> (res: Option<UnitTag>)
    ensures
        res == dividend_of_spec(o, d),
{
    match (o, d) {
        (UnitTag::Voltage, UnitTag::Current) => Some(UnitTag::Resistance),
        (UnitTag::Voltage, UnitTag::Resistance) => Some(UnitTag::Current),
        (UnitTag::Power, UnitTag::Current) => Some(UnitTag::Voltage),
        (UnitTag::Power, UnitTag::Voltage) => Some(UnitTag::Current),
        (UnitTag::Energy, UnitTag::Time) => Some(UnitTag::Power),
        (UnitTag::Energy, UnitTag::Power) => Some(UnitTag::Time),
        (UnitTag::Charge, UnitTag::Voltage) => Some(UnitTag::Capacitance),
        (UnitTag::Charge, UnitTag::Capacitance) => Some(UnitTag::Voltage),
        (UnitTag::Charge, UnitTag::Time) => Some(UnitTag::Current),
        (UnitTag::Charge, UnitTag::Current) => Some(UnitTag::Time),
        (UnitTag::Current, UnitTag::Time) => Some(UnitTag::Charge),
        (UnitTag::Current, UnitTag::Charge) => Some(UnitTag::Time),
        (UnitTag::Length, UnitTag::Time) => Some(UnitTag::Velocity),
        (UnitTag::Length, UnitTag::Velocity) => Some(UnitTag::Time),
        (UnitTag::Power, UnitTag::Velocity) => Some(UnitTag::Force),
        (UnitTag::Power, UnitTag::Force) => Some(UnitTag::Velocity),
        (UnitTag::Energy, UnitTag::Length) => Some(UnitTag::Force),
        (UnitTag::Energy, UnitTag::Force) => Some(UnitTag::Length),
        (UnitTag::Force, UnitTag::Area) => Some(UnitTag::Pressure),
        (UnitTag::Force, UnitTag::Pressure) => Some(UnitTag::Area),
        (UnitTag::MagneticFlux, UnitTag::Area) => Some(UnitTag::FluxDensity),
        (UnitTag::MagneticFlux, UnitTag::FluxDensity) => Some(UnitTag::Area),
        (UnitTag::MagneticFlux, UnitTag::Time) => Some(UnitTag::Voltage),
        (UnitTag::MagneticFlux, UnitTag::Voltage) => Some(UnitTag::Time),
        (UnitTag::Area, UnitTag::Length) => Some(UnitTag::Length),
        _ => None,
    }
}

/// The registry is closed under inverses: every registered product rule
/// carries its two division rules, each recovering one factor from the
/// output and the other factor.
pub proof fn lemma_registry_inverse_closed()
    ensures
        forall|l: UnitTag, r: UnitTag, o: UnitTag|
            output_of_spec(l, r) == Some(o) ==> dividend_of_spec(o, r) == Some(l)
                && dividend_of_spec(o, l) == Some(r),
{
}

/// Every division rule of the registry comes from a product rule: the
/// quotient times the divisor, in one of the two orders, is registered
/// and gives the dividend back.
pub proof fn lemma_division_facts_from_products()
    ensures
        forall|o: UnitTag, d: UnitTag, q: UnitTag|
            dividend_of_spec(o, d) == Some(q) ==> output_of_spec(q, d) == Some(o)
                || output_of_spec(d, q) == Some(o),
{
}

} // verus!
