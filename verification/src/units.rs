use vstd::prelude::*;
use core::marker::PhantomData;
use vstd::string::StrSliceExecFns;
use crate::number::{Number, ParseError, trim, trim_spec, number_parse_spec};
use crate::registry::{UnitTag, output_of_spec, dividend_of_spec};
use crate::scalar::Scalar;

verus! {

/// A dimension marker: a zero-size type standing for one entry of the
/// unit catalog, used as the type-level tag of a quantity.
pub trait Unit: Sized {
    /// The catalog entry this marker stands for.
    spec fn tag() -> UnitTag;

    /// The canonical display symbol of the dimension.
    fn name() -> (r: &'static str)
        ensures
            r@ == Self::tag().symbol_spec(),
    ;

    /// The catalog entry this marker stands for, as a runtime value.
    fn tag_of() -> (r: UnitTag)
        ensures
            r == Self::tag(),
    ;
}

/// A registered product rule at the type level: a quantity tagged `Self`
/// times one tagged `R` is a quantity tagged `Output`. Each impl proves
/// its rule registered, so the type-level rules and the runtime registry
/// cannot drift apart.
pub trait MulRule<R: Unit>: Unit {
    type Output: Unit;

    proof fn rule_registered()
        ensures
            output_of_spec(Self::tag(), R::tag()) == Some(<Self as MulRule<R>>::Output::tag()),
    ;
}

/// A registered division rule at the type level: a quantity tagged
/// `Self` over one tagged `R` is a quantity tagged `Output`.
pub trait DivRule<R: Unit>: Unit {
    type Output: Unit;

    proof fn rule_registered()
        ensures
            dividend_of_spec(Self::tag(), R::tag()) == Some(<Self as DivRule<R>>::Output::tag()),
    ;
}

#[derive(Debug, Clone, Copy, PartialEq, Eq)]
pub struct VoltageUnit;

impl Unit for VoltageUnit {
    open spec fn tag() -> UnitTag {
        UnitTag::Voltage
    }

    fn tag_of() -> (r: UnitTag) {
        UnitTag::Voltage
    }

    fn name() -> (r: &'static str) {
        proof {
            reveal_strlit("V");
        }
        let r = "V";
        proof {
            assert(r@ =~= seq!['V']);
        }
        r
    }
}

#[derive(Debug, Clone, Copy, PartialEq, Eq)]
pub struct CurrentUnit;

impl Unit for CurrentUnit {
    open spec fn tag() -> UnitTag {
        UnitTag::Current
    }

    fn tag_of() -> (r: UnitTag) {
        UnitTag::Current
    }

    fn name() -> (r: &'static str) {
        proof {
            reveal_strlit("A");
        }
        let r = "A";
        proof {
            assert(r@ =~= seq!['A']);
        }
        r
    }
}

#[derive(Debug, Clone, Copy, PartialEq, Eq)]
pub struct ResistanceUnit;

impl Unit for ResistanceUnit {
    open spec fn tag() -> UnitTag {
        UnitTag::Resistance
    }

    fn tag_of() -> (r: UnitTag) {
        UnitTag::Resistance
    }

    fn name() -> (r: &'static str) {
        proof {
            reveal_strlit("Ω");
        }
        let r = "Ω";
        proof {
            assert(r@ =~= seq!['Ω']);
        }
        r
    }
}

#[derive(Debug, Clone, Copy, PartialEq, Eq)]
pub struct CapacitanceUnit;

impl Unit for CapacitanceUnit {
    open spec fn tag() -> UnitTag {
        UnitTag::Capacitance
    }

    fn tag_of() -> (r: UnitTag) {
        UnitTag::Capacitance
    }

    fn name() -> (r: &'static str) {
        proof {
            reveal_strlit("F");
        }
        let r = "F";
        proof {
            assert(r@ =~= seq!['F']);
        }
        r
    }
}

#[derive(Debug, Clone, Copy, PartialEq, Eq)]
pub struct InductanceUnit;

impl Unit for InductanceUnit {
    open spec fn tag() -> UnitTag {
        UnitTag::Inductance
    }

    fn tag_of() -> (r: UnitTag) {
        UnitTag::Inductance
    }

    fn name() -> (r: &'static str) {
        proof {
            reveal_strlit("H");
        }
        let r = "H";
        proof {
            assert(r@ =~= seq!['H']);
        }
        r
    }
}

#[derive(Debug, Clone, Copy, PartialEq, Eq)]
pub struct ChargeUnit;

impl Unit for ChargeUnit {
    open spec fn tag() -> UnitTag {
        UnitTag::Charge
    }

    fn tag_of() -> (r: UnitTag) {
        UnitTag::Charge
    }

    fn name() -> (r: &'static str) {
        proof {
            reveal_strlit("Q");
        }
        let r = "Q";
        proof {
            assert(r@ =~= seq!['Q']);
        }
        r
    }
}

#[derive(Debug, Clone, Copy, PartialEq, Eq)]
pub struct PowerUnit;

impl Unit for PowerUnit {
    open spec fn tag() -> UnitTag {
        UnitTag::Power
    }

    fn tag_of() -> (r: UnitTag) {
        UnitTag::Power
    }

    fn name() -> (r: &'static str) {
        proof {
            reveal_strlit("W");
        }
        let r = "W";
        proof {
            assert(r@ =~= seq!['W']);
        }
        r
    }
}

#[derive(Debug, Clone, Copy, PartialEq, Eq)]
pub struct EnergyUnit;

impl Unit for EnergyUnit {
    open spec fn tag() -> UnitTag {
        UnitTag::Energy
    }

    fn tag_of() -> (r: UnitTag) {
        UnitTag::Energy
    }

    fn name() -> (r: &'static str) {
        proof {
            reveal_strlit("J");
        }
        let r = "J";
        proof {
            assert(r@ =~= seq!['J']);
        }
        r
    }
}

#[derive(Debug, Clone, Copy, PartialEq, Eq)]
pub struct TimeUnit;

impl Unit for TimeUnit {
    open spec fn tag() -> UnitTag {
        UnitTag::Time
    }

    fn tag_of() -> (r: UnitTag) {
        UnitTag::Time
    }

    fn name() -> (r: &'static str) {
        proof {
            reveal_strlit("s");
        }
        let r = "s";
        proof {
            assert(r@ =~= seq!['s']);
        }
        r
    }
}

#[derive(Debug, Clone, Copy, PartialEq, Eq)]
pub struct FrequencyUnit;

impl Unit for FrequencyUnit {
    open spec fn tag() -> UnitTag {
        UnitTag::Frequency
    }

    fn tag_of() -> (r: UnitTag) {
        UnitTag::Frequency
    }

    fn name() -> (r: &'static str) {
        proof {
            reveal_strlit("Hz");
        }
        let r = "Hz";
        proof {
            assert(r@ =~= seq!['H', 'z']);
        }
        r
    }
}

#[derive(Debug, Clone, Copy, PartialEq, Eq)]
pub struct LengthUnit;

impl Unit for LengthUnit {
    open spec fn tag() -> UnitTag {
        UnitTag::Length
    }

    fn tag_of() -> (r: UnitTag) {
        UnitTag::Length
    }

    fn name() -> (r: &'static str) {
        proof {
            reveal_strlit("m");
        }
        let r = "m";
        proof {
            assert(r@ =~= seq!['m']);
        }
        r
    }
}

#[derive(Debug, Clone, Copy, PartialEq, Eq)]
pub struct AreaUnit;

impl Unit for AreaUnit {
    open spec fn tag() -> UnitTag {
        UnitTag::Area
    }

    fn tag_of() -> (r: UnitTag) {
        UnitTag::Area
    }

    fn name() -> (r: &'static str) {
        proof {
            reveal_strlit("m²");
        }
        let r = "m²";
        proof {
            assert(r@ =~= seq!['m', '²']);
        }
        r
    }
}

#[derive(Debug, Clone, Copy, PartialEq, Eq)]
pub struct ForceUnit;

impl Unit for ForceUnit {
    open spec fn tag() -> UnitTag {
        UnitTag::Force
    }

    fn tag_of() -> (r: UnitTag) {
        UnitTag::Force
    }

    fn name() -> (r: &'static str) {
        proof {
            reveal_strlit("N");
        }
        let r = "N";
        proof {
            assert(r@ =~= seq!['N']);
        }
        r
    }
}

#[derive(Debug, Clone, Copy, PartialEq, Eq)]
pub struct PressureUnit;

impl Unit for PressureUnit {
    open spec fn tag() -> UnitTag {
        UnitTag::Pressure
    }

    fn tag_of() -> (r: UnitTag) {
        UnitTag::Pressure
    }

    fn name() -> (r: &'static str) {
        proof {
            reveal_strlit("Pa");
        }
        let r = "Pa";
        proof {
            assert(r@ =~= seq!['P', 'a']);
        }
        r
    }
}

#[derive(Debug, Clone, Copy, PartialEq, Eq)]
pub struct MagneticFluxUnit;

impl Unit for MagneticFluxUnit {
    open spec fn tag() -> UnitTag {
        UnitTag::MagneticFlux
    }

    fn tag_of() -> (r: UnitTag) {
        UnitTag::MagneticFlux
    }

    fn name() -> (r: &'static str) {
        proof {
            reveal_strlit("Wb");
        }
        let r = "Wb";
        proof {
            assert(r@ =~= seq!['W', 'b']);
        }
        r
    }
}

#[derive(Debug, Clone, Copy, PartialEq, Eq)]
pub struct FluxDensityUnit;

impl Unit for FluxDensityUnit {
    open spec fn tag() -> UnitTag {
        UnitTag::FluxDensity
    }

    fn tag_of() -> (r: UnitTag) {
        UnitTag::FluxDensity
    }

    fn name() -> (r: &'static str) {
        proof {
            reveal_strlit("T");
        }
        let r = "T";
        proof {
            assert(r@ =~= seq!['T']);
        }
        r
    }
}

#[derive(Debug, Clone, Copy, PartialEq, Eq)]
pub struct ConductanceUnit;

impl Unit for ConductanceUnit {
    open spec fn tag() -> UnitTag {
        UnitTag::Conductance
    }

    fn tag_of() -> (r: UnitTag) {
        UnitTag::Conductance
    }

    fn name() -> (r: &'static str) {
        proof {
            reveal_strlit("S");
        }
        let r = "S";
        proof {
            assert(r@ =~= seq!['S']);
        }
        r
    }
}

#[derive(Debug, Clone, Copy, PartialEq, Eq)]
pub struct VelocityUnit;

impl Unit for VelocityUnit {
    open spec fn tag() -> UnitTag {
        UnitTag::Velocity
    }

    fn tag_of() -> (r: UnitTag) {
        UnitTag::Velocity
    }

    fn name() -> (r: &'static str) {
        proof {
            reveal_strlit("m/s");
        }
        let r = "m/s";
        proof {
            assert(r@ =~= seq!['m', '/', 's']);
        }
        r
    }
}

#[derive(Debug, Clone, Copy, PartialEq, Eq)]
pub struct AccelUnit;

impl Unit for AccelUnit {
    open spec fn tag() -> UnitTag {
        UnitTag::Accel
    }

    fn tag_of() -> (r: UnitTag) {
        UnitTag::Accel
    }

    fn name() -> (r: &'static str) {
        proof {
            reveal_strlit("m/s²");
        }
        let r = "m/s²";
        proof {
            assert(r@ =~= seq!['m', '/', 's', '²']);
        }
        r
    }
}

#[derive(Debug, Clone, Copy, PartialEq, Eq)]
pub struct TemperatureUnit;

impl Unit for TemperatureUnit {
    open spec fn tag() -> UnitTag {
        UnitTag::Temperature
    }

    fn tag_of() -> (r: UnitTag) {
        UnitTag::Temperature
    }

    fn name() -> (r: &'static str) {
        proof {
            reveal_strlit("K");
        }
        let r = "K";
        proof {
            assert(r@ =~= seq!['K']);
        }
        r
    }
}

#[derive(Debug, Clone, Copy, PartialEq, Eq)]
pub struct AngleUnit;

impl Unit for AngleUnit {
    open spec fn tag() -> UnitTag {
        UnitTag::Angle
    }

    fn tag_of() -> (r: UnitTag) {
        UnitTag::Angle
    }

    fn name() -> (r: &'static str) {
        proof {
            reveal_strlit("rad");
        }
        let r = "rad";
        proof {
            assert(r@ =~= seq!['r', 'a', 'd']);
        }
        r
    }
}

impl MulRule<CurrentUnit> for ResistanceUnit {
    type Output = VoltageUnit;

    proof fn rule_registered() {
    }
}

impl MulRule<CurrentUnit> for VoltageUnit {
    type Output = PowerUnit;

    proof fn rule_registered() {
    }
}

impl MulRule<TimeUnit> for PowerUnit {
    type Output = EnergyUnit;

    proof fn rule_registered() {
    }
}

impl MulRule<VoltageUnit> for CapacitanceUnit {
    type Output = ChargeUnit;

    proof fn rule_registered() {
    }
}

impl MulRule<TimeUnit> for CurrentUnit {
    type Output = ChargeUnit;

    proof fn rule_registered() {
    }
}

impl MulRule<TimeUnit> for ChargeUnit {
    type Output = CurrentUnit;

    proof fn rule_registered() {
    }
}

impl MulRule<TimeUnit> for VelocityUnit {
    type Output = LengthUnit;

    proof fn rule_registered() {
    }
}

impl MulRule<VelocityUnit> for ForceUnit {
    type Output = PowerUnit;

    proof fn rule_registered() {
    }
}

impl MulRule<LengthUnit> for ForceUnit {
    type Output = EnergyUnit;

    proof fn rule_registered() {
    }
}

impl MulRule<AreaUnit> for PressureUnit {
    type Output = ForceUnit;

    proof fn rule_registered() {
    }
}

impl MulRule<AreaUnit> for FluxDensityUnit {
    type Output = MagneticFluxUnit;

    proof fn rule_registered() {
    }
}

impl MulRule<TimeUnit> for VoltageUnit {
    type Output = MagneticFluxUnit;

    proof fn rule_registered() {
    }
}

impl MulRule<LengthUnit> for LengthUnit {
    type Output = AreaUnit;

    proof fn rule_registered() {
    }
}

impl DivRule<CurrentUnit> for VoltageUnit {
    type Output = ResistanceUnit;

    proof fn rule_registered() {
    }
}

impl DivRule<ResistanceUnit> for VoltageUnit {
    type Output = CurrentUnit;

    proof fn rule_registered() {
    }
}

impl DivRule<CurrentUnit> for PowerUnit {
    type Output = VoltageUnit;

    proof fn rule_registered() {
    }
}

impl DivRule<VoltageUnit> for PowerUnit {
    type Output = CurrentUnit;

    proof fn rule_registered() {
    }
}

impl DivRule<TimeUnit> for EnergyUnit {
    type Output = PowerUnit;

    proof fn rule_registered() {
    }
}

impl DivRule<PowerUnit> for EnergyUnit {
    type Output = TimeUnit;

    proof fn rule_registered() {
    }
}

impl DivRule<VoltageUnit> for ChargeUnit {
    type Output = CapacitanceUnit;

    proof fn rule_registered() {
    }
}

impl DivRule<CapacitanceUnit> for ChargeUnit {
    type Output = VoltageUnit;

    proof fn rule_registered() {
    }
}

impl DivRule<TimeUnit> for ChargeUnit {
    type Output = CurrentUnit;

    proof fn rule_registered() {
    }
}

impl DivRule<CurrentUnit> for ChargeUnit {
    type Output = TimeUnit;

    proof fn rule_registered() {
    }
}

impl DivRule<TimeUnit> for CurrentUnit {
    type Output = ChargeUnit;

    proof fn rule_registered() {
    }
}

impl DivRule<ChargeUnit> for CurrentUnit {
    type Output = TimeUnit;

    proof fn rule_registered() {
    }
}

impl DivRule<TimeUnit> for LengthUnit {
    type Output = VelocityUnit;

    proof fn rule_registered() {
    }
}

impl DivRule<VelocityUnit> for LengthUnit {
    type Output = TimeUnit;

    proof fn rule_registered() {
    }
}

impl DivRule<VelocityUnit> for PowerUnit {
    type Output = ForceUnit;

    proof fn rule_registered() {
    }
}

impl DivRule<ForceUnit> for PowerUnit {
    type Output = VelocityUnit;

    proof fn rule_registered() {
    }
}

impl DivRule<LengthUnit> for EnergyUnit {
    type Output = ForceUnit;

    proof fn rule_registered() {
    }
}

impl DivRule<ForceUnit> for EnergyUnit {
    type Output = LengthUnit;

    proof fn rule_registered() {
    }
}

impl DivRule<AreaUnit> for ForceUnit {
    type Output = PressureUnit;

    proof fn rule_registered() {
    }
}

impl DivRule<PressureUnit> for ForceUnit {
    type Output = AreaUnit;

    proof fn rule_registered() {
    }
}

impl DivRule<AreaUnit> for MagneticFluxUnit {
    type Output = FluxDensityUnit;

    proof fn rule_registered() {
    }
}

impl DivRule<FluxDensityUnit> for MagneticFluxUnit {
    type Output = AreaUnit;

    proof fn rule_registered() {
    }
}

impl DivRule<TimeUnit> for MagneticFluxUnit {
    type Output = VoltageUnit;

    proof fn rule_registered() {
    }
}

impl DivRule<VoltageUnit> for MagneticFluxUnit {
    type Output = TimeUnit;

    proof fn rule_registered() {
    }
}

impl DivRule<LengthUnit> for AreaUnit {
    type Output = LengthUnit;

    proof fn rule_registered() {
    }
}

/// A dimensioned quantity: a scaled number tagged, at the type level,
/// with exactly one unit of the catalog.
#[derive(Debug, PartialEq, Eq)]
pub struct UnitNumber<U> {
    pub number: Number,
    pub unit: PhantomData<U>,
}

impl<U> Clone for UnitNumber<U> {
    fn clone(&self) -> (r: Self)
        ensures
            r == *self,
    {
        UnitNumber { number: self.number, unit: PhantomData }
    }
}

impl<U> Copy for UnitNumber<U> {

}

pub type Voltage = UnitNumber<VoltageUnit>;
pub type Current = UnitNumber<CurrentUnit>;
pub type Resistance = UnitNumber<ResistanceUnit>;
pub type Capacitance = UnitNumber<CapacitanceUnit>;
pub type Inductance = UnitNumber<InductanceUnit>;
pub type Charge = UnitNumber<ChargeUnit>;
pub type Power = UnitNumber<PowerUnit>;
pub type Energy = UnitNumber<EnergyUnit>;
pub type Time = UnitNumber<TimeUnit>;
pub type Frequency = UnitNumber<FrequencyUnit>;
pub type Length = UnitNumber<LengthUnit>;
pub type Area = UnitNumber<AreaUnit>;
pub type Force = UnitNumber<ForceUnit>;
pub type Pressure = UnitNumber<PressureUnit>;
pub type MagneticFlux = UnitNumber<MagneticFluxUnit>;
pub type FluxDensity = UnitNumber<FluxDensityUnit>;
pub type Conductance = UnitNumber<ConductanceUnit>;
pub type Velocity = UnitNumber<VelocityUnit>;
pub type Accel = UnitNumber<AccelUnit>;
pub type Temperature = UnitNumber<TemperatureUnit>;
pub type Angle = UnitNumber<AngleUnit>;

impl<U: Unit> UnitNumber<U> {
    pub open spec fn wf(self) -> bool {
        self.number.wf()
    }

    /// Wraps a scaled number under this unit tag.
    pub fn new(number: Number) -> (r: Self)
        ensures
            r.number == number,
    {
        UnitNumber { number, unit: PhantomData }
    }

    /// The wrapped scaled number.
    pub fn value(&self) -> (r: Number)
        ensures
            r == self.number,
    {
        self.number
    }

    /// The absolute value of the quantity.
    pub fn to_absolute(&self) -> (r: Scalar)
        requires
            self.wf(),
        ensures
            r == self.number.to_absolute_spec(),
            r.wf(),
    {
        self.number.to_absolute()
    }

    pub fn is_nan(self) -> (r: bool)
        requires
            self.wf(),
        ensures
            r == self.number.to_absolute_spec().is_nan_spec(),
    {
        self.number.is_nan()
    }

    pub fn is_finite(self) -> (r: bool)
        requires
            self.wf(),
        ensures
            r == self.number.to_absolute_spec().is_finite_spec(),
    {
        self.number.is_finite()
    }

    /// The sum of two quantities of the same unit; the tag is kept and
    /// the number renormalizes as scaled-number addition does.
    pub fn add(self, rhs: Self) -> (r: Self)
        requires
            self.wf(),
            rhs.wf(),
        ensures
            r.number == self.number.add_spec(rhs.number),
            r.wf(),
    {
        UnitNumber { number: self.number.add(rhs.number), unit: PhantomData }
    }

    /// The difference of two quantities of the same unit.
    pub fn sub(self, rhs: Self) -> (r: Self)
        requires
            self.wf(),
            rhs.wf(),
        ensures
            r.number == self.number.sub_spec(rhs.number),
            r.wf(),
    {
        UnitNumber { number: self.number.sub(rhs.number), unit: PhantomData }
    }

    /// The same quantity under the opposite sign.
    pub fn neg(self) -> (r: Self)
        requires
            self.wf(),
        ensures
            r.number == (Number { value: self.number.value.negated_spec(), suffix: self.number.suffix }),
            r.wf(),
    {
        UnitNumber { number: self.number.neg(), unit: PhantomData }
    }

    /// The magnitude of the quantity, tag kept.
    pub fn abs(self) -> (r: Self)
        requires
            self.wf(),
        ensures
            r.number == (Number { value: self.number.value.abs_spec(), suffix: self.number.suffix }),
            r.wf(),
    {
        UnitNumber { number: self.number.abs(), unit: PhantomData }
    }

    /// The product of two quantities whose unit pair is registered: the
    /// result carries the rule's output tag, and its number is the
    /// scaled-number product.
    pub fn mul<R: Unit>(self, rhs: UnitNumber<R>) -> (r: UnitNumber<<U as MulRule<R>>::Output>) where
        U: MulRule<R>,

        requires
            self.wf(),
            rhs.wf(),
        ensures
            r.number == self.number.mul_spec(rhs.number),
            r.wf(),
            output_of_spec(U::tag(), R::tag()) == Some(<U as MulRule<R>>::Output::tag()),
    {
        proof {
            <U as MulRule<R>>::rule_registered();
        }
        UnitNumber { number: self.number.mul(rhs.number), unit: PhantomData }
    }

    /// The quotient of two quantities whose unit pair is registered for
    /// division: the result carries the rule's output tag.
    pub fn div<R: Unit>(self, rhs: UnitNumber<R>) -> (r: UnitNumber<<U as DivRule<R>>::Output>) where
        U: DivRule<R>,

        requires
            self.wf(),
            rhs.wf(),
        ensures
            r.number == self.number.div_spec(rhs.number),
            r.wf(),
            dividend_of_spec(U::tag(), R::tag()) == Some(<U as DivRule<R>>::Output::tag()),
    {
        proof {
            <U as DivRule<R>>::rule_registered();
        }
        UnitNumber { number: self.number.div(rhs.number), unit: PhantomData }
    }

    /// The ratio of two quantities of the same unit: a dimensionless
    /// scaled number, never a quantity.
    pub fn ratio(self, rhs: Self) -> (r: Number)
        requires
            self.wf(),
            rhs.wf(),
        ensures
            r == self.number.div_spec(rhs.number),
            r.wf(),
    {
        self.number.div(rhs.number)
    }

    /// Scales the quantity by a bare number; the tag is unchanged.
    pub fn mul_number(self, rhs: Number) -> (r: Self)
        requires
            self.wf(),
            rhs.wf(),
        ensures
            r.number == self.number.mul_spec(rhs),
            r.wf(),
    {
        UnitNumber { number: self.number.mul(rhs), unit: PhantomData }
    }

    /// Divides the quantity by a bare number; the tag is unchanged.
    pub fn div_number(self, rhs: Number) -> (r: Self)
        requires
            self.wf(),
            rhs.wf(),
        ensures
            r.number == self.number.div_spec(rhs),
            r.wf(),
    {
        UnitNumber { number: self.number.div(rhs), unit: PhantomData }
    }

    /// Rounds the mantissa up to an integer, tag and prefix kept.
    pub fn ceil(self) -> (r: Self)
        requires
            self.wf(),
        ensures
            r.number == (Number { value: self.number.value.ceil_spec(), suffix: self.number.suffix }),
            r.wf(),
    {
        UnitNumber { number: self.number.ceil(), unit: PhantomData }
    }

    /// Rounds the mantissa down to an integer, tag and prefix kept.
    pub fn floor(self) -> (r: Self)
        requires
            self.wf(),
        ensures
            r.number == (Number { value: self.number.value.floor_spec(), suffix: self.number.suffix }),
            r.wf(),
    {
        UnitNumber { number: self.number.floor(), unit: PhantomData }
    }

    /// Rounds the mantissa to the nearest integer, tag and prefix kept.
    pub fn round(self) -> (r: Self)
        requires
            self.wf(),
        ensures
            r.number == (Number { value: self.number.value.round_spec(), suffix: self.number.suffix }),
            r.wf(),
    {
        UnitNumber { number: self.number.round(), unit: PhantomData }
    }

    /// The strict order on absolute values; only quantities of the same
    /// unit can meet here, so comparing across dimensions is a type
    /// error.
    pub fn lt(&self, o: &Self) -> (r: bool)
        requires
            self.wf(),
            o.wf(),
        ensures
            r == self.number.to_absolute_spec().lt_spec(o.number.to_absolute_spec()),
    {
        self.number.lt(&o.number)
    }

    /// Whether two quantities of the same unit stand for the same
    /// absolute value.
    pub fn value_eq(&self, o: &Self) -> (r: bool)
        requires
            self.wf(),
            o.wf(),
        ensures
            r == (self.number.to_absolute_spec() == o.number.to_absolute_spec()),
    {
        self.number.value_eq(&o.number)
    }

    /// The text of a quantity: the number's text followed by the unit's
    /// symbol.
    pub open spec fn text_of(self, prec: Option<usize>) -> Seq<char> {
        self.number.text_of(prec) + U::tag().symbol_spec()
    }

    /// Renders the quantity, with the mantissa at the given precision
    /// when one is given.
    pub fn format(&self, prec: Option<usize>) -> (r: String)
        requires
            self.wf(),
        ensures
            r@ == self.text_of(prec),
    {
        let mut out = self.number.format(prec);
        out.append(U::name());
        out
    }

    /// What reading a quantity gives: the trimmed input must end with
    /// exactly the unit's symbol, and the rest must read as a scaled
    /// number; otherwise the unit mismatch is reported.
    pub open spec fn parse_spec_of(t: Seq<char>) -> Result<Self, ParseError> {
        let tr = trim_spec(t);
        let sym = U::tag().symbol_spec();
        if tr.len() >= sym.len() && tr.subrange(tr.len() - sym.len(), tr.len() as int) == sym {
            match number_parse_spec(tr.subrange(0, tr.len() - sym.len())) {
                Result::Ok(n) => Ok(UnitNumber { number: n, unit: PhantomData }),
                Result::Err(e) => Err(e),
            }
        } else {
            Err(ParseError::UnitMismatch { expected: U::tag() })
        }
    }

    /// Reads a quantity from text.
    pub fn from_str(s: &str) -> (r: Result<Self, ParseError>)
        ensures
            r == Self::parse_spec_of(s@),
            r matches Ok(q) ==> q.wf(),
    {
        let t = trim(s);
        let n = t.unicode_len();
        let sym = U::name();
        let k = sym.unicode_len();
        let mut ok = n >= k;
        if ok {
            let mut j: usize = 0;
            loop
                invariant
                    n == t@.len(),
                    k == sym@.len(),
                    k <= n,
                    0 <= j <= k,
                    forall|q: int| 0 <= q < j ==> t@[n - k + q] == sym@[q],
                ensures
                    0 <= j <= k,
                    forall|q: int| 0 <= q < j ==> t@[n - k + q] == sym@[q],
                    j == k || t@[n - k + j] != sym@[j as int],
                decreases k - j,
            {
                if j >= k {
                    break ;
                }
                if t.get_char(n - k + j) != sym.get_char(j) {
                    break ;
                }
                j = j + 1;
            }
            ok = j == k;
            proof {
                if j == k {
                    assert(t@.subrange(n - k, n as int) =~= sym@);
                } else {
                    assert(t@.subrange(n - k, n as int) != sym@) by {
                        if t@.subrange(n - k, n as int) == sym@ {
                            assert(t@.subrange(n - k, n as int)[j as int] == sym@[j as int]);
                        }
                    }
                }
            }
        }
        if ok {
            let head = t.substring_char(0, n - k);
            match Number::from_str(head) {
                Ok(num) => Ok(UnitNumber { number: num, unit: PhantomData }),
                Err(e) => Err(e),
            }
        } else {
            proof {
                assert(t@.subrange(t@.len() - sym@.len(), t@.len() as int) != sym@ || t@.len()
                    < sym@.len());
            }
            Err(ParseError::UnitMismatch { expected: U::tag_of() })
        }
    }
}

impl Frequency {
    /// The period of a frequency: the reciprocal, tagged as a time.
    pub fn to_period(&self) -> (r: Time)
        requires
            self.wf(),
        ensures
            r.number == Number::from_absolute_spec(
                Scalar::one_spec().div_spec(self.number.to_absolute_spec()),
            ),
            r.wf(),
    {
        let one = Number::new(Scalar::one(), crate::suffix::Suffix::Unity);
        UnitNumber { number: one.div(self.number), unit: PhantomData }
    }
}

impl Time {
    /// The frequency of a period: the reciprocal, tagged as a frequency.
    pub fn to_frquency(&self) -> (r: Frequency)
        requires
            self.wf(),
        ensures
            r.number == Number::from_absolute_spec(
                Scalar::one_spec().div_spec(self.number.to_absolute_spec()),
            ),
            r.wf(),
    {
        let one = Number::new(Scalar::one(), crate::suffix::Suffix::Unity);
        UnitNumber { number: one.div(self.number), unit: PhantomData }
    }
}

} // verus!
