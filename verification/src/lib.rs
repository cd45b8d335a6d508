mod arith;
mod laws;
mod scalar;
mod number;
mod registry;
mod suffix;
mod text;
mod units;

pub use suffix::Suffix;
pub use registry::{UnitTag, output_of, dividend_of};
pub use scalar::Scalar;
pub use number::{Number, ParseError};
pub use units::{
    Unit, UnitNumber, MulRule, DivRule, Voltage, Current, Resistance, Capacitance, Inductance,
    Charge, Power, Energy, Time, Frequency, Length, Area, Force, Pressure, MagneticFlux,
    FluxDensity, Conductance, Velocity, Accel, Temperature, Angle, VoltageUnit, CurrentUnit,
    ResistanceUnit, CapacitanceUnit, InductanceUnit, ChargeUnit, PowerUnit, EnergyUnit, TimeUnit,
    FrequencyUnit, LengthUnit, AreaUnit, ForceUnit, PressureUnit, MagneticFluxUnit,
    FluxDensityUnit, ConductanceUnit, VelocityUnit, AccelUnit, TemperatureUnit, AngleUnit,
};
pub use laws::{
    lemma_number_round_trip, lemma_unit_round_trip, lemma_div_self, lemma_same_unit_ratio_one,
    lemma_mul_exact, lemma_product_dimensions, lemma_normalize_picks_largest,
};
pub use registry::{output_of_spec, dividend_of_spec, lemma_registry_inverse_closed,
    lemma_division_facts_from_products};
pub use scalar::scaled;
pub use suffix::{lemma_factors_strictly_decrease, lemma_symbols_faithful};
pub use text::{text_spec, prec_text_spec, parse_spec, lemma_text_round_trip};
pub use number::{number_parse_spec, trim_spec, trim};
