use vstd::prelude::*;

verus! {

/// The number of parts that make a whole.
pub const BILLION: u32 = 1_000_000_000u32;

/// A fraction in parts per billion.
#[derive(Clone, Copy, Debug, PartialEq, Eq, Structural)]
pub struct Perbill {
    pub parts: u32,
}

impl Perbill {
    /// At most one whole.
    pub open spec fn valid(&self) -> bool {
        self.parts <= BILLION
    }

    /// The fraction of `parts` per billion, capped at one whole.
    pub fn from_parts(parts: u32) -> (p: Perbill)
        ensures
            p.valid(),
            p.parts == (if parts <= BILLION { parts } else { BILLION }),
    {
        if parts <= BILLION {
            Perbill { parts }
        } else {
            Perbill { parts: BILLION }
        }
    }
}

/// The yearly inflation rate and the rate at which it shrinks.
#[derive(Clone, Copy, Debug, PartialEq, Eq, Structural)]
pub struct InflationParameters {
    pub inflation_rate: Perbill,
    pub disinflation_rate: Perbill,
}

/// How inflation starts, shrinks and where it comes to rest.
#[derive(Clone, Copy, Debug, PartialEq, Eq, Structural)]
pub struct InflationConfiguration {
    pub inflation_parameters: InflationParameters,
    pub initial_disinflation: Perbill,
    pub inflation_stagnation_rate: Perbill,
    pub inflation_stagnation_year: u128,
}

impl InflationParameters {
    /// Both rates are at most one whole.
    pub open spec fn valid(&self) -> bool {
        self.inflation_rate.valid() && self.disinflation_rate.valid()
    }
}

impl InflationConfiguration {
    /// Every rate is at most one whole.
    pub open spec fn valid(&self) -> bool {
        self.inflation_parameters.valid() && self.initial_disinflation.valid()
            && self.inflation_stagnation_rate.valid()
    }
}

impl Default for InflationParameters {
    fn default() -> (p: InflationParameters)
        ensures
            p == (InflationParameters {
                inflation_rate: Perbill { parts: 0 },
                disinflation_rate: Perbill { parts: 0 },
            }),
    {
        InflationParameters {
            inflation_rate: Perbill { parts: 0 },
            disinflation_rate: Perbill { parts: 0 },
        }
    }
}

impl Default for InflationConfiguration {
    fn default() -> (c: InflationConfiguration)
        ensures
            c.valid(),
            c.inflation_stagnation_year == 0,
            c.initial_disinflation.parts == 0,
            c.inflation_stagnation_rate.parts == 0,
            c.inflation_parameters.inflation_rate.parts == 0,
            c.inflation_parameters.disinflation_rate.parts == 0,
    {
        InflationConfiguration {
            inflation_parameters: InflationParameters {
                inflation_rate: Perbill { parts: 0 },
                disinflation_rate: Perbill { parts: 0 },
            },
            initial_disinflation: Perbill { parts: 0 },
            inflation_stagnation_rate: Perbill { parts: 0 },
            inflation_stagnation_year: 0,
        }
    }
}

} // verus!
