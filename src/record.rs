use vstd::prelude::*;

verus! {

/// A configuration: `(population_size, num_generations)`.
pub type ConfigKey = (u32, u32);

/// What one run reported.
#[derive(Debug, Clone, Copy, PartialEq, Eq, Structural)]
pub enum Outcome {
    Success,
    /// A run time, as the bit pattern of an `f32`.
    RunTime(u32),
}

/// One parsed log line.
#[derive(Debug, Clone, Copy, PartialEq, Eq, Structural)]
pub struct Record {
    pub population_size: u32,
    pub num_generations: u32,
    pub run_number: u32,
    pub outcome: Outcome,
}

impl Record {
    pub open spec fn key(self) -> ConfigKey {
        (self.population_size, self.num_generations)
    }

    /// The configuration this record belongs to.
    pub fn config_key(&self) -> (r: ConfigKey)
        ensures
            r == self.key(),
    {
        (self.population_size, self.num_generations)
    }
}

} // verus!
