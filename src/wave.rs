//! Recorded waveforms: one sample per simulation step for each probed signal.

use crate::bits::{bits_of, Bits};
use vstd::prelude::*;

verus! {

/// The samples recorded for one signal, oldest first.
pub struct Wave {
    pub signal_name: String,
    pub width: usize,
    pub values: Vec<Bits>,
}

/// The bits of each sample of `values`.
pub open spec fn samples_of(values: Seq<Bits>) -> Seq<Seq<bool>> {
    values.map_values(|b: Bits| bits_of(b))
}

impl Wave {
    /// An empty wave for the signal at `signal_name`.
    pub fn new(signal_name: String, width: usize) -> (r: Wave)
        ensures
            r.signal_name@ == signal_name@,
            r.width == width,
            r.values@.len() == 0,
    {
        Wave { signal_name, width, values: Vec::new() }
    }

    /// Appends one sample; earlier samples stay as they were.
    pub fn push_sample(&mut self, value: Bits)
        ensures
            final(self).signal_name == old(self).signal_name,
            final(self).width == old(self).width,
            final(self).values@ == old(self).values@.push(value),
    {
        self.values.push(value);
    }
}

/// The waves of a session and the length of one simulation step.
pub struct SimulationResult {
    pub waves: Vec<Wave>,
    pub time_step_ps: usize,
}

impl Default for SimulationResult {
    fn default() -> (r: Self)
        ensures
            r.waves@.len() == 0,
            r.time_step_ps == 0,
    {
        SimulationResult { waves: Vec::new(), time_step_ps: 0 }
    }
}

} // verus!
