//! What a test driver measured: how many inputs it ran and for how long.
use vstd::prelude::*;

verus! {

/// The number of inputs a driver ran and the time it took, in microseconds.
#[derive(Default, Clone, Copy)]
pub struct Metrics {
    pub inputs: u64,
    pub elapsed_us: u128,
}

impl Metrics {
    /// The measurements of two runs taken together.
    pub fn combine(self, other: Metrics) -> (m: Metrics)
        requires
            self.inputs + other.inputs <= u64::MAX,
            self.elapsed_us + other.elapsed_us <= u128::MAX,
        ensures
            m.inputs == self.inputs + other.inputs,
            m.elapsed_us == self.elapsed_us + other.elapsed_us,
    {
        Metrics { inputs: self.inputs + other.inputs, elapsed_us: self.elapsed_us + other.elapsed_us }
    }
}

/// One step of running the properties in turn: the measurements so far
/// taken together with those of the next run, and the error that stops the
/// sequence when that run failed (`None` lets it go on).
pub fn record_run(total: Metrics, result: Result<(), String>, run: Metrics) -> (out: (Metrics, Option<String>))
    requires
        total.inputs + run.inputs <= u64::MAX,
        total.elapsed_us + run.elapsed_us <= u128::MAX,
    ensures
        out.0.inputs == total.inputs + run.inputs,
        out.0.elapsed_us == total.elapsed_us + run.elapsed_us,
        out.1 == match result {
            Ok(_) => None::<String>,
            Err(e) => Some(e),
        },
{
    let combined = total.combine(run);
    match result {
        Ok(_) => (combined, None),
        Err(e) => (combined, Some(e)),
    }
}

} // verus!
