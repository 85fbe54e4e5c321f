use vstd::prelude::*;

verus! {

/// One candidate function-body mutation plus its measured outcome.
pub struct Experiment {
    /// Location of the source file holding the candidate function.
    pub path: String,
    /// Byte position just past the opening brace of the function's
    /// signature; the insertion point of the no-op mutation.
    pub offset: usize,
    /// Instructions counted for the rebuild with this mutation applied;
    /// `None` until the experiment runs, and still `None` if that build
    /// failed.
    pub measured_cost: Option<u64>,
}

impl Experiment {
    /// Record the outcome of this experiment's measurement run, leaving the
    /// mutation point untouched.
    pub fn record_measurement(&mut self, cost: Option<u64>)
        ensures
            final(self).path == old(self).path,
            final(self).offset == old(self).offset,
            final(self).measured_cost == cost,
    {
        self.measured_cost = cost;
    }
}

} // verus!
