use vstd::prelude::*;

verus! {

/// Aggregate outcome counts of a repeated measurement of one qubit.
pub struct MeasurementResult {
    pub zero: u64,
    pub one: u64,
    pub shots: u64,
    pub qubit: u64,
}

impl MeasurementResult {
    /// Fresh result for `shots` draws on `qubit`, with nothing counted yet.
    pub fn new(qubit: u64, shots: u64) -> (r: MeasurementResult)
        ensures
            r.zero == 0,
            r.one == 0,
            r.shots == shots,
            r.qubit == qubit,
    {
        MeasurementResult { zero: 0, one: 0, shots, qubit }
    }

    /// Count one draw: a zero outcome raises the zero counter, a one
    /// outcome the one counter, and nothing else changes.
    pub fn record(&mut self, outcome_is_zero: bool)
        requires
            old(self).zero + old(self).one < old(self).shots,
        ensures
            outcome_is_zero ==> final(self).zero == old(self).zero + 1 && final(self).one == old(self).one,
            !outcome_is_zero ==> final(self).one == old(self).one + 1 && final(self).zero == old(self).zero,
            final(self).shots == old(self).shots,
            final(self).qubit == old(self).qubit,
    {
        if outcome_is_zero {
            self.zero = self.zero + 1;
        } else {
            self.one = self.one + 1;
        }
    }

}

} // verus!
