use vstd::prelude::*;

use crate::check::{check_output, check_spec, CheckError};
use crate::reference::ReferenceSet;

verus! {

/// What the driver of a candidate is to do next.
#[derive(Debug, Clone, Copy, PartialEq, Eq, Structural)]
pub enum RunStep {
    /// Run the candidate once more and hand back its output for this size.
    Run { size: usize },
    /// Every size matched its reference output.
    Passed,
    /// The output for this size did not match; the run stops here.
    Failed { size: usize, error: CheckError },
}

/// The progress of one candidate through the sizes of a reference set, in
/// ascending order, stopping at the first size whose output does not match.
pub struct DifferentialRun {
    next: usize,
}

impl DifferentialRun {
    /// Index of the size whose output is awaited.
    pub closed spec fn pending(&self) -> nat {
        self.next as nat
    }

    /// Index, in the reference set, of the size whose output is awaited.
    pub fn pending_index(&self) -> (r: usize)
        ensures
            r == self.pending(),
    {
        self.next
    }

    /// Starts a run: the first size, or `Passed` at once for an empty set.
    pub fn start(set: &ReferenceSet) -> (r: (DifferentialRun, RunStep))
        ensures
            r.0.pending() == 0,
            r.1 == (if set@.len() == 0 {
                RunStep::Passed
            } else {
                RunStep::Run { size: set@[0].0 }
            }),
    {
        let run = DifferentialRun { next: 0 };
        if set.len() == 0 {
            (run, RunStep::Passed)
        } else {
            (run, RunStep::Run { size: set.size_at(0) })
        }
    }

    /// Takes the output of the run for the pending size and decides the next
    /// step: the next size, `Passed` after the last one, or `Failed` with the
    /// reason the comparison gives.
    pub fn on_output(&mut self, set: &ReferenceSet, out: &Vec<u8>) -> (r: RunStep)
        requires
            old(self).pending() < set@.len(),
        ensures
            ({
                let i = old(self).pending() as int;
                let size = set@[i].0;
                match r {
                    RunStep::Failed { size: s, error } => s == size && check_spec(
                        out@,
                        set@[i].1,
                        Err(error),
                    ) && final(self).pending() == old(self).pending(),
                    RunStep::Run { size: s } => check_spec(out@, set@[i].1, Ok(())) && i + 1
                        < set@.len() && s == set@[i + 1].0 && final(self).pending() == i + 1,
                    RunStep::Passed => check_spec(out@, set@[i].1, Ok(())) && i + 1 == set@.len()
                        && final(self).pending() == i + 1,
                }
            }),
    {
        let i = self.next;
        let n = set.len();
        let size = set.size_at(i);
        match check_output(out, set.output_at(i)) {
            Err(error) => RunStep::Failed { size, error },
            Ok(()) => {
                self.next = i + 1;
                if i + 1 < n {
                    RunStep::Run { size: set.size_at(i + 1) }
                } else {
                    RunStep::Passed
                }
            },
        }
    }
}

} // verus!
