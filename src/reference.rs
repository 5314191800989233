use vstd::prelude::*;

use crate::size::{is_pow2, is_power_of_two, SizeError};
use crate::text::Sample;

verus! {

/// The rounded reference output of each size, in ascending order of size.
pub struct ReferenceSet {
    entries: Vec<(usize, Vec<Sample>)>,
}

/// Why an output could not be added to a reference set.
#[derive(Debug, Clone, Copy, PartialEq, Eq, Structural)]
pub enum ReferenceError {
    /// The size is not a power of two.
    Size(SizeError),
    /// The output's length differs from its size.
    LengthMismatch,
}

/// `i` is the place of `size` in the ascending sequence `s`.
pub open spec fn placed_at(s: Seq<(usize, Seq<Sample>)>, size: usize, i: int) -> bool {
    &&& 0 <= i <= s.len()
    &&& forall|j: int| 0 <= j < i ==> (#[trigger] s[j]).0 < size
    &&& forall|j: int| i <= j < s.len() ==> size <= (#[trigger] s[j]).0
}

/// `s` with `(size, out)` put at place `i`, replacing an entry of the same size.
pub open spec fn with_entry(s: Seq<(usize, Seq<Sample>)>, i: int, size: usize, out: Seq<Sample>) -> Seq<(usize, Seq<Sample>)> {
    if i < s.len() && s[i].0 == size {
        s.update(i, (size, out))
    } else {
        s.insert(i, (size, out))
    }
}

impl ReferenceSet {
    /// The sizes in order, each with its output.
    pub closed spec fn view(&self) -> Seq<(usize, Seq<Sample>)> {
        self.entries@.map_values(|e: (usize, Vec<Sample>)| (e.0, e.1@))
    }

    /// Sizes are powers of two, strictly ascending, and each output has as
    /// many samples as its size.
    pub open spec fn wf(&self) -> bool {
        &&& forall|i: int, j: int| 0 <= i < j < self@.len() ==> self@[i].0 < self@[j].0
        &&& forall|i: int|
            0 <= i < self@.len() ==> is_pow2(#[trigger] self@[i].0 as nat) && self@[i].1.len()
                == self@[i].0
    }

    pub fn new() -> (r: ReferenceSet)
        ensures
            r.wf(),
            r@ == Seq::<(usize, Seq<Sample>)>::empty(),
    {
        let r = ReferenceSet { entries: Vec::new() };
        assert(r@ =~= Seq::<(usize, Seq<Sample>)>::empty());
        r
    }

    pub fn len(&self) -> (r: usize)
        ensures
            r == self@.len(),
    {
        self.entries.len()
    }

    /// The size of the `i`-th entry.
    pub fn size_at(&self, i: usize) -> (r: usize)
        requires
            i < self@.len(),
        ensures
            r == self@[i as int].0,
    {
        self.entries[i].0
    }

    /// The reference output of the `i`-th entry.
    pub fn output_at(&self, i: usize) -> (r: &Vec<Sample>)
        requires
            i < self@.len(),
        ensures
            r@ == self@[i as int].1,
    {
        &self.entries[i].1
    }

    /// Adds the output of `size` at its place in ascending order, replacing
    /// an earlier output of the same size.
    pub fn insert(&mut self, size: usize, output: Vec<Sample>) -> (r: Result<(), ReferenceError>)
        requires
            old(self).wf(),
        ensures
            final(self).wf(),
            !is_pow2(size as nat) ==> r == Err::<(), ReferenceError>(
                ReferenceError::Size(SizeError::NotPowerOfTwo),
            ),
            is_pow2(size as nat) && output@.len() != size ==> r == Err::<(), ReferenceError>(
                ReferenceError::LengthMismatch,
            ),
            r is Err ==> final(self)@ == old(self)@,
            is_pow2(size as nat) && output@.len() == size ==> r is Ok && exists|i: int|
                placed_at(old(self)@, size, i) && final(self)@ == with_entry(old(self)@, i, size, output@),
    {
        if !is_power_of_two(size) {
            return Err(ReferenceError::Size(SizeError::NotPowerOfTwo));
        }
        if output.len() != size {
            return Err(ReferenceError::LengthMismatch);
        }
        let ghost before = self@;
        let mut i: usize = 0;
        while i < self.entries.len() && self.entries[i].0 < size
            invariant
                i <= self.entries.len(),
                self@ == before,
                self.wf(),
                forall|j: int| 0 <= j < i ==> (#[trigger] before[j]).0 < size,
            decreases self.entries.len() - i,
        {
            i = i + 1;
        }
        proof {
            assert forall|j: int| i <= j < before.len() implies size <= (#[trigger] before[j]).0 by {
                if j > i {
                    assert(before[i as int].0 < before[j].0);
                }
            }
        }
        if i < self.entries.len() && self.entries[i].0 == size {
            self.entries.set(i, (size, output));
            assert(self@ =~= before.update(i as int, (size, output@)));
        } else {
            self.entries.insert(i, (size, output));
            assert(self@ =~= before.insert(i as int, (size, output@)));
        }
        assert(placed_at(before, size, i as int));
        assert(self@ == with_entry(before, i as int, size, output@));
        Ok(())
    }
}

} // verus!
