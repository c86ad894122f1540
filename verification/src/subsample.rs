//! The subsampler: a stride selector that keeps one of every `stride`
//! records, so that expensive per-record metrics can run on a sample.
//!
//! The counter starts at zero and is bumped on every record; a record is
//! selected exactly when the counter reaches the stride, which also resets
//! it. The first selected record is therefore the `stride`-th one seen, not
//! the first.
use vstd::prelude::*;
use vstd::arithmetic::div_mod::lemma_fundamental_div_mod_converse;
use crate::Error;

verus! {

/// Whether the record at position `i` (counted from zero) is selected under
/// the given stride: every `stride`-th record, starting with the
/// `stride`-th.
pub open spec fn selected(i: int, stride: int) -> bool {
    (i + 1) % stride == 0
}

/// A stride of one selects every record, and it selects exactly as many
/// records as the file holds.
pub proof fn lemma_stride_one_selects_all(n: int, i: int)
    requires
        0 <= i < n,
    ensures
        selected(i, 1),
        n / 1 == n,
{
    lemma_fundamental_div_mod_converse(i + 1, 1, i + 1, 0);
    lemma_fundamental_div_mod_converse(n, 1, n, 0);
}

/// Stateful stride selector.
pub struct Subsampler {
    pub stride: usize,
    pub counter: usize,
}

impl Subsampler {
    /// The counter stays strictly below the stride between observations.
    pub open spec fn wf(&self) -> bool {
        0 < self.stride && self.counter < self.stride
    }

    /// Builds a selector for a positive stride; a zero stride is rejected.
    pub fn new(stride: usize) -> (r: Result<Subsampler, Error>)
        ensures
            stride == 0 ==> r == Err::<Subsampler, Error>(Error::InvalidArgument),
            stride > 0 ==> (r matches Ok(s) && s.wf() && s.stride == stride && s.counter == 0),
    {
        if stride == 0 {
            Err(Error::InvalidArgument)
        } else {
            Ok(Subsampler { stride, counter: 0 })
        }
    }

    /// Observes one record; returns whether it is selected. The counter is
    /// bumped, and reset on selection.
    pub fn observe(&mut self) -> (sel: bool)
        requires
            old(self).wf(),
        ensures
            final(self).wf(),
            final(self).stride == old(self).stride,
            sel <==> old(self).counter + 1 == old(self).stride,
            final(self).counter == if sel {
                0int
            } else {
                old(self).counter + 1
            },
    {
        self.counter = self.counter + 1;
        if self.counter == self.stride {
            self.counter = 0;
            true
        } else {
            false
        }
    }
}

} // verus!
