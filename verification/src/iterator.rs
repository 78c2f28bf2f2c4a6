//! A trivial monotonically increasing counter, used as the record-identifier
//! generator.

use vstd::prelude::*;

verus! {

/// Hands out 0, 1, 2, ... on successive calls to `next`.
#[derive(Clone, Copy, Debug)]
pub struct BasicIterator {
    val: usize,
}

impl BasicIterator {
    pub closed spec fn spec_val(self) -> int {
        self.val as int
    }

    pub fn new() -> (it: BasicIterator)
        ensures
            it.spec_val() == 0,
    {
        BasicIterator { val: 0 }
    }

    pub fn next(&mut self) -> (v: usize)
        requires
            old(self).spec_val() < usize::MAX,
        ensures
            v as int == old(self).spec_val(),
            final(self).spec_val() == old(self).spec_val() + 1,
    {
        let v = self.val;
        self.val = self.val + 1;
        v
    }
}

impl Default for BasicIterator {
    fn default() -> (it: BasicIterator)
        ensures
            it.spec_val() == 0,
    {
        BasicIterator::new()
    }
}

} // verus!
