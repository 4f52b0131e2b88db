//! The length of a byte sequence.

use vstd::prelude::*;

verus! {

/// Something that has a length in bytes.
pub trait Measure {
    /// The length that `measure` reports. Unless an implementation says what
    /// it is, nothing is known of it.
    open spec fn spec_measure(&self) -> usize {
        arbitrary()
    }

    fn measure(&self) -> (r: usize)
        ensures
            r == self.spec_measure(),
    ;
}

impl Measure for [u8] {
    open spec fn spec_measure(&self) -> usize {
        self@.len() as usize
    }

    fn measure(&self) -> (r: usize)
        ensures
            r == self@.len(),
    {
        self.len()
    }
}

impl Measure for Vec<u8> {
    open spec fn spec_measure(&self) -> usize {
        self@.len() as usize
    }

    fn measure(&self) -> (r: usize)
        ensures
            r == self@.len(),
    {
        self.len()
    }
}

} // verus!
