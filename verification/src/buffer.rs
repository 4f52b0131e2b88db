//! A byte sequence that owns its bytes.

use crate::ctx::MeasureWith;
use crate::measure::Measure;
use vstd::prelude::*;

verus! {

/// Bytes that can be read from and written into.
pub struct Buffer {
    inner: Vec<u8>,
}

impl View for Buffer {
    type V = Seq<u8>;

    closed spec fn view(&self) -> Seq<u8> {
        self.inner@
    }
}

impl Buffer {
    /// A buffer that holds a copy of `bytes`.
    pub fn new(bytes: &[u8]) -> (r: Buffer)
        ensures
            r@ == bytes@,
    {
        Buffer { inner: vstd::slice::slice_to_vec(bytes) }
    }

    /// A buffer of `size` bytes, each of them `seed`.
    pub fn with(seed: u8, size: usize) -> (r: Buffer)
        ensures
            r@ == Seq::new(size as nat, |i: int| seed),
    {
        let mut inner: Vec<u8> = Vec::new();
        let mut i: usize = 0;
        while i < size
            invariant
                i <= size,
                inner@ == Seq::new(i as nat, |j: int| seed),
            decreases size - i,
        {
            inner.push(seed);
            i = i + 1;
            assert(inner@ =~= Seq::new(i as nat, |j: int| seed));
        }
        Buffer { inner }
    }

    /// The bytes.
    pub fn as_slice(&self) -> (r: &[u8])
        ensures
            r@ == self@,
    {
        self.inner.as_slice()
    }

    /// The bytes, to be written into. Their number stays.
    pub fn as_mut_slice(&mut self) -> (r: &mut [u8])
        ensures
            r@ == old(self)@,
            final(self)@ == final(r)@,
    {
        self.inner.as_mut_slice()
    }

    /// Gives up the buffer for the bytes it holds.
    pub fn into_inner(self) -> (r: Vec<u8>)
        ensures
            r@ == self@,
    {
        self.inner
    }
}

impl core::ops::Deref for Buffer {
    type Target = [u8];

    fn deref(&self) -> (r: &[u8])
        ensures
            r@ == self@,
    {
        self.inner.as_slice()
    }
}

impl core::ops::DerefMut for Buffer {
    fn deref_mut(&mut self) -> (r: &mut [u8])
        ensures
            r@ == old(self)@,
            final(self)@ == final(r)@,
    {
        self.inner.as_mut_slice()
    }
}

impl AsRef<[u8]> for Buffer {
    fn as_ref(&self) -> (r: &[u8])
        ensures
            r@ == self@,
    {
        self.inner.as_slice()
    }
}

impl AsMut<[u8]> for Buffer {
    fn as_mut(&mut self) -> (r: &mut [u8])
        ensures
            r@ == old(self)@,
            final(self)@ == final(r)@,
    {
        self.inner.as_mut_slice()
    }
}

impl Default for Buffer {
    /// The buffer without bytes.
    fn default() -> (r: Buffer)
        ensures
            r@ == Seq::<u8>::empty(),
    {
        Buffer { inner: Vec::new() }
    }
}

impl Measure for Buffer {
    open spec fn spec_measure(&self) -> usize {
        self@.len() as usize
    }

    fn measure(&self) -> (r: usize)
        ensures
            r == self@.len(),
    {
        self.inner.len()
    }
}

impl<Ctx> MeasureWith<Ctx> for Buffer {
    open spec fn spec_measure_with(&self, ctx: &Ctx) -> usize {
        self@.len() as usize
    }

    fn measure_with(&self, ctx: &Ctx) -> (r: usize)
        ensures
            r == self@.len(),
    {
        self.inner.len()
    }
}

} // verus!
