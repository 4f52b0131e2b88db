//! The conversions between values and bytes, each under a context.
//!
//! A type that can be read implements [`TryFromCtx`] and, where reading cannot
//! fail on enough bytes, [`FromCtx`]; a type that can be written implements
//! [`TryIntoCtx`] and [`IntoCtx`]. The context is a small value that the caller
//! hands over with each call: a byte order, a delimiter, a length. Every
//! conversion sees the bytes from the place of the value onward, so that offset
//! zero is where the value starts.

use crate::error::Error;
use vstd::prelude::*;

pub use crate::strings::{StrCtx, NULL, RET, SPACE, TAB};

verus! {

/// The context of the integer types, and of whatever has no context of its
/// own: a byte order.
pub type DefaultCtx = crate::endian::Endian;

/// `ctx` is a context that `Ctx::default()` can hand out.
pub open spec fn is_default<Ctx: Default>(ctx: Ctx) -> bool {
    call_ensures(Ctx::default, (), ctx)
}

/// The length of a byte sequence in the units of a context.
pub trait MeasureWith<Ctx> {
    /// The length that `measure_with` reports. Unless an implementation says
    /// what it is, nothing is known of it.
    open spec fn spec_measure_with(&self, ctx: &Ctx) -> usize {
        arbitrary()
    }

    fn measure_with(&self, ctx: &Ctx) -> (r: usize)
        ensures
            r == self.spec_measure_with(ctx),
    ;
}

/// The number of bytes that a value of the type takes under a context.
///
/// For a type that also implements the conversions, this is the number of bytes
/// that reading consumes and writing produces.
pub trait SizeWith<Ctx> {
    /// The size that `size_with` reports. Unless an implementation says what
    /// it is, nothing is known of it.
    open spec fn spec_size_with(ctx: &Ctx) -> usize {
        arbitrary()
    }

    fn size_with(ctx: &Ctx) -> (r: usize)
        ensures
            r == Self::spec_size_with(ctx),
    ;
}

/// Reading that cannot fail, from bytes known to be enough.
pub trait FromCtx<Ctx: Copy>: Sized {
    /// The byte sequences that a value can be read from. Unless an
    /// implementation names them, it has to read from every one.
    open spec fn readable(src: Seq<u8>, ctx: Ctx) -> bool {
        true
    }

    /// The value that the bytes spell. Unless an implementation says what it
    /// is, nothing is known of it.
    open spec fn spec_from_ctx(src: Seq<u8>, ctx: Ctx) -> Self {
        arbitrary()
    }

    fn from_ctx(src: &[u8], ctx: Ctx) -> (r: Self)
        requires
            Self::readable(src@, ctx),
        ensures
            r == Self::spec_from_ctx(src@, ctx),
    ;
}

/// Reading that can fail.
///
/// What reading yields is stated by two relations, one for each outcome, so
/// that a type whose values are borrowed views can state it over their
/// contents. Reading never consumes more than it was given.
pub trait TryFromCtx<'a, Ctx: Copy>: Sized {
    /// Reading `src` may yield `v` and consume `n` bytes. Unless an
    /// implementation says which values it yields, any is possible.
    open spec fn decode_ok(src: Seq<u8>, ctx: Ctx, v: Self, n: usize) -> bool {
        true
    }

    /// Reading `src` may fail with `e`. Unless an implementation says when it
    /// fails, any failure is possible.
    open spec fn decode_err(src: Seq<u8>, ctx: Ctx, e: Error) -> bool {
        true
    }

    fn try_from_ctx(src: &'a [u8], ctx: Ctx) -> (r: Result<(Self, usize), Error>)
        ensures
            match r {
                Ok((v, n)) => n <= src@.len() && Self::decode_ok(src@, ctx, v, n),
                Err(e) => Self::decode_err(src@, ctx, e),
            },
    ;
}

/// Writing that cannot fail, into a destination known to be large enough.
pub trait IntoCtx<Ctx: Copy>: Sized {
    /// The bytes that the value is written as. Unless an implementation says
    /// what they are, nothing is known of them.
    open spec fn spec_into_ctx(self, ctx: Ctx) -> Seq<u8> {
        arbitrary()
    }

    fn into_ctx(self, dst: &mut [u8], ctx: Ctx)
        requires
            self.spec_into_ctx(ctx).len() <= old(dst)@.len(),
        ensures
            final(dst)@ == self.spec_into_ctx(ctx) + old(dst)@.skip(
                self.spec_into_ctx(ctx).len() as int,
            ),
    ;
}

/// Writing that can fail.
///
/// As with [`TryFromCtx`], two relations state the outcome: over the
/// destination before and after the call, and the number of bytes written or
/// the failure.
pub trait TryIntoCtx<Ctx: Copy>: Sized {
    /// Writing into `before` may leave `after` and report `n` bytes written.
    /// Unless an implementation says what it writes, any outcome is possible.
    open spec fn encode_ok(self, ctx: Ctx, before: Seq<u8>, after: Seq<u8>, n: usize) -> bool {
        true
    }

    /// Writing into `before` may leave `after` and fail with `e`. Unless an
    /// implementation says when it fails, any failure is possible.
    open spec fn encode_err(self, ctx: Ctx, before: Seq<u8>, after: Seq<u8>, e: Error) -> bool {
        true
    }

    fn try_into_ctx(self, dst: &mut [u8], ctx: Ctx) -> (r: Result<usize, Error>)
        ensures
            final(dst)@.len() == old(dst)@.len(),
            match r {
                Ok(n) => n <= old(dst)@.len() && self.encode_ok(ctx, old(dst)@, final(dst)@, n),
                Err(e) => self.encode_err(ctx, old(dst)@, final(dst)@, e),
            },
    ;
}

impl<Ctx> MeasureWith<Ctx> for [u8] {
    open spec fn spec_measure_with(&self, ctx: &Ctx) -> usize {
        self@.len() as usize
    }

    fn measure_with(&self, ctx: &Ctx) -> (r: usize)
        ensures
            r == self@.len(),
    {
        self.len()
    }
}

impl<Ctx> MeasureWith<Ctx> for Vec<u8> {
    open spec fn spec_measure_with(&self, ctx: &Ctx) -> usize {
        self@.len() as usize
    }

    fn measure_with(&self, ctx: &Ctx) -> (r: usize)
        ensures
            r == self@.len(),
    {
        self.len()
    }
}

} // verus!
