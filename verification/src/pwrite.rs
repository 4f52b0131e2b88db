//! Writing at an offset.
//!
//! [`Pwrite`] writes a value of any type that implements
//! [`TryIntoCtx`](crate::ctx::TryIntoCtx) into a byte sequence, at a given
//! offset (`pwrite`) or at a cursor that moves on by what was written
//! (`gwrite`). The bytes before the offset are never touched.

use crate::ctx::{is_default, MeasureWith, TryIntoCtx};
use crate::error::Error;
use vstd::prelude::*;

verus! {

/// The outcome `r` of writing `n` at `offset` into bytes that were `before` and
/// are `after`.
///
/// An offset at or behind the end is refused and nothing is written. Else the
/// bytes before the offset stay, and the conversion says what became of the
/// bytes from the offset on.
pub open spec fn write_at<Ctx: Copy, N: TryIntoCtx<Ctx>>(
    n: N,
    ctx: Ctx,
    before: Seq<u8>,
    after: Seq<u8>,
    offset: usize,
    r: Result<usize, Error>,
) -> bool {
    &&& after.len() == before.len()
    &&& if offset >= before.len() {
        after == before && r == Err::<usize, Error>(Error::BadOffset(offset))
    } else {
        &&& after.take(offset as int) == before.take(offset as int)
        &&& match r {
            Ok(size) => offset + size <= before.len() && n.encode_ok(
                ctx,
                before.skip(offset as int),
                after.skip(offset as int),
                size,
            ),
            Err(e) => n.encode_err(ctx, before.skip(offset as int), after.skip(offset as int), e),
        }
    }
}

/// The outcome `r` of writing `n` at a cursor that stood at `start` and stands
/// at `end`: on success the cursor has moved on by what was written, on failure
/// it has not moved.
pub open spec fn write_next<Ctx: Copy, N: TryIntoCtx<Ctx>>(
    n: N,
    ctx: Ctx,
    before: Seq<u8>,
    after: Seq<u8>,
    start: usize,
    end: usize,
    r: Result<usize, Error>,
) -> bool {
    &&& write_at::<Ctx, N>(n, ctx, before, after, start, r)
    &&& match r {
        Ok(size) => end == start + size,
        Err(_) => end == start,
    }
}

/// Writing values at offsets of a byte sequence.
pub trait Pwrite<Ctx: Copy>: View<V = Seq<u8>> {
    /// Writes `n` at `offset` under the default context, and says how many
    /// bytes were written.
    fn pwrite<N: TryIntoCtx<Ctx>>(&mut self, n: N, offset: usize) -> (r: Result<
        usize,
        Error,
    >) where Ctx: Default
        ensures
            exists|ctx: Ctx|
                is_default(ctx) && #[trigger] write_at::<Ctx, N>(
                    n,
                    ctx,
                    old(self)@,
                    final(self)@,
                    offset,
                    r,
                ),
    ;

    /// Writes `n` at `offset` under `ctx`, and says how many bytes were
    /// written.
    fn pwrite_with<N: TryIntoCtx<Ctx>>(&mut self, n: N, offset: usize, ctx: Ctx) -> (r: Result<
        usize,
        Error,
    >)
        ensures
            write_at::<Ctx, N>(n, ctx, old(self)@, final(self)@, offset, r),
    ;

    /// Writes `n` at the cursor under the default context, and moves the
    /// cursor behind it.
    fn gwrite<N: TryIntoCtx<Ctx>>(&mut self, n: N, offset: &mut usize) -> (r: Result<
        usize,
        Error,
    >) where Ctx: Default
        ensures
            exists|ctx: Ctx|
                is_default(ctx) && #[trigger] write_next::<Ctx, N>(
                    n,
                    ctx,
                    old(self)@,
                    final(self)@,
                    *old(offset),
                    *final(offset),
                    r,
                ),
    ;

    /// Writes `n` at the cursor under `ctx`, and moves the cursor behind it.
    fn gwrite_with<N: TryIntoCtx<Ctx>>(&mut self, n: N, offset: &mut usize, ctx: Ctx) -> (r:
        Result<usize, Error>)
        ensures
            write_next::<Ctx, N>(
                n,
                ctx,
                old(self)@,
                final(self)@,
                *old(offset),
                *final(offset),
                r,
            ),
    ;
}

impl<Ctx: Copy> Pwrite<Ctx> for [u8] {
    fn pwrite<N: TryIntoCtx<Ctx>>(&mut self, n: N, offset: usize) -> (r: Result<
        usize,
        Error,
    >) where Ctx: Default {
        let ctx = Ctx::default();
        let r = self.pwrite_with(n, offset, ctx);
        assert(write_at::<Ctx, N>(n, ctx, old(self)@, self@, offset, r));
        r
    }

    fn pwrite_with<N: TryIntoCtx<Ctx>>(&mut self, n: N, offset: usize, ctx: Ctx) -> (r: Result<
        usize,
        Error,
    >)
        ensures
            r matches Ok(size) ==> offset + size <= usize::MAX,
    {
        let len = self.measure_with(&ctx);
        if offset >= len {
            return Err(Error::BadOffset(offset));
        }
        let (head, dst) = self.split_at_mut(offset);
        let r = n.try_into_ctx(dst, ctx);
        proof {
            let after = head@ + dst@;
            assert(after.take(offset as int) =~= old(self)@.take(offset as int));
            assert(after.skip(offset as int) =~= dst@);
            assert(old(self)@.skip(offset as int) =~= old(self)@.subrange(
                offset as int,
                old(self)@.len() as int,
            ));
        }
        r
    }

    fn gwrite<N: TryIntoCtx<Ctx>>(&mut self, n: N, offset: &mut usize) -> (r: Result<
        usize,
        Error,
    >) where Ctx: Default {
        let ctx = Ctx::default();
        let r = self.gwrite_with(n, offset, ctx);
        assert(write_next::<Ctx, N>(n, ctx, old(self)@, self@, *old(offset), *offset, r));
        r
    }

    fn gwrite_with<N: TryIntoCtx<Ctx>>(&mut self, n: N, offset: &mut usize, ctx: Ctx) -> (r:
        Result<usize, Error>) {
        let o = *offset;
        match self.pwrite_with(n, o, ctx) {
            Ok(size) => {
                *offset = o + size;
                Ok(size)
            },
            Err(e) => Err(e),
        }
    }
}

} // verus!
