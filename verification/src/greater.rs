//! Reading and writing at a cursor, and access without an error path.
//!
//! [`Gread`] and [`Gwrite`] move a cursor on by what was consumed or written.
//! [`Cread`] and [`Cwrite`] take an offset and cannot fail: the caller has to
//! know that the bytes are there.

use crate::ctx::{is_default, FromCtx, IntoCtx, SizeWith, TryFromCtx, TryIntoCtx};
use crate::error::Error;
use crate::pread::{read_batch, read_next, Pread};
use crate::pwrite::{write_next, Pwrite};
use vstd::prelude::*;

verus! {

// ---------------------------------------------------------------------------
// Does a value of a given size fit at an offset?
// ---------------------------------------------------------------------------
/// The outcome `r` of asking whether `size` bytes fit at `offset` in `src`:
/// the size where they do, else the range that was asked for, its end clamped
/// to the largest offset there is, and the length of `src`.
pub open spec fn offset_fits(src: Seq<u8>, offset: usize, size: usize, r: Result<usize, Error>) -> bool {
    if offset + size <= src.len() {
        r == Ok::<usize, Error>(size)
    } else {
        r == Err::<usize, Error>(
            Error::BadRange {
                range: offset..(if offset + size > usize::MAX {
                    usize::MAX
                } else {
                    (offset + size) as usize
                }),
                size: src.len() as usize,
            },
        )
    }
}

/// Asking a byte sequence whether a value fits at an offset.
pub trait TryOffsetWith<Ctx>: View<V = Seq<u8>> {
    /// The size of an `N` under `ctx`, where an `N` fits at `offset`.
    fn try_offset<N: SizeWith<Ctx>>(&self, offset: usize, ctx: &Ctx) -> (r: Result<usize, Error>)
        ensures
            offset_fits(self@, offset, N::spec_size_with(ctx), r),
    ;
}

impl<Ctx> TryOffsetWith<Ctx> for [u8] {
    fn try_offset<N: SizeWith<Ctx>>(&self, offset: usize, ctx: &Ctx) -> (r: Result<usize, Error>) {
        let size = N::size_with(ctx);
        let len = self.len();
        if offset > len || size > len - offset {
            Err(Error::BadRange { range: offset..offset.saturating_add(size), size: len })
        } else {
            Ok(size)
        }
    }
}

// ---------------------------------------------------------------------------
// Cursors
// ---------------------------------------------------------------------------
/// Reading at a cursor.
pub trait Gread<Ctx: Copy>: View<V = Seq<u8>> {
    /// Reads a value at the cursor under the default context, and moves the
    /// cursor behind it.
    fn gread<'a, N: TryFromCtx<'a, Ctx>>(&'a self, offset: &mut usize) -> (r: Result<
        N,
        Error,
    >) where Ctx: Default
        ensures
            exists|ctx: Ctx|
                is_default(ctx) && #[trigger] read_next::<Ctx, N>(
                    self@,
                    *old(offset),
                    *final(offset),
                    ctx,
                    r,
                ),
    ;

    /// Reads a value at the cursor under `ctx`, and moves the cursor behind
    /// it.
    fn gread_with<'a, N: TryFromCtx<'a, Ctx>>(&'a self, offset: &mut usize, ctx: Ctx) -> (r:
        Result<N, Error>)
        ensures
            read_next::<Ctx, N>(self@, *old(offset), *final(offset), ctx, r),
    ;

    /// Fills `inout` with values read one after the other from the cursor on,
    /// under the default context. Stops at the first failure.
    fn gread_inout<'a, N: TryFromCtx<'a, Ctx>>(
        &'a self,
        offset: &mut usize,
        inout: &mut [N],
    ) -> (r: Result<(), Error>) where Ctx: Default
        ensures
            exists|ctx: Ctx|
                is_default(ctx) && #[trigger] read_batch::<Ctx, N>(
                    self@,
                    *old(offset),
                    *final(offset),
                    ctx,
                    old(inout)@,
                    final(inout)@,
                    r,
                ),
    ;

    /// Fills `inout` with values read one after the other from the cursor on,
    /// under `ctx`. Stops at the first failure.
    fn gread_inout_with<'a, N: TryFromCtx<'a, Ctx>>(
        &'a self,
        offset: &mut usize,
        inout: &mut [N],
        ctx: Ctx,
    ) -> (r: Result<(), Error>)
        ensures
            read_batch::<Ctx, N>(
                self@,
                *old(offset),
                *final(offset),
                ctx,
                old(inout)@,
                final(inout)@,
                r,
            ),
    ;
}

impl<Ctx: Copy> Gread<Ctx> for [u8] {
    fn gread<'a, N: TryFromCtx<'a, Ctx>>(&'a self, offset: &mut usize) -> (r: Result<
        N,
        Error,
    >) where Ctx: Default {
        <[u8] as Pread<Ctx>>::gread(self, offset)
    }

    fn gread_with<'a, N: TryFromCtx<'a, Ctx>>(&'a self, offset: &mut usize, ctx: Ctx) -> (r:
        Result<N, Error>) {
        <[u8] as Pread<Ctx>>::gread_with(self, offset, ctx)
    }

    fn gread_inout<'a, N: TryFromCtx<'a, Ctx>>(
        &'a self,
        offset: &mut usize,
        inout: &mut [N],
    ) -> (r: Result<(), Error>) where Ctx: Default {
        <[u8] as Pread<Ctx>>::gread_inout(self, offset, inout)
    }

    fn gread_inout_with<'a, N: TryFromCtx<'a, Ctx>>(
        &'a self,
        offset: &mut usize,
        inout: &mut [N],
        ctx: Ctx,
    ) -> (r: Result<(), Error>) {
        <[u8] as Pread<Ctx>>::gread_inout_with(self, offset, inout, ctx)
    }
}

/// Writing at a cursor.
pub trait Gwrite<Ctx: Copy>: View<V = Seq<u8>> {
    /// Writes `n` at the cursor under the default context, and moves the
    /// cursor behind it.
    fn gwrite<N: TryIntoCtx<Ctx>>(&mut self, n: N, offset: &mut usize) -> (r: Result<
        usize,
        Error,
    >) where Ctx: Default
        ensures
            exists|ctx: Ctx|
                is_default(ctx) && #[trigger] write_next::<Ctx, N>(
                    n,
                    ctx,
                    old(self)@,
                    final(self)@,
                    *old(offset),
                    *final(offset),
                    r,
                ),
    ;

    /// Writes `n` at the cursor under `ctx`, and moves the cursor behind it.
    fn gwrite_with<N: TryIntoCtx<Ctx>>(&mut self, n: N, offset: &mut usize, ctx: Ctx) -> (r:
        Result<usize, Error>)
        ensures
            write_next::<Ctx, N>(
                n,
                ctx,
                old(self)@,
                final(self)@,
                *old(offset),
                *final(offset),
                r,
            ),
    ;
}

impl<Ctx: Copy> Gwrite<Ctx> for [u8] {
    fn gwrite<N: TryIntoCtx<Ctx>>(&mut self, n: N, offset: &mut usize) -> (r: Result<
        usize,
        Error,
    >) where Ctx: Default {
        <[u8] as Pwrite<Ctx>>::gwrite(self, n, offset)
    }

    fn gwrite_with<N: TryIntoCtx<Ctx>>(&mut self, n: N, offset: &mut usize, ctx: Ctx) -> (r:
        Result<usize, Error>) {
        <[u8] as Pwrite<Ctx>>::gwrite_with(self, n, offset, ctx)
    }
}

// ---------------------------------------------------------------------------
// Access without an error path
// ---------------------------------------------------------------------------
/// Reading that cannot fail: the caller knows that the value is there.
pub trait Cread<Ctx: Copy>: View<V = Seq<u8>> {
    /// Reads a value at `offset` under `ctx`.
    fn cread_with<N: FromCtx<Ctx>>(&self, offset: usize, ctx: Ctx) -> (r: N)
        requires
            offset <= self@.len(),
            N::readable(self@.skip(offset as int), ctx),
        ensures
            r == N::spec_from_ctx(self@.skip(offset as int), ctx),
    ;

    /// Reads a value at `offset` under the default context.
    fn cread<N: FromCtx<Ctx>>(&self, offset: usize) -> (r: N) where Ctx: Default
        requires
            offset <= self@.len(),
            forall|ctx: Ctx| #[trigger]
                is_default(ctx) ==> N::readable(self@.skip(offset as int), ctx),
        ensures
            exists|ctx: Ctx| #[trigger]
                is_default(ctx) && r == N::spec_from_ctx(self@.skip(offset as int), ctx),
    ;
}

impl<Ctx: Copy> Cread<Ctx> for [u8] {
    fn cread_with<N: FromCtx<Ctx>>(&self, offset: usize, ctx: Ctx) -> (r: N) {
        let tail = vstd::slice::slice_subrange(self, offset, self.len());
        assert(tail@ =~= self@.skip(offset as int));
        N::from_ctx(tail, ctx)
    }

    fn cread<N: FromCtx<Ctx>>(&self, offset: usize) -> (r: N) where Ctx: Default {
        let ctx = Ctx::default();
        assert(is_default(ctx));
        let tail = vstd::slice::slice_subrange(self, offset, self.len());
        assert(tail@ =~= self@.skip(offset as int));
        N::from_ctx(tail, ctx)
    }
}

/// Writing that cannot fail: the caller knows that the value fits.
pub trait Cwrite<Ctx: Copy>: View<V = Seq<u8>> {
    /// Writes `n` at `offset` under the default context.
    fn cwrite<N: IntoCtx<Ctx>>(&mut self, n: N, offset: usize) where Ctx: Default
        requires
            forall|ctx: Ctx| #[trigger]
                is_default(ctx) ==> offset + n.spec_into_ctx(ctx).len() <= old(self)@.len(),
        ensures
            exists|ctx: Ctx| #[trigger]
                is_default(ctx) && final(self)@ == old(self)@.take(offset as int)
                    + n.spec_into_ctx(ctx) + old(self)@.skip(offset + n.spec_into_ctx(ctx).len()),
    ;

    /// Writes `n` at `offset` under `ctx`.
    fn cwrite_with<N: IntoCtx<Ctx>>(&mut self, n: N, offset: usize, ctx: Ctx)
        requires
            offset + n.spec_into_ctx(ctx).len() <= old(self)@.len(),
        ensures
            final(self)@ == old(self)@.take(offset as int) + n.spec_into_ctx(ctx) + old(
                self,
            )@.skip(offset + n.spec_into_ctx(ctx).len()),
    ;
}

impl<Ctx: Copy> Cwrite<Ctx> for [u8] {
    fn cwrite<N: IntoCtx<Ctx>>(&mut self, n: N, offset: usize) where Ctx: Default {
        let ctx = Ctx::default();
        assert(is_default(ctx));
        let (_, dst) = self.split_at_mut(offset);
        n.into_ctx(dst, ctx)
    }

    fn cwrite_with<N: IntoCtx<Ctx>>(&mut self, n: N, offset: usize, ctx: Ctx) {
        let (_, dst) = self.split_at_mut(offset);
        n.into_ctx(dst, ctx)
    }
}

} // verus!
