//! Reading at an offset.
//!
//! [`Pread`] reads a value of any type that implements
//! [`TryFromCtx`](crate::ctx::TryFromCtx) from a byte sequence. The offset is
//! either given and left alone (`pread`), or it is a cursor that moves on by
//! what was consumed (`gread`). The byte sequence is never changed, and a
//! failure leaves the cursor where it was.

use crate::ctx::{is_default, MeasureWith, TryFromCtx};
use crate::error::Error;
use vstd::prelude::*;

verus! {

// ---------------------------------------------------------------------------
// What reading yields
// ---------------------------------------------------------------------------
/// Reading at `offset` in `src` fails with `e`: the offset lies at or behind
/// the end, or the conversion refuses the bytes from the offset on.
pub open spec fn fails_at<'a, Ctx: Copy, N: TryFromCtx<'a, Ctx>>(
    src: Seq<u8>,
    offset: usize,
    ctx: Ctx,
    e: Error,
) -> bool {
    if offset >= src.len() {
        e == Error::BadOffset(offset)
    } else {
        N::decode_err(src.skip(offset as int), ctx, e)
    }
}

/// Reading at `offset` in `src` yields `v` and consumes `size` bytes, all of
/// them inside `src`.
pub open spec fn yields_at<'a, Ctx: Copy, N: TryFromCtx<'a, Ctx>>(
    src: Seq<u8>,
    offset: int,
    ctx: Ctx,
    v: N,
    size: usize,
) -> bool {
    &&& 0 <= offset < src.len()
    &&& offset + size <= src.len()
    &&& N::decode_ok(src.skip(offset), ctx, v, size)
}

/// The outcome `r` of reading at a given offset.
pub open spec fn read_at<'a, Ctx: Copy, N: TryFromCtx<'a, Ctx>>(
    src: Seq<u8>,
    offset: usize,
    ctx: Ctx,
    r: Result<N, Error>,
) -> bool {
    match r {
        Ok(v) => exists|size: usize|
            #[trigger] yields_at::<Ctx, N>(src, offset as int, ctx, v, size),
        Err(e) => fails_at::<Ctx, N>(src, offset, ctx, e),
    }
}

/// The outcome `r` of reading at a cursor that stood at `before` and stands at
/// `after`: on success the cursor has moved on by what was consumed, on
/// failure it has not moved.
pub open spec fn read_next<'a, Ctx: Copy, N: TryFromCtx<'a, Ctx>>(
    src: Seq<u8>,
    before: usize,
    after: usize,
    ctx: Ctx,
    r: Result<N, Error>,
) -> bool {
    match r {
        Ok(v) => before <= after && yields_at::<Ctx, N>(
            src,
            before as int,
            ctx,
            v,
            (after - before) as usize,
        ),
        Err(e) => after == before && fails_at::<Ctx, N>(src, before, ctx, e),
    }
}

/// The sum of the sizes.
pub open spec fn total(sizes: Seq<usize>) -> nat
    decreases sizes.len(),
{
    if sizes.len() == 0 {
        0
    } else {
        total(sizes.drop_last()) + sizes.last() as nat
    }
}

/// `items` were read one after the other from `start` on: item `i` was read
/// where the items before it ended, and reading it consumed `sizes[i]` bytes.
pub open spec fn batch_read<'a, Ctx: Copy, N: TryFromCtx<'a, Ctx>>(
    src: Seq<u8>,
    start: usize,
    ctx: Ctx,
    items: Seq<N>,
    sizes: Seq<usize>,
) -> bool {
    &&& sizes.len() == items.len()
    &&& forall|i: int|
        0 <= i < items.len() ==> yields_at::<Ctx, N>(
            src,
            start + total(sizes.take(i)),
            ctx,
            #[trigger] items[i],
            sizes[i],
        )
}

/// The outcome `r` of reading a batch into `after`, which held `before`, with
/// a cursor that stood at `start` and stands at `end`.
///
/// On success every item was read. On failure the items before the failing
/// one were read and stay, the others are as they were, and the cursor stands
/// where the failing read began. Either way the cursor has moved on by exactly
/// the sum of what the successful reads consumed.
pub open spec fn read_batch<'a, Ctx: Copy, N: TryFromCtx<'a, Ctx>>(
    src: Seq<u8>,
    start: usize,
    end: usize,
    ctx: Ctx,
    before: Seq<N>,
    after: Seq<N>,
    r: Result<(), Error>,
) -> bool {
    &&& after.len() == before.len()
    &&& exists|sizes: Seq<usize>|
        #![trigger total(sizes)]
        {
            &&& sizes.len() <= after.len()
            &&& batch_read::<Ctx, N>(src, start, ctx, after.take(sizes.len() as int), sizes)
            &&& after.skip(sizes.len() as int) == before.skip(sizes.len() as int)
            &&& end == start + total(sizes)
            &&& match r {
                Ok(_) => sizes.len() == after.len(),
                Err(e) => sizes.len() < after.len() && fails_at::<Ctx, N>(src, end, ctx, e),
            }
        }
}

/// Adding one size adds it to the sum.
pub proof fn lemma_total_push(sizes: Seq<usize>, size: usize)
    ensures
        total(sizes.push(size)) == total(sizes) + size,
{
    assert(sizes.push(size).drop_last() =~= sizes);
}

/// A cursor that read a batch never stands behind the end of the bytes.
pub proof fn lemma_batch_stays_inside<'a, Ctx: Copy, N: TryFromCtx<'a, Ctx>>(
    src: Seq<u8>,
    start: usize,
    ctx: Ctx,
    items: Seq<N>,
    sizes: Seq<usize>,
)
    requires
        batch_read::<Ctx, N>(src, start, ctx, items, sizes),
        items.len() > 0,
    ensures
        start + total(sizes) <= src.len(),
{
    let last = items.len() - 1;
    assert(yields_at::<Ctx, N>(src, start + total(sizes.take(last)), ctx, items[last], sizes[last]));
    assert(sizes.take(last) =~= sizes.drop_last());
}

/// The bytes that each step of a cursor consumed: the distances between the
/// places where it stood.
pub open spec fn steps(cursors: Seq<usize>) -> Seq<usize> {
    Seq::new((cursors.len() - 1) as nat, |i: int| (cursors[i + 1] - cursors[i]) as usize)
}

/// After any number of successful reads in a row, the cursor stands at the
/// place where it began plus the sum of what the reads consumed, and that
/// place is not behind the end of the bytes. `cursors` are the places where
/// the cursor stood, `items` what was read between them.
pub proof fn lemma_cursor_after_reads<'a, Ctx: Copy, N: TryFromCtx<'a, Ctx>>(
    src: Seq<u8>,
    ctx: Ctx,
    cursors: Seq<usize>,
    items: Seq<N>,
)
    requires
        cursors.len() == items.len() + 1,
        forall|i: int|
            0 <= i < items.len() ==> read_next::<Ctx, N>(
                src,
                cursors[i],
                cursors[i + 1],
                ctx,
                Ok::<N, Error>(#[trigger] items[i]),
            ),
    ensures
        cursors.last() == cursors[0] + total(steps(cursors)),
        batch_read::<Ctx, N>(src, cursors[0], ctx, items, steps(cursors)),
        items.len() > 0 ==> cursors.last() <= src.len(),
    decreases items.len(),
{
    let sizes = steps(cursors);
    if items.len() == 0 {
        assert(total(sizes) == 0);
    } else {
        let n = items.len() - 1;
        let shorter = cursors.drop_last();
        let fewer = items.drop_last();
        assert forall|i: int| 0 <= i < fewer.len() implies read_next::<Ctx, N>(
            src,
            shorter[i],
            shorter[i + 1],
            ctx,
            Ok::<N, Error>(#[trigger] fewer[i]),
        ) by {
            assert(fewer[i] == items[i]);
        }
        lemma_cursor_after_reads::<Ctx, N>(src, ctx, shorter, fewer);
        assert(steps(shorter) =~= sizes.drop_last());
        assert(read_next::<Ctx, N>(src, cursors[n], cursors[n + 1], ctx, Ok::<N, Error>(items[n])));
        assert forall|i: int| 0 <= i < items.len() implies yields_at::<Ctx, N>(
            src,
            cursors[0] + total(sizes.take(i)),
            ctx,
            #[trigger] items[i],
            sizes[i],
        ) by {
            if i < n {
                assert(sizes.take(i) =~= steps(shorter).take(i));
                assert(fewer[i] == items[i]);
            } else {
                assert(sizes.take(i) =~= sizes.drop_last());
            }
        }
    }
}

// ---------------------------------------------------------------------------
// The accessor
// ---------------------------------------------------------------------------
/// Reading values at offsets of a byte sequence.
pub trait Pread<Ctx: Copy>: View<V = Seq<u8>> {
    /// Reads a value at `offset` under the default context.
    fn pread<'a, N: TryFromCtx<'a, Ctx>>(&'a self, offset: usize) -> (r: Result<N, Error>) where
        Ctx: Default,

        ensures
            exists|ctx: Ctx| is_default(ctx) && #[trigger] read_at::<Ctx, N>(self@, offset, ctx, r),
    ;

    /// Reads a value at `offset` under `ctx`.
    fn pread_with<'a, N: TryFromCtx<'a, Ctx>>(&'a self, offset: usize, ctx: Ctx) -> (r: Result<
        N,
        Error,
    >)
        ensures
            read_at::<Ctx, N>(self@, offset, ctx, r),
    ;

    /// Reads a value at the cursor under the default context, and moves the
    /// cursor behind it.
    fn gread<'a, N: TryFromCtx<'a, Ctx>>(&'a self, offset: &mut usize) -> (r: Result<
        N,
        Error,
    >) where Ctx: Default
        ensures
            exists|ctx: Ctx|
                is_default(ctx) && #[trigger] read_next::<Ctx, N>(
                    self@,
                    *old(offset),
                    *final(offset),
                    ctx,
                    r,
                ),
    ;

    /// Reads a value at the cursor under `ctx`, and moves the cursor behind
    /// it.
    fn gread_with<'a, N: TryFromCtx<'a, Ctx>>(&'a self, offset: &mut usize, ctx: Ctx) -> (r:
        Result<N, Error>)
        ensures
            read_next::<Ctx, N>(self@, *old(offset), *final(offset), ctx, r),
    ;

    /// Fills `inout` with values read one after the other from the cursor on,
    /// under the default context. Stops at the first failure.
    fn gread_inout<'a, N: TryFromCtx<'a, Ctx>>(
        &'a self,
        offset: &mut usize,
        inout: &mut [N],
    ) -> (r: Result<(), Error>) where Ctx: Default
        ensures
            exists|ctx: Ctx|
                is_default(ctx) && #[trigger] read_batch::<Ctx, N>(
                    self@,
                    *old(offset),
                    *final(offset),
                    ctx,
                    old(inout)@,
                    final(inout)@,
                    r,
                ),
    ;

    /// Fills `inout` with values read one after the other from the cursor on,
    /// under `ctx`. Stops at the first failure.
    fn gread_inout_with<'a, N: TryFromCtx<'a, Ctx>>(
        &'a self,
        offset: &mut usize,
        inout: &mut [N],
        ctx: Ctx,
    ) -> (r: Result<(), Error>)
        ensures
            read_batch::<Ctx, N>(
                self@,
                *old(offset),
                *final(offset),
                ctx,
                old(inout)@,
                final(inout)@,
                r,
            ),
    ;
}

impl<Ctx: Copy> Pread<Ctx> for [u8] {
    fn pread<'a, N: TryFromCtx<'a, Ctx>>(&'a self, offset: usize) -> (r: Result<N, Error>) where
        Ctx: Default,
    {
        let ctx = Ctx::default();
        let r = self.pread_with(offset, ctx);
        assert(read_at::<Ctx, N>(self@, offset, ctx, r));
        r
    }

    fn pread_with<'a, N: TryFromCtx<'a, Ctx>>(&'a self, offset: usize, ctx: Ctx) -> (r: Result<
        N,
        Error,
    >) {
        let len = self.measure_with(&ctx);
        if offset >= len {
            return Err(Error::BadOffset(offset));
        }
        let tail = vstd::slice::slice_subrange(self, offset, len);
        assert(tail@ =~= self@.skip(offset as int));
        match N::try_from_ctx(tail, ctx) {
            Ok((v, size)) => {
                let r: Result<N, Error> = Ok(v);
                assert(r matches Ok(w) && yields_at::<Ctx, N>(self@, offset as int, ctx, w, size));
                r
            },
            Err(e) => Err(e),
        }
    }

    fn gread<'a, N: TryFromCtx<'a, Ctx>>(&'a self, offset: &mut usize) -> (r: Result<
        N,
        Error,
    >) where Ctx: Default {
        let ctx = Ctx::default();
        let r = self.gread_with(offset, ctx);
        assert(read_next::<Ctx, N>(self@, *old(offset), *offset, ctx, r));
        r
    }

    fn gread_with<'a, N: TryFromCtx<'a, Ctx>>(&'a self, offset: &mut usize, ctx: Ctx) -> (r:
        Result<N, Error>) {
        let o = *offset;
        let len = self.measure_with(&ctx);
        if o >= len {
            return Err(Error::BadOffset(o));
        }
        let tail = vstd::slice::slice_subrange(self, o, len);
        assert(tail@ =~= self@.skip(o as int));
        match N::try_from_ctx(tail, ctx) {
            Ok((v, size)) => {
                *offset = o + size;
                Ok(v)
            },
            Err(e) => Err(e),
        }
    }

    fn gread_inout<'a, N: TryFromCtx<'a, Ctx>>(
        &'a self,
        offset: &mut usize,
        inout: &mut [N],
    ) -> (r: Result<(), Error>) where Ctx: Default {
        let ctx = Ctx::default();
        let r = self.gread_inout_with(offset, inout, ctx);
        assert(read_batch::<Ctx, N>(self@, *old(offset), *offset, ctx, old(inout)@, inout@, r));
        r
    }

    fn gread_inout_with<'a, N: TryFromCtx<'a, Ctx>>(
        &'a self,
        offset: &mut usize,
        inout: &mut [N],
        ctx: Ctx,
    ) -> (r: Result<(), Error>) {
        let len = inout.len();
        let ghost mut sizes = Seq::<usize>::empty();
        let mut i: usize = 0;
        proof {
            assert(inout@.take(0) =~= Seq::<N>::empty());
        }
        while i < len
            invariant
                i <= len,
                len == inout@.len(),
                inout@.len() == old(inout)@.len(),
                sizes.len() == i,
                batch_read::<Ctx, N>(self@, *old(offset), ctx, inout@.take(i as int), sizes),
                inout@.skip(i as int) == old(inout)@.skip(i as int),
                *offset == *old(offset) + total(sizes),
            decreases len - i,
        {
            let ghost at = *offset;
            let ghost filled = inout@;
            match self.gread_with::<N>(offset, ctx) {
                Ok(v) => {
                    inout[i] = v;
                    proof {
                        let size = (*offset - at) as usize;
                        let longer = sizes.push(size);
                        lemma_total_push(sizes, size);
                        assert(inout@.skip(i as int + 1) =~= old(inout)@.skip(i as int + 1)) by {
                            let rest = inout@.skip(i as int + 1);
                            assert forall|j: int| 0 <= j < rest.len() implies #[trigger] rest[j]
                                == old(inout)@.skip(i as int + 1)[j] by {
                                assert(filled.skip(i as int)[j + 1] == old(inout)@.skip(i as int)[j
                                    + 1]);
                            }
                        }
                        assert forall|j: int| 0 <= j < i + 1 implies yields_at::<Ctx, N>(
                            self@,
                            *old(offset) + total(longer.take(j)),
                            ctx,
                            #[trigger] inout@.take(i as int + 1)[j],
                            longer[j],
                        ) by {
                            if j < i {
                                assert(longer.take(j) =~= sizes.take(j));
                                assert(inout@.take(i as int + 1)[j] == filled.take(i as int)[j]);
                            } else {
                                assert(longer.take(j) =~= sizes);
                            }
                        }
                        sizes = longer;
                    }
                },
                Err(e) => {
                    return Err(e);
                },
            }
            i = i + 1;
        }
        proof {
            assert(inout@.take(len as int) =~= inout@);
        }
        Ok(())
    }
}

} // verus!
