//! The conversions of the integer types, under a byte order.
//!
//! Each type reads and writes its own width in bytes. All of them are stated
//! through the same few functions of [`crate::fixed`], with the width and the
//! signedness of the type filled in, so that what is proved there of every
//! width holds of each type here.

use crate::ctx::{FromCtx, IntoCtx, SizeWith, TryFromCtx, TryIntoCtx};
use crate::endian::Endian;
use crate::error::Error;
use crate::fixed::{
    from_signed, int_bytes, int_decode_err, int_decode_ok, int_encode_err, int_encode_ok,
    int_in_range, int_value, lemma_int_bytes_of_value, lemma_int_roundtrip, read_unsigned,
    to_signed, write_unsigned,
};
use crate::pread::read_at;
use crate::pwrite::write_at;
use vstd::arithmetic::power2::{lemma2_to64, lemma2_to64_rest};
use vstd::prelude::*;

verus! {

/// The width of a machine word in bytes: 4 or 8.
pub open spec fn word_width() -> nat {
    (usize::BITS / 8) as nat
}

/// The width of a machine word in bytes.
pub fn word_size() -> (w: usize)
    ensures
        w == word_width(),
        w == 4 || w == 8,
{
    broadcast use vstd::layout::layout_of_primitives;

    core::mem::size_of::<usize>()
}

/// An integer type of fixed width.
///
/// The conversions of such a type are those of [`crate::fixed`] at the width
/// and the signedness of the type; `lemma_fixed` says so, for every input, and
/// what is proved below of all such types rests on it.
pub trait FixedInt<'a>: Copy + SizeWith<Endian> + FromCtx<Endian> + TryFromCtx<'a, Endian> + IntoCtx<
    Endian,
> + TryIntoCtx<Endian> {
    /// The number of bytes of the type.
    spec fn width() -> nat;

    /// Whether the type holds negative numbers.
    spec fn signed() -> bool;

    /// The number that a value of the type is.
    spec fn to_int(self) -> int;

    /// The values of the type are the numbers of its width and signedness,
    /// and each of its conversions is the conversion of that width and
    /// signedness, on every input.
    proof fn lemma_fixed(
        src: Seq<u8>,
        ctx: Endian,
        v: Self,
        w: Self,
        n: usize,
        after: Seq<u8>,
        e: Error,
    )
        ensures
            int_in_range(v.to_int(), Self::width(), Self::signed()),
            v.to_int() == w.to_int() ==> v == w,
            Self::spec_size_with(&ctx) == Self::width(),
            Self::readable(src, ctx) == (src.len() >= Self::width()),
            Self::readable(src, ctx) ==> Self::spec_from_ctx(src, ctx).to_int() == int_value(
                src,
                Self::width(),
                Self::signed(),
                ctx,
            ),
            Self::decode_ok(src, ctx, v, n) == int_decode_ok(
                src,
                Self::width(),
                Self::signed(),
                ctx,
                v.to_int(),
                n,
            ),
            Self::decode_err(src, ctx, e) == int_decode_err(src, Self::width(), e),
            v.spec_into_ctx(ctx) == int_bytes(v.to_int(), Self::width(), Self::signed(), ctx),
            v.encode_ok(ctx, src, after, n) == int_encode_ok(
                v.to_int(),
                Self::width(),
                Self::signed(),
                ctx,
                src,
                after,
                n,
            ),
            v.encode_err(ctx, src, after, e) == int_encode_err(Self::width(), src, after, e),
    ;
}

// ---------------------------------------------------------------------------
// u8
// ---------------------------------------------------------------------------
impl SizeWith<Endian> for u8 {
    open spec fn spec_size_with(ctx: &Endian) -> usize {
        1
    }

    fn size_with(ctx: &Endian) -> (r: usize) {
        1
    }
}

impl FromCtx<Endian> for u8 {
    open spec fn readable(src: Seq<u8>, ctx: Endian) -> bool {
        src.len() >= 1
    }

    open spec fn spec_from_ctx(src: Seq<u8>, ctx: Endian) -> u8 {
        int_value(src, 1, false, ctx) as u8
    }

    fn from_ctx(src: &[u8], ctx: Endian) -> (r: u8)
        ensures
            r as int == int_value(src@, 1, false, ctx),
    {
        proof {
            lemma2_to64();
            lemma2_to64_rest();
        }
        read_unsigned(src, 1, ctx) as u8
    }
}

impl<'a> TryFromCtx<'a, Endian> for u8 {
    open spec fn decode_ok(src: Seq<u8>, ctx: Endian, v: u8, n: usize) -> bool {
        int_decode_ok(src, 1, false, ctx, v as int, n)
    }

    open spec fn decode_err(src: Seq<u8>, ctx: Endian, e: Error) -> bool {
        int_decode_err(src, 1, e)
    }

    fn try_from_ctx(src: &'a [u8], ctx: Endian) -> (r: Result<(u8, usize), Error>) {
        if 1 > src.len() {
            Err(Error::TooBig { size: 1, len: src.len() })
        } else {
            Ok((<u8 as FromCtx<Endian>>::from_ctx(src, ctx), 1))
        }
    }
}

impl IntoCtx<Endian> for u8 {
    open spec fn spec_into_ctx(self, ctx: Endian) -> Seq<u8> {
        int_bytes(self as int, 1, false, ctx)
    }

    fn into_ctx(self, dst: &mut [u8], ctx: Endian) {
        proof {
            lemma2_to64();
            lemma2_to64_rest();
        }
        write_unsigned(dst, self as u64, 1, ctx);
    }
}

impl TryIntoCtx<Endian> for u8 {
    open spec fn encode_ok(self, ctx: Endian, before: Seq<u8>, after: Seq<u8>, n: usize) -> bool {
        int_encode_ok(self as int, 1, false, ctx, before, after, n)
    }

    open spec fn encode_err(self, ctx: Endian, before: Seq<u8>, after: Seq<u8>, e: Error) -> bool {
        int_encode_err(1, before, after, e)
    }

    fn try_into_ctx(self, dst: &mut [u8], ctx: Endian) -> (r: Result<usize, Error>) {
        if 1 > dst.len() {
            Err(Error::TooBig { size: 1, len: dst.len() })
        } else {
            <u8 as IntoCtx<Endian>>::into_ctx(self, dst, ctx);
            Ok(1)
        }
    }
}

impl<'a> FixedInt<'a> for u8 {
    open spec fn width() -> nat {
        1
    }

    open spec fn signed() -> bool {
        false
    }

    open spec fn to_int(self) -> int {
        self as int
    }

    proof fn lemma_fixed(
        src: Seq<u8>,
        ctx: Endian,
        v: u8,
        w: u8,
        n: usize,
        after: Seq<u8>,
        e: Error,
    ) {
        lemma2_to64();
        lemma2_to64_rest();
        if src.len() >= 1 {
            lemma_int_bytes_of_value(src, 1, false, ctx);
        }
    }
}

// ---------------------------------------------------------------------------
// i8
// ---------------------------------------------------------------------------
impl SizeWith<Endian> for i8 {
    open spec fn spec_size_with(ctx: &Endian) -> usize {
        1
    }

    fn size_with(ctx: &Endian) -> (r: usize) {
        1
    }
}

impl FromCtx<Endian> for i8 {
    open spec fn readable(src: Seq<u8>, ctx: Endian) -> bool {
        src.len() >= 1
    }

    open spec fn spec_from_ctx(src: Seq<u8>, ctx: Endian) -> i8 {
        int_value(src, 1, true, ctx) as i8
    }

    fn from_ctx(src: &[u8], ctx: Endian) -> (r: i8)
        ensures
            r as int == int_value(src@, 1, true, ctx),
    {
        proof {
            lemma2_to64();
            lemma2_to64_rest();
        }
        to_signed(read_unsigned(src, 1, ctx), 1) as i8
    }
}

impl<'a> TryFromCtx<'a, Endian> for i8 {
    open spec fn decode_ok(src: Seq<u8>, ctx: Endian, v: i8, n: usize) -> bool {
        int_decode_ok(src, 1, true, ctx, v as int, n)
    }

    open spec fn decode_err(src: Seq<u8>, ctx: Endian, e: Error) -> bool {
        int_decode_err(src, 1, e)
    }

    fn try_from_ctx(src: &'a [u8], ctx: Endian) -> (r: Result<(i8, usize), Error>) {
        if 1 > src.len() {
            Err(Error::TooBig { size: 1, len: src.len() })
        } else {
            Ok((<i8 as FromCtx<Endian>>::from_ctx(src, ctx), 1))
        }
    }
}

impl IntoCtx<Endian> for i8 {
    open spec fn spec_into_ctx(self, ctx: Endian) -> Seq<u8> {
        int_bytes(self as int, 1, true, ctx)
    }

    fn into_ctx(self, dst: &mut [u8], ctx: Endian) {
        proof {
            lemma2_to64();
            lemma2_to64_rest();
        }
        write_unsigned(dst, from_signed(self as i64, 1), 1, ctx);
    }
}

impl TryIntoCtx<Endian> for i8 {
    open spec fn encode_ok(self, ctx: Endian, before: Seq<u8>, after: Seq<u8>, n: usize) -> bool {
        int_encode_ok(self as int, 1, true, ctx, before, after, n)
    }

    open spec fn encode_err(self, ctx: Endian, before: Seq<u8>, after: Seq<u8>, e: Error) -> bool {
        int_encode_err(1, before, after, e)
    }

    fn try_into_ctx(self, dst: &mut [u8], ctx: Endian) -> (r: Result<usize, Error>) {
        if 1 > dst.len() {
            Err(Error::TooBig { size: 1, len: dst.len() })
        } else {
            <i8 as IntoCtx<Endian>>::into_ctx(self, dst, ctx);
            Ok(1)
        }
    }
}

impl<'a> FixedInt<'a> for i8 {
    open spec fn width() -> nat {
        1
    }

    open spec fn signed() -> bool {
        true
    }

    open spec fn to_int(self) -> int {
        self as int
    }

    proof fn lemma_fixed(
        src: Seq<u8>,
        ctx: Endian,
        v: i8,
        w: i8,
        n: usize,
        after: Seq<u8>,
        e: Error,
    ) {
        lemma2_to64();
        lemma2_to64_rest();
        if src.len() >= 1 {
            lemma_int_bytes_of_value(src, 1, true, ctx);
        }
    }
}

// ---------------------------------------------------------------------------
// u16
// ---------------------------------------------------------------------------
impl SizeWith<Endian> for u16 {
    open spec fn spec_size_with(ctx: &Endian) -> usize {
        2
    }

    fn size_with(ctx: &Endian) -> (r: usize) {
        2
    }
}

impl FromCtx<Endian> for u16 {
    open spec fn readable(src: Seq<u8>, ctx: Endian) -> bool {
        src.len() >= 2
    }

    open spec fn spec_from_ctx(src: Seq<u8>, ctx: Endian) -> u16 {
        int_value(src, 2, false, ctx) as u16
    }

    fn from_ctx(src: &[u8], ctx: Endian) -> (r: u16)
        ensures
            r as int == int_value(src@, 2, false, ctx),
    {
        proof {
            lemma2_to64();
            lemma2_to64_rest();
        }
        read_unsigned(src, 2, ctx) as u16
    }
}

impl<'a> TryFromCtx<'a, Endian> for u16 {
    open spec fn decode_ok(src: Seq<u8>, ctx: Endian, v: u16, n: usize) -> bool {
        int_decode_ok(src, 2, false, ctx, v as int, n)
    }

    open spec fn decode_err(src: Seq<u8>, ctx: Endian, e: Error) -> bool {
        int_decode_err(src, 2, e)
    }

    fn try_from_ctx(src: &'a [u8], ctx: Endian) -> (r: Result<(u16, usize), Error>) {
        if 2 > src.len() {
            Err(Error::TooBig { size: 2, len: src.len() })
        } else {
            Ok((<u16 as FromCtx<Endian>>::from_ctx(src, ctx), 2))
        }
    }
}

impl IntoCtx<Endian> for u16 {
    open spec fn spec_into_ctx(self, ctx: Endian) -> Seq<u8> {
        int_bytes(self as int, 2, false, ctx)
    }

    fn into_ctx(self, dst: &mut [u8], ctx: Endian) {
        proof {
            lemma2_to64();
            lemma2_to64_rest();
        }
        write_unsigned(dst, self as u64, 2, ctx);
    }
}

impl TryIntoCtx<Endian> for u16 {
    open spec fn encode_ok(self, ctx: Endian, before: Seq<u8>, after: Seq<u8>, n: usize) -> bool {
        int_encode_ok(self as int, 2, false, ctx, before, after, n)
    }

    open spec fn encode_err(self, ctx: Endian, before: Seq<u8>, after: Seq<u8>, e: Error) -> bool {
        int_encode_err(2, before, after, e)
    }

    fn try_into_ctx(self, dst: &mut [u8], ctx: Endian) -> (r: Result<usize, Error>) {
        if 2 > dst.len() {
            Err(Error::TooBig { size: 2, len: dst.len() })
        } else {
            <u16 as IntoCtx<Endian>>::into_ctx(self, dst, ctx);
            Ok(2)
        }
    }
}

impl<'a> FixedInt<'a> for u16 {
    open spec fn width() -> nat {
        2
    }

    open spec fn signed() -> bool {
        false
    }

    open spec fn to_int(self) -> int {
        self as int
    }

    proof fn lemma_fixed(
        src: Seq<u8>,
        ctx: Endian,
        v: u16,
        w: u16,
        n: usize,
        after: Seq<u8>,
        e: Error,
    ) {
        lemma2_to64();
        lemma2_to64_rest();
        if src.len() >= 2 {
            lemma_int_bytes_of_value(src, 2, false, ctx);
        }
    }
}

// ---------------------------------------------------------------------------
// i16
// ---------------------------------------------------------------------------
impl SizeWith<Endian> for i16 {
    open spec fn spec_size_with(ctx: &Endian) -> usize {
        2
    }

    fn size_with(ctx: &Endian) -> (r: usize) {
        2
    }
}

impl FromCtx<Endian> for i16 {
    open spec fn readable(src: Seq<u8>, ctx: Endian) -> bool {
        src.len() >= 2
    }

    open spec fn spec_from_ctx(src: Seq<u8>, ctx: Endian) -> i16 {
        int_value(src, 2, true, ctx) as i16
    }

    fn from_ctx(src: &[u8], ctx: Endian) -> (r: i16)
        ensures
            r as int == int_value(src@, 2, true, ctx),
    {
        proof {
            lemma2_to64();
            lemma2_to64_rest();
        }
        to_signed(read_unsigned(src, 2, ctx), 2) as i16
    }
}

impl<'a> TryFromCtx<'a, Endian> for i16 {
    open spec fn decode_ok(src: Seq<u8>, ctx: Endian, v: i16, n: usize) -> bool {
        int_decode_ok(src, 2, true, ctx, v as int, n)
    }

    open spec fn decode_err(src: Seq<u8>, ctx: Endian, e: Error) -> bool {
        int_decode_err(src, 2, e)
    }

    fn try_from_ctx(src: &'a [u8], ctx: Endian) -> (r: Result<(i16, usize), Error>) {
        if 2 > src.len() {
            Err(Error::TooBig { size: 2, len: src.len() })
        } else {
            Ok((<i16 as FromCtx<Endian>>::from_ctx(src, ctx), 2))
        }
    }
}

impl IntoCtx<Endian> for i16 {
    open spec fn spec_into_ctx(self, ctx: Endian) -> Seq<u8> {
        int_bytes(self as int, 2, true, ctx)
    }

    fn into_ctx(self, dst: &mut [u8], ctx: Endian) {
        proof {
            lemma2_to64();
            lemma2_to64_rest();
        }
        write_unsigned(dst, from_signed(self as i64, 2), 2, ctx);
    }
}

impl TryIntoCtx<Endian> for i16 {
    open spec fn encode_ok(self, ctx: Endian, before: Seq<u8>, after: Seq<u8>, n: usize) -> bool {
        int_encode_ok(self as int, 2, true, ctx, before, after, n)
    }

    open spec fn encode_err(self, ctx: Endian, before: Seq<u8>, after: Seq<u8>, e: Error) -> bool {
        int_encode_err(2, before, after, e)
    }

    fn try_into_ctx(self, dst: &mut [u8], ctx: Endian) -> (r: Result<usize, Error>) {
        if 2 > dst.len() {
            Err(Error::TooBig { size: 2, len: dst.len() })
        } else {
            <i16 as IntoCtx<Endian>>::into_ctx(self, dst, ctx);
            Ok(2)
        }
    }
}

impl<'a> FixedInt<'a> for i16 {
    open spec fn width() -> nat {
        2
    }

    open spec fn signed() -> bool {
        true
    }

    open spec fn to_int(self) -> int {
        self as int
    }

    proof fn lemma_fixed(
        src: Seq<u8>,
        ctx: Endian,
        v: i16,
        w: i16,
        n: usize,
        after: Seq<u8>,
        e: Error,
    ) {
        lemma2_to64();
        lemma2_to64_rest();
        if src.len() >= 2 {
            lemma_int_bytes_of_value(src, 2, true, ctx);
        }
    }
}

// ---------------------------------------------------------------------------
// u32
// ---------------------------------------------------------------------------
impl SizeWith<Endian> for u32 {
    open spec fn spec_size_with(ctx: &Endian) -> usize {
        4
    }

    fn size_with(ctx: &Endian) -> (r: usize) {
        4
    }
}

impl FromCtx<Endian> for u32 {
    open spec fn readable(src: Seq<u8>, ctx: Endian) -> bool {
        src.len() >= 4
    }

    open spec fn spec_from_ctx(src: Seq<u8>, ctx: Endian) -> u32 {
        int_value(src, 4, false, ctx) as u32
    }

    fn from_ctx(src: &[u8], ctx: Endian) -> (r: u32)
        ensures
            r as int == int_value(src@, 4, false, ctx),
    {
        proof {
            lemma2_to64();
            lemma2_to64_rest();
        }
        read_unsigned(src, 4, ctx) as u32
    }
}

impl<'a> TryFromCtx<'a, Endian> for u32 {
    open spec fn decode_ok(src: Seq<u8>, ctx: Endian, v: u32, n: usize) -> bool {
        int_decode_ok(src, 4, false, ctx, v as int, n)
    }

    open spec fn decode_err(src: Seq<u8>, ctx: Endian, e: Error) -> bool {
        int_decode_err(src, 4, e)
    }

    fn try_from_ctx(src: &'a [u8], ctx: Endian) -> (r: Result<(u32, usize), Error>) {
        if 4 > src.len() {
            Err(Error::TooBig { size: 4, len: src.len() })
        } else {
            Ok((<u32 as FromCtx<Endian>>::from_ctx(src, ctx), 4))
        }
    }
}

impl IntoCtx<Endian> for u32 {
    open spec fn spec_into_ctx(self, ctx: Endian) -> Seq<u8> {
        int_bytes(self as int, 4, false, ctx)
    }

    fn into_ctx(self, dst: &mut [u8], ctx: Endian) {
        proof {
            lemma2_to64();
            lemma2_to64_rest();
        }
        write_unsigned(dst, self as u64, 4, ctx);
    }
}

impl TryIntoCtx<Endian> for u32 {
    open spec fn encode_ok(self, ctx: Endian, before: Seq<u8>, after: Seq<u8>, n: usize) -> bool {
        int_encode_ok(self as int, 4, false, ctx, before, after, n)
    }

    open spec fn encode_err(self, ctx: Endian, before: Seq<u8>, after: Seq<u8>, e: Error) -> bool {
        int_encode_err(4, before, after, e)
    }

    fn try_into_ctx(self, dst: &mut [u8], ctx: Endian) -> (r: Result<usize, Error>) {
        if 4 > dst.len() {
            Err(Error::TooBig { size: 4, len: dst.len() })
        } else {
            <u32 as IntoCtx<Endian>>::into_ctx(self, dst, ctx);
            Ok(4)
        }
    }
}

impl<'a> FixedInt<'a> for u32 {
    open spec fn width() -> nat {
        4
    }

    open spec fn signed() -> bool {
        false
    }

    open spec fn to_int(self) -> int {
        self as int
    }

    proof fn lemma_fixed(
        src: Seq<u8>,
        ctx: Endian,
        v: u32,
        w: u32,
        n: usize,
        after: Seq<u8>,
        e: Error,
    ) {
        lemma2_to64();
        lemma2_to64_rest();
        if src.len() >= 4 {
            lemma_int_bytes_of_value(src, 4, false, ctx);
        }
    }
}

// ---------------------------------------------------------------------------
// i32
// ---------------------------------------------------------------------------
impl SizeWith<Endian> for i32 {
    open spec fn spec_size_with(ctx: &Endian) -> usize {
        4
    }

    fn size_with(ctx: &Endian) -> (r: usize) {
        4
    }
}

impl FromCtx<Endian> for i32 {
    open spec fn readable(src: Seq<u8>, ctx: Endian) -> bool {
        src.len() >= 4
    }

    open spec fn spec_from_ctx(src: Seq<u8>, ctx: Endian) -> i32 {
        int_value(src, 4, true, ctx) as i32
    }

    fn from_ctx(src: &[u8], ctx: Endian) -> (r: i32)
        ensures
            r as int == int_value(src@, 4, true, ctx),
    {
        proof {
            lemma2_to64();
            lemma2_to64_rest();
        }
        to_signed(read_unsigned(src, 4, ctx), 4) as i32
    }
}

impl<'a> TryFromCtx<'a, Endian> for i32 {
    open spec fn decode_ok(src: Seq<u8>, ctx: Endian, v: i32, n: usize) -> bool {
        int_decode_ok(src, 4, true, ctx, v as int, n)
    }

    open spec fn decode_err(src: Seq<u8>, ctx: Endian, e: Error) -> bool {
        int_decode_err(src, 4, e)
    }

    fn try_from_ctx(src: &'a [u8], ctx: Endian) -> (r: Result<(i32, usize), Error>) {
        if 4 > src.len() {
            Err(Error::TooBig { size: 4, len: src.len() })
        } else {
            Ok((<i32 as FromCtx<Endian>>::from_ctx(src, ctx), 4))
        }
    }
}

impl IntoCtx<Endian> for i32 {
    open spec fn spec_into_ctx(self, ctx: Endian) -> Seq<u8> {
        int_bytes(self as int, 4, true, ctx)
    }

    fn into_ctx(self, dst: &mut [u8], ctx: Endian) {
        proof {
            lemma2_to64();
            lemma2_to64_rest();
        }
        write_unsigned(dst, from_signed(self as i64, 4), 4, ctx);
    }
}

impl TryIntoCtx<Endian> for i32 {
    open spec fn encode_ok(self, ctx: Endian, before: Seq<u8>, after: Seq<u8>, n: usize) -> bool {
        int_encode_ok(self as int, 4, true, ctx, before, after, n)
    }

    open spec fn encode_err(self, ctx: Endian, before: Seq<u8>, after: Seq<u8>, e: Error) -> bool {
        int_encode_err(4, before, after, e)
    }

    fn try_into_ctx(self, dst: &mut [u8], ctx: Endian) -> (r: Result<usize, Error>) {
        if 4 > dst.len() {
            Err(Error::TooBig { size: 4, len: dst.len() })
        } else {
            <i32 as IntoCtx<Endian>>::into_ctx(self, dst, ctx);
            Ok(4)
        }
    }
}

impl<'a> FixedInt<'a> for i32 {
    open spec fn width() -> nat {
        4
    }

    open spec fn signed() -> bool {
        true
    }

    open spec fn to_int(self) -> int {
        self as int
    }

    proof fn lemma_fixed(
        src: Seq<u8>,
        ctx: Endian,
        v: i32,
        w: i32,
        n: usize,
        after: Seq<u8>,
        e: Error,
    ) {
        lemma2_to64();
        lemma2_to64_rest();
        if src.len() >= 4 {
            lemma_int_bytes_of_value(src, 4, true, ctx);
        }
    }
}

// ---------------------------------------------------------------------------
// u64
// ---------------------------------------------------------------------------
impl SizeWith<Endian> for u64 {
    open spec fn spec_size_with(ctx: &Endian) -> usize {
        8
    }

    fn size_with(ctx: &Endian) -> (r: usize) {
        8
    }
}

impl FromCtx<Endian> for u64 {
    open spec fn readable(src: Seq<u8>, ctx: Endian) -> bool {
        src.len() >= 8
    }

    open spec fn spec_from_ctx(src: Seq<u8>, ctx: Endian) -> u64 {
        int_value(src, 8, false, ctx) as u64
    }

    fn from_ctx(src: &[u8], ctx: Endian) -> (r: u64)
        ensures
            r as int == int_value(src@, 8, false, ctx),
    {
        proof {
            lemma2_to64();
            lemma2_to64_rest();
        }
        read_unsigned(src, 8, ctx)
    }
}

impl<'a> TryFromCtx<'a, Endian> for u64 {
    open spec fn decode_ok(src: Seq<u8>, ctx: Endian, v: u64, n: usize) -> bool {
        int_decode_ok(src, 8, false, ctx, v as int, n)
    }

    open spec fn decode_err(src: Seq<u8>, ctx: Endian, e: Error) -> bool {
        int_decode_err(src, 8, e)
    }

    fn try_from_ctx(src: &'a [u8], ctx: Endian) -> (r: Result<(u64, usize), Error>) {
        if 8 > src.len() {
            Err(Error::TooBig { size: 8, len: src.len() })
        } else {
            Ok((<u64 as FromCtx<Endian>>::from_ctx(src, ctx), 8))
        }
    }
}

impl IntoCtx<Endian> for u64 {
    open spec fn spec_into_ctx(self, ctx: Endian) -> Seq<u8> {
        int_bytes(self as int, 8, false, ctx)
    }

    fn into_ctx(self, dst: &mut [u8], ctx: Endian) {
        proof {
            lemma2_to64();
            lemma2_to64_rest();
        }
        write_unsigned(dst, self, 8, ctx);
    }
}

impl TryIntoCtx<Endian> for u64 {
    open spec fn encode_ok(self, ctx: Endian, before: Seq<u8>, after: Seq<u8>, n: usize) -> bool {
        int_encode_ok(self as int, 8, false, ctx, before, after, n)
    }

    open spec fn encode_err(self, ctx: Endian, before: Seq<u8>, after: Seq<u8>, e: Error) -> bool {
        int_encode_err(8, before, after, e)
    }

    fn try_into_ctx(self, dst: &mut [u8], ctx: Endian) -> (r: Result<usize, Error>) {
        if 8 > dst.len() {
            Err(Error::TooBig { size: 8, len: dst.len() })
        } else {
            <u64 as IntoCtx<Endian>>::into_ctx(self, dst, ctx);
            Ok(8)
        }
    }
}

impl<'a> FixedInt<'a> for u64 {
    open spec fn width() -> nat {
        8
    }

    open spec fn signed() -> bool {
        false
    }

    open spec fn to_int(self) -> int {
        self as int
    }

    proof fn lemma_fixed(
        src: Seq<u8>,
        ctx: Endian,
        v: u64,
        w: u64,
        n: usize,
        after: Seq<u8>,
        e: Error,
    ) {
        lemma2_to64();
        lemma2_to64_rest();
        if src.len() >= 8 {
            lemma_int_bytes_of_value(src, 8, false, ctx);
        }
    }
}

// ---------------------------------------------------------------------------
// i64
// ---------------------------------------------------------------------------
impl SizeWith<Endian> for i64 {
    open spec fn spec_size_with(ctx: &Endian) -> usize {
        8
    }

    fn size_with(ctx: &Endian) -> (r: usize) {
        8
    }
}

impl FromCtx<Endian> for i64 {
    open spec fn readable(src: Seq<u8>, ctx: Endian) -> bool {
        src.len() >= 8
    }

    open spec fn spec_from_ctx(src: Seq<u8>, ctx: Endian) -> i64 {
        int_value(src, 8, true, ctx) as i64
    }

    fn from_ctx(src: &[u8], ctx: Endian) -> (r: i64)
        ensures
            r as int == int_value(src@, 8, true, ctx),
    {
        proof {
            lemma2_to64();
            lemma2_to64_rest();
        }
        to_signed(read_unsigned(src, 8, ctx), 8)
    }
}

impl<'a> TryFromCtx<'a, Endian> for i64 {
    open spec fn decode_ok(src: Seq<u8>, ctx: Endian, v: i64, n: usize) -> bool {
        int_decode_ok(src, 8, true, ctx, v as int, n)
    }

    open spec fn decode_err(src: Seq<u8>, ctx: Endian, e: Error) -> bool {
        int_decode_err(src, 8, e)
    }

    fn try_from_ctx(src: &'a [u8], ctx: Endian) -> (r: Result<(i64, usize), Error>) {
        if 8 > src.len() {
            Err(Error::TooBig { size: 8, len: src.len() })
        } else {
            Ok((<i64 as FromCtx<Endian>>::from_ctx(src, ctx), 8))
        }
    }
}

impl IntoCtx<Endian> for i64 {
    open spec fn spec_into_ctx(self, ctx: Endian) -> Seq<u8> {
        int_bytes(self as int, 8, true, ctx)
    }

    fn into_ctx(self, dst: &mut [u8], ctx: Endian) {
        proof {
            lemma2_to64();
            lemma2_to64_rest();
        }
        write_unsigned(dst, from_signed(self, 8), 8, ctx);
    }
}

impl TryIntoCtx<Endian> for i64 {
    open spec fn encode_ok(self, ctx: Endian, before: Seq<u8>, after: Seq<u8>, n: usize) -> bool {
        int_encode_ok(self as int, 8, true, ctx, before, after, n)
    }

    open spec fn encode_err(self, ctx: Endian, before: Seq<u8>, after: Seq<u8>, e: Error) -> bool {
        int_encode_err(8, before, after, e)
    }

    fn try_into_ctx(self, dst: &mut [u8], ctx: Endian) -> (r: Result<usize, Error>) {
        if 8 > dst.len() {
            Err(Error::TooBig { size: 8, len: dst.len() })
        } else {
            <i64 as IntoCtx<Endian>>::into_ctx(self, dst, ctx);
            Ok(8)
        }
    }
}

impl<'a> FixedInt<'a> for i64 {
    open spec fn width() -> nat {
        8
    }

    open spec fn signed() -> bool {
        true
    }

    open spec fn to_int(self) -> int {
        self as int
    }

    proof fn lemma_fixed(
        src: Seq<u8>,
        ctx: Endian,
        v: i64,
        w: i64,
        n: usize,
        after: Seq<u8>,
        e: Error,
    ) {
        lemma2_to64();
        lemma2_to64_rest();
        if src.len() >= 8 {
            lemma_int_bytes_of_value(src, 8, true, ctx);
        }
    }
}

// ---------------------------------------------------------------------------
// usize and isize
// ---------------------------------------------------------------------------
impl SizeWith<Endian> for usize {
    open spec fn spec_size_with(ctx: &Endian) -> usize {
        word_width() as usize
    }

    fn size_with(ctx: &Endian) -> (r: usize) {
        word_size()
    }
}

impl SizeWith<Endian> for isize {
    open spec fn spec_size_with(ctx: &Endian) -> usize {
        word_width() as usize
    }

    fn size_with(ctx: &Endian) -> (r: usize) {
        word_size()
    }
}

impl FromCtx<Endian> for usize {
    open spec fn readable(src: Seq<u8>, ctx: Endian) -> bool {
        src.len() >= word_width()
    }

    open spec fn spec_from_ctx(src: Seq<u8>, ctx: Endian) -> usize {
        int_value(src, word_width(), false, ctx) as usize
    }

    fn from_ctx(src: &[u8], ctx: Endian) -> (r: usize)
        ensures
            r as int == int_value(src@, word_width(), false, ctx),
    {
        let size = word_size();
        proof {
            vstd::layout::unsigned_int_max_values();
        }
        read_unsigned(src, size, ctx) as usize
    }
}

impl<'a> TryFromCtx<'a, Endian> for usize {
    open spec fn decode_ok(src: Seq<u8>, ctx: Endian, v: usize, n: usize) -> bool {
        int_decode_ok(src, word_width(), false, ctx, v as int, n)
    }

    open spec fn decode_err(src: Seq<u8>, ctx: Endian, e: Error) -> bool {
        int_decode_err(src, word_width(), e)
    }

    fn try_from_ctx(src: &'a [u8], ctx: Endian) -> (r: Result<(usize, usize), Error>) {
        let size = word_size();
        if size > src.len() {
            Err(Error::TooBig { size: size, len: src.len() })
        } else {
            Ok((<usize as FromCtx<Endian>>::from_ctx(src, ctx), size))
        }
    }
}

impl IntoCtx<Endian> for usize {
    open spec fn spec_into_ctx(self, ctx: Endian) -> Seq<u8> {
        int_bytes(self as int, word_width(), false, ctx)
    }

    fn into_ctx(self, dst: &mut [u8], ctx: Endian) {
        let size = word_size();
        write_unsigned(dst, self as u64, size, ctx);
    }
}

impl TryIntoCtx<Endian> for usize {
    open spec fn encode_ok(self, ctx: Endian, before: Seq<u8>, after: Seq<u8>, n: usize) -> bool {
        int_encode_ok(self as int, word_width(), false, ctx, before, after, n)
    }

    open spec fn encode_err(self, ctx: Endian, before: Seq<u8>, after: Seq<u8>, e: Error) -> bool {
        int_encode_err(word_width(), before, after, e)
    }

    fn try_into_ctx(self, dst: &mut [u8], ctx: Endian) -> (r: Result<usize, Error>) {
        let size = word_size();
        if size > dst.len() {
            Err(Error::TooBig { size: size, len: dst.len() })
        } else {
            <usize as IntoCtx<Endian>>::into_ctx(self, dst, ctx);
            Ok(size)
        }
    }
}

impl<'a> FixedInt<'a> for usize {
    open spec fn width() -> nat {
        word_width()
    }

    open spec fn signed() -> bool {
        false
    }

    open spec fn to_int(self) -> int {
        self as int
    }

    proof fn lemma_fixed(
        src: Seq<u8>,
        ctx: Endian,
        v: usize,
        w: usize,
        n: usize,
        after: Seq<u8>,
        e: Error,
    ) {
        vstd::layout::unsigned_int_max_values();
        if src.len() >= word_width() {
            lemma_int_bytes_of_value(src, word_width(), false, ctx);
        }
    }
}

// ---------------------------------------------------------------------------
// What holds of every integer type
// ---------------------------------------------------------------------------
/// Reading what was written, under the same byte order, yields the value that
/// was written, and consumes the bytes that writing produced: as many as the
/// size of the type.
pub proof fn lemma_write_then_read<'a, N: FixedInt<'a>>(
    v: N,
    ctx: Endian,
    before: Seq<u8>,
    after: Seq<u8>,
    n: usize,
    w: N,
    m: usize,
)
    requires
        v.encode_ok(ctx, before, after, n),
        N::decode_ok(after, ctx, w, m),
    ensures
        w == v,
        m == n,
        n == N::spec_size_with(&ctx),
{
    let e = Error::BadOffset(0);
    N::lemma_fixed(before, ctx, v, w, n, after, e);
    N::lemma_fixed(after, ctx, w, v, m, after, e);
    lemma_int_roundtrip(v.to_int(), N::width(), N::signed(), ctx, before.skip(N::width() as int));
}

/// The same of the conversions that cannot fail: the bytes of a value are as
/// many as the size of the type, a value can be read from them whatever
/// follows, and it is the value that was written.
pub proof fn lemma_into_then_from<'a, N: FixedInt<'a>>(v: N, ctx: Endian, rest: Seq<u8>)
    ensures
        v.spec_into_ctx(ctx).len() == N::spec_size_with(&ctx),
        N::readable(v.spec_into_ctx(ctx) + rest, ctx),
        N::spec_from_ctx(v.spec_into_ctx(ctx) + rest, ctx) == v,
{
    let e = Error::BadOffset(0);
    let src = v.spec_into_ctx(ctx) + rest;
    N::lemma_fixed(src, ctx, v, N::spec_from_ctx(src, ctx), 0, src, e);
    N::lemma_fixed(src, ctx, N::spec_from_ctx(src, ctx), v, 0, src, e);
    lemma_int_roundtrip(v.to_int(), N::width(), N::signed(), ctx, rest);
}

/// Reading succeeds exactly where the bytes at hand are at least as many as
/// the size of the type, and then it consumes exactly that many; where they
/// are fewer, the one failure is `TooBig` with both numbers.
pub proof fn lemma_read_needs_size<'a, N: FixedInt<'a>>(
    src: Seq<u8>,
    ctx: Endian,
    v: N,
    n: usize,
    e: Error,
)
    ensures
        N::decode_ok(src, ctx, v, n) ==> n == N::spec_size_with(&ctx) && n <= src.len(),
        N::decode_err(src, ctx, e) ==> src.len() < N::spec_size_with(&ctx) && e == (Error::TooBig {
            size: N::spec_size_with(&ctx),
            len: src.len() as usize,
        }),
        src.len() >= N::spec_size_with(&ctx) ==> N::decode_ok(
            src,
            ctx,
            N::spec_from_ctx(src, ctx),
            N::spec_size_with(&ctx),
        ),
{
    let w = N::spec_from_ctx(src, ctx);
    N::lemma_fixed(src, ctx, v, w, n, src, e);
    N::lemma_fixed(src, ctx, w, v, N::spec_size_with(&ctx), src, e);
}

/// No integer is read at an offset from which fewer bytes are left than the
/// size of its type: the outcome is a size failure.
pub proof fn lemma_read_out_of_range<'a, N: FixedInt<'a>>(
    src: Seq<u8>,
    offset: usize,
    ctx: Endian,
    r: Result<N, Error>,
)
    requires
        read_at::<Endian, N>(src, offset, ctx, r),
        offset + N::spec_size_with(&ctx) > src.len(),
    ensures
        r is Err,
        r->Err_0.is_size_failure(),
        offset >= src.len() ==> r->Err_0 == Error::BadOffset(offset),
{
    match r {
        Ok(v) => {
            let size = choose|size: usize| crate::pread::yields_at::<Endian, N>(
                src,
                offset as int,
                ctx,
                v,
                size,
            );
            N::lemma_fixed(src.skip(offset as int), ctx, v, v, size, src, Error::BadOffset(0));
        },
        Err(e) => {
            if offset < src.len() {
                N::lemma_fixed(src.skip(offset as int), ctx, arbitrary(), arbitrary(), 0, src, e);
            }
        },
    }
}

/// No integer is written at an offset from which fewer bytes are left than the
/// size of its type: the outcome is a size failure, and the destination is as
/// it was.
pub proof fn lemma_write_out_of_range<'a, N: FixedInt<'a>>(
    v: N,
    ctx: Endian,
    before: Seq<u8>,
    after: Seq<u8>,
    offset: usize,
    r: Result<usize, Error>,
)
    requires
        write_at::<Endian, N>(v, ctx, before, after, offset, r),
        offset + N::spec_size_with(&ctx) > before.len(),
    ensures
        r is Err,
        r->Err_0.is_size_failure(),
        after == before,
{
    if offset < before.len() {
        let head = before.skip(offset as int);
        let tail = after.skip(offset as int);
        match r {
            Ok(size) => {
                N::lemma_fixed(head, ctx, v, v, size, tail, Error::BadOffset(0));
            },
            Err(e) => {
                N::lemma_fixed(head, ctx, v, v, 0, tail, e);
                assert(after =~= after.take(offset as int) + tail);
                assert(before =~= before.take(offset as int) + head);
            },
        }
    }
}

} // verus!
