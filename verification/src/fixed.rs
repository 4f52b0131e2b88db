//! Integers of fixed width as bytes.
//!
//! An unsigned integer of `width` bytes is the number that its bytes spell in
//! base 256, the least significant byte first (little-endian) or last
//! (big-endian). A signed integer is written as the unsigned integer that has
//! the same bits in two's complement.

use crate::endian::Endian;
use crate::error::Error;
use vstd::arithmetic::div_mod::lemma_div_denominator;
use vstd::arithmetic::power2::{lemma2_to64, lemma2_to64_rest, lemma_pow2_adds, lemma_pow2_pos, pow2};
use vstd::prelude::*;

verus! {

// ---------------------------------------------------------------------------
// Unsigned integers
// ---------------------------------------------------------------------------
/// The number that `bytes` spell with the least significant byte first.
pub open spec fn le_value(bytes: Seq<u8>) -> nat
    decreases bytes.len(),
{
    if bytes.len() == 0 {
        0
    } else {
        bytes[0] as nat + 256 * le_value(bytes.skip(1))
    }
}

/// The number that `bytes` spell with the most significant byte first.
pub open spec fn be_value(bytes: Seq<u8>) -> nat
    decreases bytes.len(),
{
    if bytes.len() == 0 {
        0
    } else {
        256 * be_value(bytes.drop_last()) + bytes.last() as nat
    }
}

/// Digit `i` of `v` in base 256, digit 0 being the least significant.
pub open spec fn digit(v: nat, i: nat) -> u8 {
    ((v / pow2(8 * i)) % 256) as u8
}

/// The lowest `width` base-256 digits of `v`, the least significant first.
pub open spec fn le_bytes(v: nat, width: nat) -> Seq<u8> {
    Seq::new(width, |i: int| digit(v, i as nat))
}

/// The lowest `width` base-256 digits of `v`, the most significant first.
pub open spec fn be_bytes(v: nat, width: nat) -> Seq<u8> {
    Seq::new(width, |i: int| digit(v, (width - 1 - i) as nat))
}

/// The number that `bytes` spell in the given byte order.
pub open spec fn unsigned_value(bytes: Seq<u8>, endian: Endian) -> nat {
    match endian {
        Endian::Little => le_value(bytes),
        Endian::Big => be_value(bytes),
    }
}

/// The `width` bytes of `v` in the given byte order.
pub open spec fn unsigned_bytes(v: nat, width: nat, endian: Endian) -> Seq<u8> {
    match endian {
        Endian::Little => le_bytes(v, width),
        Endian::Big => be_bytes(v, width),
    }
}

// ---------------------------------------------------------------------------
// Two's complement
// ---------------------------------------------------------------------------
/// The signed number whose two's complement in `width` bytes is `v`.
pub open spec fn signed_of(v: nat, width: nat) -> int {
    if 2 * v >= pow2(8 * width) {
        v - pow2(8 * width)
    } else {
        v as int
    }
}

/// The two's complement of `x` in `width` bytes.
pub open spec fn unsigned_of(x: int, width: nat) -> nat {
    if x < 0 {
        (x + pow2(8 * width)) as nat
    } else {
        x as nat
    }
}

/// The numbers that an integer type of `width` bytes holds.
pub open spec fn int_in_range(x: int, width: nat, signed: bool) -> bool {
    if signed {
        -pow2(8 * width) <= 2 * x < pow2(8 * width)
    } else {
        0 <= x < pow2(8 * width)
    }
}

// ---------------------------------------------------------------------------
// Integers of either sign, as the conversions state them
// ---------------------------------------------------------------------------
/// The integer that the first `width` bytes of `src` spell.
pub open spec fn int_value(src: Seq<u8>, width: nat, signed: bool, endian: Endian) -> int {
    let v = unsigned_value(src.take(width as int), endian);
    if signed {
        signed_of(v, width)
    } else {
        v as int
    }
}

/// The `width` bytes that `x` is written as.
pub open spec fn int_bytes(x: int, width: nat, signed: bool, endian: Endian) -> Seq<u8> {
    unsigned_bytes(
        if signed {
            unsigned_of(x, width)
        } else {
            x as nat
        },
        width,
        endian,
    )
}

/// Reading an integer of `width` bytes succeeds: there are `width` bytes, they
/// spell `x`, and they are what is consumed.
pub open spec fn int_decode_ok(
    src: Seq<u8>,
    width: nat,
    signed: bool,
    endian: Endian,
    x: int,
    n: usize,
) -> bool {
    &&& width <= src.len()
    &&& n == width
    &&& x == int_value(src, width, signed, endian)
}

/// Reading an integer of `width` bytes fails: there are fewer bytes.
pub open spec fn int_decode_err(src: Seq<u8>, width: nat, e: Error) -> bool {
    &&& src.len() < width
    &&& e == Error::TooBig { size: width as usize, len: src.len() as usize }
}

/// Writing an integer of `width` bytes succeeds: its bytes stand at the head
/// of the destination, and what follows them is as it was.
pub open spec fn int_encode_ok(
    x: int,
    width: nat,
    signed: bool,
    endian: Endian,
    before: Seq<u8>,
    after: Seq<u8>,
    n: usize,
) -> bool {
    &&& width <= before.len()
    &&& n == width
    &&& after == int_bytes(x, width, signed, endian) + before.skip(width as int)
}

/// Writing an integer of `width` bytes fails: the destination is shorter, and
/// nothing is written.
pub open spec fn int_encode_err(width: nat, before: Seq<u8>, after: Seq<u8>, e: Error) -> bool {
    &&& before.len() < width
    &&& after == before
    &&& e == Error::TooBig { size: width as usize, len: before.len() as usize }
}

// ---------------------------------------------------------------------------
// Laws
// ---------------------------------------------------------------------------
/// Bytes spell a number below `256^len`.
pub proof fn lemma_value_bound(bytes: Seq<u8>, endian: Endian)
    ensures
        unsigned_value(bytes, endian) < pow2(8 * bytes.len()),
    decreases bytes.len(),
{
    lemma2_to64();
    if bytes.len() > 0 {
        let k = (bytes.len() - 1) as nat;
        lemma_pow2_adds(8, 8 * k);
        match endian {
            Endian::Little => lemma_value_bound(bytes.skip(1), endian),
            Endian::Big => lemma_value_bound(bytes.drop_last(), endian),
        }
    }
}

/// The digits above the lowest are the digits of the number divided by 256.
pub proof fn lemma_digit_shift(v: nat, i: nat)
    ensures
        digit(v, 0) == v % 256,
        digit(v, i + 1) == digit(v / 256, i),
{
    lemma2_to64();
    assert(v / pow2(0) == v) by {
        assert(pow2(0) == 1);
    }
    lemma_pow2_adds(8, 8 * i);
    lemma_pow2_pos(8 * i);
    lemma_div_denominator(v as int, 256, pow2(8 * i) as int);
}

/// The bytes of a number are its lowest digit and the bytes of the rest.
pub proof fn lemma_bytes_unfold(v: nat, width: nat)
    requires
        width > 0,
    ensures
        le_bytes(v, width) == seq![(v % 256) as u8] + le_bytes(v / 256, (width - 1) as nat),
        be_bytes(v, width) == be_bytes(v / 256, (width - 1) as nat).push((v % 256) as u8),
{
    let k = (width - 1) as nat;
    let le = seq![(v % 256) as u8] + le_bytes(v / 256, k);
    let be = be_bytes(v / 256, k).push((v % 256) as u8);
    lemma_digit_shift(v, 0);
    assert forall|i: int| 0 <= i < width implies le_bytes(v, width)[i] == le[i] by {
        if i > 0 {
            lemma_digit_shift(v, (i - 1) as nat);
        }
    }
    assert forall|i: int| 0 <= i < width implies be_bytes(v, width)[i] == be[i] by {
        if i < k {
            lemma_digit_shift(v, (k - 1 - i) as nat);
        }
    }
    assert(le_bytes(v, width) =~= le);
    assert(be_bytes(v, width) =~= be);
}

/// The big-endian bytes of a number are its little-endian bytes in reverse.
pub proof fn lemma_be_is_le_reversed(v: nat, width: nat)
    ensures
        be_bytes(v, width) == le_bytes(v, width).reverse(),
{
    assert(be_bytes(v, width) =~= le_bytes(v, width).reverse());
}

/// Reading back what was written yields the number that was written.
pub proof fn lemma_unsigned_roundtrip(v: nat, width: nat, endian: Endian)
    requires
        v < pow2(8 * width),
    ensures
        unsigned_value(unsigned_bytes(v, width, endian), endian) == v,
    decreases width,
{
    lemma2_to64();
    if width > 0 {
        let k = (width - 1) as nat;
        lemma_pow2_adds(8, 8 * k);
        lemma_unsigned_roundtrip(v / 256, k, endian);
        lemma_bytes_unfold(v, width);
        let rest = unsigned_bytes(v / 256, k, endian);
        match endian {
            Endian::Little => {
                assert(le_bytes(v, width).skip(1) =~= rest);
            },
            Endian::Big => {
                assert(be_bytes(v, width).drop_last() =~= rest);
            },
        }
    }
}

/// Writing what was read yields the bytes that were read: each number has one
/// encoding of a given width.
pub proof fn lemma_bytes_of_value(bytes: Seq<u8>, endian: Endian)
    ensures
        unsigned_bytes(unsigned_value(bytes, endian), bytes.len(), endian) == bytes,
    decreases bytes.len(),
{
    if bytes.len() > 0 {
        match endian {
            Endian::Little => {
                let rest = bytes.skip(1);
                lemma_bytes_of_value(rest, endian);
                lemma_bytes_unfold(le_value(bytes), bytes.len());
                assert(seq![bytes[0]] + rest =~= bytes);
            },
            Endian::Big => {
                let rest = bytes.drop_last();
                lemma_bytes_of_value(rest, endian);
                lemma_bytes_unfold(be_value(bytes), bytes.len());
                assert(rest.push(bytes.last()) =~= bytes);
            },
        }
    }
}

/// Two's complement loses nothing: a number in range comes back.
pub proof fn lemma_signed_roundtrip(x: int, width: nat)
    requires
        int_in_range(x, width, true),
    ensures
        unsigned_of(x, width) < pow2(8 * width),
        signed_of(unsigned_of(x, width), width) == x,
{
    lemma_pow2_pos(8 * width);
}

/// The other way round: the bits of an unsigned number, read as signed and
/// written back, are the same bits.
pub proof fn lemma_unsigned_of_signed(v: nat, width: nat)
    requires
        v < pow2(8 * width),
    ensures
        int_in_range(signed_of(v, width), width, true),
        unsigned_of(signed_of(v, width), width) == v,
{
    lemma_pow2_pos(8 * width);
}

/// An integer in the range of its type is written in exactly `width` bytes,
/// and reading them back, in the same byte order and whatever follows them,
/// yields the integer.
pub proof fn lemma_int_roundtrip(x: int, width: nat, signed: bool, endian: Endian, rest: Seq<u8>)
    requires
        int_in_range(x, width, signed),
    ensures
        int_bytes(x, width, signed, endian).len() == width,
        int_value(int_bytes(x, width, signed, endian) + rest, width, signed, endian) == x,
{
    let v = if signed {
        unsigned_of(x, width)
    } else {
        x as nat
    };
    if signed {
        lemma_signed_roundtrip(x, width);
    }
    lemma_unsigned_roundtrip(v, width, endian);
    let b = int_bytes(x, width, signed, endian);
    assert((b + rest).take(width as int) =~= b);
}

/// The bytes of an integer are the only `width` bytes that spell it: what is
/// read from `width` bytes is written as those bytes.
pub proof fn lemma_int_bytes_of_value(src: Seq<u8>, width: nat, signed: bool, endian: Endian)
    requires
        width <= src.len(),
    ensures
        int_in_range(int_value(src, width, signed, endian), width, signed),
        int_bytes(int_value(src, width, signed, endian), width, signed, endian) == src.take(
            width as int,
        ),
{
    let head = src.take(width as int);
    lemma_value_bound(head, endian);
    lemma_bytes_of_value(head, endian);
    if signed {
        lemma_unsigned_of_signed(unsigned_value(head, endian), width);
    }
}

/// An integer cannot be read from fewer bytes than its width, nor written into
/// fewer: the only outcome is the failure that names both sizes.
pub proof fn lemma_int_short(
    src: Seq<u8>,
    width: nat,
    signed: bool,
    endian: Endian,
    x: int,
    n: usize,
    after: Seq<u8>,
    e: Error,
)
    requires
        src.len() < width,
    ensures
        !int_decode_ok(src, width, signed, endian, x, n),
        !int_encode_ok(x, width, signed, endian, src, after, n),
        int_decode_err(src, width, e) ==> e.is_size_failure(),
        int_encode_err(width, src, after, e) ==> e.is_size_failure() && after == src,
{
}

// ---------------------------------------------------------------------------
// Reading and writing the bytes
// ---------------------------------------------------------------------------
/// The unsigned integer that the first `width` bytes of `src` spell.
pub fn read_unsigned(src: &[u8], width: usize, endian: Endian) -> (v: u64)
    requires
        width <= 8,
        width <= src@.len(),
    ensures
        v == unsigned_value(src@.take(width as int), endian),
        v < pow2(8 * (width as nat)),
{
    let ghost head = src@.take(width as int);
    let mut acc: u64 = 0;
    proof {
        lemma2_to64();
    }
    match endian {
        Endian::Little => {
            let mut i: usize = width;
            while i > 0
                invariant
                    i <= width <= 8,
                    width <= src@.len(),
                    head == src@.take(width as int),
                    acc == le_value(head.skip(i as int)),
                    acc < pow2(8 * ((width - i) as nat)),
                decreases i,
            {
                proof {
                    lemma2_to64();
                    lemma2_to64_rest();
                    lemma_pow2_adds(8, 8 * ((width - i) as nat));
                    lemma_pow2_adds(8 * ((width - i + 1) as nat), (64 - 8 * (width - i + 1)) as nat);
                    lemma_pow2_pos((64 - 8 * (width - i + 1)) as nat);
                    assert(pow2(8 * ((width - i + 1) as nat)) <= pow2(64)) by (nonlinear_arith)
                        requires
                            pow2(64) == pow2(8 * ((width - i + 1) as nat)) * pow2(
                                (64 - 8 * (width - i + 1)) as nat,
                            ),
                            pow2((64 - 8 * (width - i + 1)) as nat) > 0,
                    ;
                    assert(head.skip(i as int - 1).skip(1) =~= head.skip(i as int));
                    assert(head.skip(i as int - 1)[0] == src@[i as int - 1]);
                }
                i = i - 1;
                acc = acc * 256 + src[i] as u64;
            }
            assert(head.skip(0) =~= head);
        },
        Endian::Big => {
            let mut i: usize = 0;
            while i < width
                invariant
                    i <= width <= 8,
                    width <= src@.len(),
                    head == src@.take(width as int),
                    acc == be_value(head.take(i as int)),
                    acc < pow2(8 * (i as nat)),
                decreases width - i,
            {
                proof {
                    lemma2_to64();
                    lemma2_to64_rest();
                    lemma_pow2_adds(8, 8 * (i as nat));
                    lemma_pow2_adds(8 * ((i + 1) as nat), (64 - 8 * (i + 1)) as nat);
                    lemma_pow2_pos((64 - 8 * (i + 1)) as nat);
                    assert(pow2(8 * ((i + 1) as nat)) <= pow2(64)) by (nonlinear_arith)
                        requires
                            pow2(64) == pow2(8 * ((i + 1) as nat)) * pow2((64 - 8 * (i + 1)) as nat),
                            pow2((64 - 8 * (i + 1)) as nat) > 0,
                    ;
                    assert(head.take(i as int + 1).drop_last() =~= head.take(i as int));
                    assert(head.take(i as int + 1).last() == src@[i as int]);
                }
                acc = acc * 256 + src[i] as u64;
                i = i + 1;
            }
            assert(head.take(width as int) =~= head);
        },
    }
    acc
}

/// Writes the `width` bytes of `v` at the head of `dst`.
pub fn write_unsigned(dst: &mut [u8], v: u64, width: usize, endian: Endian)
    requires
        width <= 8,
        width <= old(dst)@.len(),
    ensures
        final(dst)@ == unsigned_bytes(v as nat, width as nat, endian) + old(dst)@.skip(width as int),
{
    let mut rest: u64 = v;
    let ghost whole = unsigned_bytes(v as nat, width as nat, endian);
    match endian {
        Endian::Little => {
            let mut i: usize = 0;
            while i < width
                invariant
                    i <= width <= 8,
                    width <= dst@.len(),
                    dst@.len() == old(dst)@.len(),
                    whole == le_bytes(v as nat, width as nat),
                    whole == dst@.take(i as int) + le_bytes(rest as nat, (width - i) as nat),
                    forall|j: int| i <= j < dst@.len() ==> dst@[j] == old(dst)@[j],
                decreases width - i,
            {
                let ghost prev = dst@;
                dst[i] = (rest % 256) as u8;
                proof {
                    lemma_bytes_unfold(rest as nat, (width - i) as nat);
                    assert(dst@.take(i as int + 1) =~= prev.take(i as int).push((rest % 256) as u8));
                    assert(le_bytes(rest as nat, (width - i) as nat) == seq![(rest % 256) as u8]
                        + le_bytes((rest / 256) as nat, (width - i - 1) as nat));
                    assert(whole =~= dst@.take(i as int + 1) + le_bytes(
                        (rest / 256) as nat,
                        (width - i - 1) as nat,
                    ));
                }
                rest = rest / 256;
                i = i + 1;
            }
            assert(dst@ =~= whole + old(dst)@.skip(width as int));
        },
        Endian::Big => {
            let mut i: usize = width;
            while i > 0
                invariant
                    i <= width <= 8,
                    width <= dst@.len(),
                    dst@.len() == old(dst)@.len(),
                    whole == be_bytes(v as nat, width as nat),
                    whole == be_bytes(rest as nat, i as nat) + dst@.subrange(i as int, width as int),
                    forall|j: int| width <= j < dst@.len() ==> dst@[j] == old(dst)@[j],
                decreases i,
            {
                let ghost prev = dst@;
                i = i - 1;
                dst[i] = (rest % 256) as u8;
                proof {
                    lemma_bytes_unfold(rest as nat, (i + 1) as nat);
                    assert(dst@.subrange(i as int, width as int) =~= seq![(rest % 256) as u8]
                        + prev.subrange(i as int + 1, width as int));
                    assert(be_bytes(rest as nat, (i + 1) as nat) == be_bytes(
                        (rest / 256) as nat,
                        i as nat,
                    ).push((rest % 256) as u8));
                    assert(whole =~= be_bytes((rest / 256) as nat, i as nat) + dst@.subrange(
                        i as int,
                        width as int,
                    ));
                }
                rest = rest / 256;
            }
            assert(dst@ =~= whole + old(dst)@.skip(width as int));
        },
    }
}

/// The signed integer whose two's complement in `width` bytes is `v`.
pub fn to_signed(v: u64, width: usize) -> (x: i64)
    requires
        1 <= width <= 8,
        v < pow2(8 * (width as nat)),
    ensures
        x == signed_of(v as nat, width as nat),
        int_in_range(x as int, width as nat, true),
{
    proof {
        lemma2_to64();
        lemma2_to64_rest();
        lemma_pow2_adds(1, (8 * width - 1) as nat);
        lemma_pow2_adds((8 * width - 1) as nat, (64 - 8 * width) as nat);
        lemma_pow2_pos((64 - 8 * width) as nat);
        lemma_pow2_pos((8 * width - 1) as nat);
        assert(pow2((8 * width - 1) as nat) <= pow2(63)) by (nonlinear_arith)
            requires
                pow2(63) == pow2((8 * width - 1) as nat) * pow2((64 - 8 * width) as nat),
                pow2((64 - 8 * width) as nat) > 0,
                pow2((8 * width - 1) as nat) > 0,
        ;
        vstd::bits::lemma_u64_shl_is_mul(1, (8 * width - 1) as u64);
    }
    let half: u64 = 1u64 << ((8 * width - 1) as u32);
    if v >= half {
        (v as i128 - 2 * (half as i128)) as i64
    } else {
        v as i64
    }
}

/// The two's complement of `x` in `width` bytes.
pub fn from_signed(x: i64, width: usize) -> (v: u64)
    requires
        1 <= width <= 8,
        int_in_range(x as int, width as nat, true),
    ensures
        v == unsigned_of(x as int, width as nat),
        v < pow2(8 * (width as nat)),
{
    proof {
        lemma2_to64();
        lemma2_to64_rest();
        lemma_pow2_adds(1, (8 * width - 1) as nat);
        lemma_pow2_adds((8 * width - 1) as nat, (64 - 8 * width) as nat);
        lemma_pow2_pos((64 - 8 * width) as nat);
        lemma_pow2_pos((8 * width - 1) as nat);
        assert(pow2((8 * width - 1) as nat) <= pow2(63)) by (nonlinear_arith)
            requires
                pow2(63) == pow2((8 * width - 1) as nat) * pow2((64 - 8 * width) as nat),
                pow2((64 - 8 * width) as nat) > 0,
                pow2((8 * width - 1) as nat) > 0,
        ;
        vstd::bits::lemma_u64_shl_is_mul(1, (8 * width - 1) as u64);
    }
    let half: u64 = 1u64 << ((8 * width - 1) as u32);
    if x < 0 {
        (x as i128 + 2 * (half as i128)) as u64
    } else {
        x as u64
    }
}

} // verus!
