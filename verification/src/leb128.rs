//! Integers of variable length: little-endian base 128.
//!
//! An integer is written in groups of seven bits, the lowest group first, one
//! group to a byte. The high bit of a byte says that another byte follows. The
//! tenth byte holds the one bit that is left of a 64-bit value, so only two
//! values of it are accepted.

use crate::ctx::{TryFromCtx, TryIntoCtx};
use crate::error::Error;
use byte::BytesExt;
use vstd::arithmetic::power2::{
    lemma2_to64, lemma2_to64_rest, lemma_pow2_adds, lemma_pow2_strictly_increases, pow2,
};
use vstd::bits::{lemma_u64_pow2_no_overflow, lemma_u64_shl_is_mul};
use vstd::prelude::*;

verus! {

/// The bit of a byte that says that a further byte follows.
pub const CONTINUATION_BIT: u8 = 0x80;

/// The bit of the last byte that holds the sign of a signed integer.
pub const SIGN_BIT: u8 = 0x40;

/// The most bytes that the encoding of a 64-bit integer takes.
pub const MAX_LEN: usize = 10;

/// The context under which an integer of variable length is read or written.
/// It selects nothing: the encoding has one form.
#[derive(Debug, PartialEq, Eq, Copy, Clone, Structural)]
pub struct Leb128;

impl Default for Leb128 {
    fn default() -> (r: Leb128)
        ensures
            r == Leb128,
    {
        Leb128
    }
}

/// An unsigned integer that is read and written in variable length.
#[derive(Debug, PartialEq, Eq, Copy, Clone, Structural)]
pub struct Uleb128(u64);

/// A signed integer that is read in variable length.
#[derive(Debug, PartialEq, Eq, Copy, Clone, Structural)]
pub struct Sleb128(i64);

impl View for Uleb128 {
    type V = u64;

    closed spec fn view(&self) -> u64 {
        self.0
    }
}

impl View for Sleb128 {
    type V = i64;

    closed spec fn view(&self) -> i64 {
        self.0
    }
}

// ---------------------------------------------------------------------------
// What the bytes mean
// ---------------------------------------------------------------------------
/// Each of the first `k` bytes announces a further byte.
pub open spec fn all_continue(src: Seq<u8>, k: int) -> bool {
    forall|j: int| 0 <= j < k ==> #[trigger] src[j] >= 0x80
}

/// The encoding at the head of `src` is `n` bytes long: byte `n - 1` is the
/// first one without the continuation bit.
pub open spec fn ends_at(src: Seq<u8>, n: int) -> bool {
    &&& 1 <= n <= src.len()
    &&& all_continue(src, n - 1)
    &&& src[n - 1] < 0x80
}

/// The number that the low seven bits of the first `n` bytes spell, the first
/// byte being the least significant group.
pub open spec fn groups_value(src: Seq<u8>, n: nat) -> nat
    decreases n,
{
    if n == 0 {
        0
    } else {
        groups_value(src, (n - 1) as nat) + (src[n - 1] % 128) as nat * pow2(7 * ((n - 1) as nat))
    }
}

/// The groups of the first `n` bytes as a two's complement number of `7 * n`
/// bits: bit `0x40` of byte `n - 1` is the sign.
pub open spec fn signed_groups_value(src: Seq<u8>, n: nat) -> int {
    if src[n - 1] % 128 >= 0x40 {
        groups_value(src, n) - pow2(7 * n)
    } else {
        groups_value(src, n) as int
    }
}

/// Reading an unsigned integer from `src` yields `v` and consumes `n` bytes.
pub open spec fn uleb128_decodes(src: Seq<u8>, v: u64, n: usize) -> bool {
    &&& ends_at(src, n as int)
    &&& n <= MAX_LEN
    &&& n == MAX_LEN ==> src[9] <= 1
    &&& v == groups_value(src, n as nat)
}

/// Reading a signed integer from `src` yields `v` and consumes `n` bytes.
pub open spec fn sleb128_decodes(src: Seq<u8>, v: i64, n: usize) -> bool {
    &&& ends_at(src, n as int)
    &&& n <= MAX_LEN
    &&& n == MAX_LEN ==> src[9] == 0x00 || src[9] == 0x7f
    &&& v == signed_groups_value(src, n as nat)
}

/// The failure that is reported for a tenth byte that would overflow 64 bits.
pub open spec fn overflow_error(len: nat) -> Error {
    Error::BadInput { range: 0..10, size: len as usize, msg: "failed to parse" }
}

/// Reading an unsigned integer from `src` fails with `e`: either the tenth
/// byte holds more than the one bit that is left, or the bytes end while a
/// further byte is announced.
pub open spec fn uleb128_fails(src: Seq<u8>, e: Error) -> bool {
    ||| src.len() >= MAX_LEN && all_continue(src, 9) && src[9] > 1 && e == overflow_error(src.len())
    ||| src.len() < MAX_LEN && all_continue(src, src.len() as int) && e == Error::BadOffset(
        src.len() as usize,
    )
}

/// Reading a signed integer from `src` fails with `e`.
pub open spec fn sleb128_fails(src: Seq<u8>, e: Error) -> bool {
    ||| src.len() >= MAX_LEN && all_continue(src, 9) && src[9] != 0x00 && src[9] != 0x7f && e
        == overflow_error(src.len())
    ||| src.len() < MAX_LEN && all_continue(src, src.len() as int) && e == Error::BadOffset(
        src.len() as usize,
    )
}

/// The shortest encoding of `v`.
pub open spec fn uleb128_bytes(v: nat) -> Seq<u8>
    decreases v,
{
    if v < 128 {
        seq![v as u8]
    } else {
        seq![(v % 128 + 128) as u8] + uleb128_bytes(v / 128)
    }
}

// ---------------------------------------------------------------------------
// Trusted: the byte-at-a-time read of the `byte` crate
// ---------------------------------------------------------------------------
/// One byte at `*offset`, read by `byte::BytesExt::read_with::<u8>` under
/// `byte::BE`. Inside the slice it hands out the byte at the offset and moves
/// the offset one on. At or behind the end it fails (`Incomplete` at the end,
/// `BadOffset` behind it) and leaves the offset alone; the two failures are
/// told apart by the offset, so the wrapper does not hand them on.
#[verifier::external_body]
fn read_byte(bytes: &[u8], offset: &mut usize) -> (r: Option<u8>)
    ensures
        match r {
            Some(b) => *old(offset) < bytes@.len() && b == bytes@[*old(offset) as int]
                && *final(offset) == *old(offset) + 1,
            None => *old(offset) >= bytes@.len() && *final(offset) == *old(offset),
        },
{
    match bytes.read_with::<u8>(offset, byte::BE) {
        Ok(b) => Some(b),
        Err(_) => None,
    }
}

// ---------------------------------------------------------------------------
// Arithmetic of groups
// ---------------------------------------------------------------------------
/// The first `n` groups stay below `2^(7n)`.
pub proof fn lemma_groups_value_bound(src: Seq<u8>, n: nat)
    ensures
        groups_value(src, n) < pow2(7 * n),
    decreases n,
{
    lemma2_to64();
    if n > 0 {
        let k = (n - 1) as nat;
        lemma_groups_value_bound(src, k);
        lemma_pow2_adds(7, 7 * k);
        let g = (src[n - 1] % 128) as nat;
        assert(g * pow2(7 * k) <= 127 * pow2(7 * k)) by (nonlinear_arith)
            requires
                g <= 127,
        ;
    }
}

/// The groups depend on the first `n` bytes only.
pub proof fn lemma_groups_value_prefix(a: Seq<u8>, b: Seq<u8>, n: nat)
    requires
        n <= a.len(),
        n <= b.len(),
        forall|j: int| 0 <= j < n ==> a[j] == b[j],
    ensures
        groups_value(a, n) == groups_value(b, n),
    decreases n,
{
    if n > 0 {
        lemma_groups_value_prefix(a, b, (n - 1) as nat);
    }
}

proof fn lemma_or_is_add(acc: u64, group: u64, s: u64)
    by (bit_vector)
    requires
        s < 64,
        acc < (1u64 << s),
    ensures
        (acc | (group << s)) == acc + (group << s),
{
}

/// Setting group `k` of an accumulator that holds the `k` groups below it.
proof fn lemma_place_group(acc: u64, group: u64, k: nat)
    requires
        k <= 9,
        acc < pow2(7 * k),
        group < 128,
        k == 9 ==> group <= 1,
    ensures
        (acc | (group << ((7 * k) as u64))) == acc + group * pow2(7 * k),
        acc + group * pow2(7 * k) <= u64::MAX,
        k < 9 ==> acc + group * pow2(7 * k) < pow2(7 * (k + 1)),
{
    let s = (7 * k) as u64;
    lemma2_to64();
    lemma2_to64_rest();
    lemma_u64_pow2_no_overflow(s as nat);
    lemma_u64_shl_is_mul(1, s);
    if k < 9 {
        lemma_pow2_adds(7, 7 * k);
        lemma_pow2_adds((56 - 7 * k) as nat, 7 * k);
        assert(pow2(7 * (k + 1)) <= pow2(63)) by {
            if k < 8 {
                lemma_pow2_strictly_increases(7 * (k + 1), 63);
            }
        }
        assert(group * pow2(7 * k) <= 127 * pow2(7 * k)) by (nonlinear_arith)
            requires
                group <= 127,
        ;
    } else {
        assert(group * pow2(63) <= pow2(63)) by (nonlinear_arith)
            requires
                group <= 1,
        ;
    }
    lemma_u64_shl_is_mul(group, s);
    lemma_or_is_add(acc, group, s);
}

/// The value of ten groups of a signed integer, whose tenth byte is `0x00` or
/// `0x7f`.
proof fn lemma_tenth_group(src: Seq<u8>, low: u64)
    requires
        src.len() >= 10,
        src[9] == 0x00 || src[9] == 0x7f,
        low == groups_value(src, 9),
        low < pow2(63),
    ensures
        src[9] == 0x00 ==> signed_groups_value(src, 10) == low,
        src[9] == 0x7f ==> signed_groups_value(src, 10) == low - 0x8000_0000_0000_0000,
{
    lemma2_to64();
    lemma2_to64_rest();
    lemma_pow2_adds(7, 63);
    let g = (src[9] % 128) as nat;
    assert(groups_value(src, 10) == groups_value(src, 9) + g * pow2(63));
    if src[9] == 0x00 {
        assert(g * pow2(63) == 0) by (nonlinear_arith)
            requires
                g == 0,
        ;
    } else {
        assert(g * pow2(63) == 127 * 0x8000_0000_0000_0000) by (nonlinear_arith)
            requires
                g == 127,
                pow2(63) == 0x8000_0000_0000_0000,
        ;
        assert(pow2(70) == 128 * 0x8000_0000_0000_0000) by (nonlinear_arith)
            requires
                pow2(70) == pow2(7) * pow2(63),
                pow2(7) == 128,
                pow2(63) == 0x8000_0000_0000_0000,
        ;
    }
}

fn mask_continuation(byte: u8) -> (r: u8)
    ensures
        r == byte % 128,
{
    assert(byte & !0x80u8 == byte % 128) by (bit_vector);
    byte & !CONTINUATION_BIT
}

fn has_continuation(byte: u8) -> (r: bool)
    ensures
        r == (byte >= 0x80),
{
    assert((byte & 0x80u8 != 0) == (byte >= 0x80)) by (bit_vector);
    byte & CONTINUATION_BIT != 0
}

fn has_sign(byte: u8) -> (r: bool)
    ensures
        r == (byte % 128 >= 0x40),
{
    assert((0x40u8 & byte == 0x40) == (byte % 128 >= 0x40)) by (bit_vector);
    (SIGN_BIT & byte) == SIGN_BIT
}

/// Moving one byte in at the front multiplies the groups behind it by 128.
proof fn lemma_groups_value_shift(s: Seq<u8>, n: nat)
    requires
        n < s.len(),
    ensures
        groups_value(s, n + 1) == (s[0] % 128) as nat + 128 * groups_value(s.skip(1), n),
    decreases n,
{
    lemma2_to64();
    let t = s.skip(1);
    let g = (s[n as int] % 128) as nat;
    assert(groups_value(s, n + 1) == groups_value(s, n) + g * pow2(7 * n));
    if n == 0 {
        assert(groups_value(s, 0) == 0);
        assert(groups_value(t, 0) == 0);
        assert(g * pow2(0) == g) by (nonlinear_arith)
            requires
                pow2(0) == 1,
        ;
    } else {
        let k = (n - 1) as nat;
        lemma_groups_value_shift(s, k);
        lemma_pow2_adds(7, 7 * k);
        assert(t[n - 1] == s[n as int]);
        assert(groups_value(t, n) == groups_value(t, k) + g * pow2(7 * k));
        assert(g * pow2(7 * n) == 128 * (g * pow2(7 * k))) by (nonlinear_arith)
            requires
                pow2(7 * n) == 128 * pow2(7 * k),
        ;
    }
}

/// The shape of the shortest encoding: every byte but the last announces a
/// further byte, the groups spell `v`, and no shorter run of groups could.
pub proof fn lemma_uleb128_bytes_shape(v: nat)
    ensures
        ends_at(uleb128_bytes(v), uleb128_bytes(v).len() as int),
        groups_value(uleb128_bytes(v), uleb128_bytes(v).len()) == v,
        uleb128_bytes(v).len() == 1 || v >= pow2(7 * ((uleb128_bytes(v).len() - 1) as nat)),
    decreases v,
{
    lemma2_to64();
    let b = uleb128_bytes(v);
    if v < 128 {
        assert(b.len() == 1);
        assert(groups_value(b, 0) == 0);
        assert(groups_value(b, 1) == groups_value(b, 0) + (b[0] % 128) as nat * pow2(0));
    } else {
        let t = uleb128_bytes(v / 128);
        lemma_uleb128_bytes_shape(v / 128);
        assert(b.skip(1) =~= t);
        assert forall|j: int| 0 <= j < b.len() - 1 implies #[trigger] b[j] >= 0x80 by {
            if j > 0 {
                assert(b[j] == t[j - 1]);
            }
        }
        assert(b[b.len() - 1] == t[t.len() - 1]);
        lemma_groups_value_shift(b, t.len());
        assert((b[0] % 128) as nat == v % 128);
        let m = (t.len() - 1) as nat;
        lemma_pow2_adds(7, 7 * m);
        if t.len() == 1 {
            assert(pow2(7 * m) == 1);
        }
    }
}

// ---------------------------------------------------------------------------
// Reading
// ---------------------------------------------------------------------------
impl Uleb128 {
    /// The integer as a plain number.
    pub fn value(&self) -> (r: u64)
        ensures
            r == self@,
    {
        self.0
    }

    /// Reads an unsigned integer from the head of `bytes`, and says how many
    /// bytes it took.
    pub fn try_read(bytes: &[u8], _ctx: ()) -> (r: Result<(Uleb128, usize), Error>)
        ensures
            match r {
                Ok((v, n)) => uleb128_decodes(bytes@, v@, n),
                Err(e) => uleb128_fails(bytes@, e),
            },
    {
        let mut result: u64 = 0;
        let mut shift: u32 = 0;
        let mut count: usize = 0;
        proof {
            lemma2_to64();
        }
        loop
            invariant
                count <= 9,
                count <= bytes@.len(),
                shift == 7 * count,
                all_continue(bytes@, count as int),
                result == groups_value(bytes@, count as nat),
                result < pow2(7 * (count as nat)),
            decreases 10 - count,
        {
            let ghost k = count as nat;
            let byte = match read_byte(bytes, &mut count) {
                Some(b) => b,
                None => {
                    return Err(Error::BadOffset(count));
                },
            };
            if shift == 63 && byte != 0x00 && byte != 0x01 {
                return Err(Error::BadInput { range: 0..count, size: bytes.len(), msg: "failed to parse" });
            }
            let low_bits = mask_continuation(byte) as u64;
            proof {
                lemma_place_group(result, low_bits, k);
            }
            result |= low_bits << shift;
            shift += 7;
            if !has_continuation(byte) {
                return Ok((Uleb128(result), count));
            }
        }
    }
}

impl Sleb128 {
    /// The integer as a plain number.
    pub fn value(&self) -> (r: i64)
        ensures
            r == self@,
    {
        self.0
    }

    /// Reads a signed integer from the head of `bytes`, and says how many bytes
    /// it took.
    pub fn try_read(bytes: &[u8], _ctx: ()) -> (r: Result<(Sleb128, usize), Error>)
        ensures
            match r {
                Ok((v, n)) => sleb128_decodes(bytes@, v@, n),
                Err(e) => sleb128_fails(bytes@, e),
            },
    {
        let mut result: u64 = 0;
        let mut shift: u32 = 0;
        let mut count: usize = 0;
        proof {
            lemma2_to64();
        }
        loop
            invariant
                count <= 9,
                count <= bytes@.len(),
                shift == 7 * count,
                all_continue(bytes@, count as int),
                result == groups_value(bytes@, count as nat),
                result < pow2(7 * (count as nat)),
            decreases 10 - count,
        {
            let ghost k = count as nat;
            let byte = match read_byte(bytes, &mut count) {
                Some(b) => b,
                None => {
                    return Err(Error::BadOffset(count));
                },
            };
            if shift == 63 && byte != 0x00 && byte != 0x7f {
                return Err(Error::BadInput { range: 0..count, size: bytes.len(), msg: "failed to parse" });
            }
            proof {
                lemma2_to64();
                lemma2_to64_rest();
                lemma_pow2_adds(7, 7 * k);
            }
            if shift == 63 {
                // Of the tenth byte one bit is left: the sign.
                let value: i64 = if byte == 0x7f {
                    (result as i128 - 0x8000_0000_0000_0000i128) as i64
                } else {
                    result as i64
                };
                proof {
                    lemma_tenth_group(bytes@, result);
                }
                return Ok((Sleb128(value), count));
            }
            let low_bits = mask_continuation(byte) as u64;
            proof {
                lemma_place_group(result, low_bits, k);
            }
            result |= low_bits << shift;
            shift += 7;
            if !has_continuation(byte) {
                proof {
                    lemma_u64_pow2_no_overflow(shift as nat);
                    lemma_u64_shl_is_mul(1, shift as u64);
                }
                let value: i64 = if has_sign(byte) {
                    // Sign extend the result.
                    (result as i128 - (1u64 << shift) as i128) as i64
                } else {
                    result as i64
                };
                return Ok((Sleb128(value), count));
            }
        }
    }
}

impl<'a> TryFromCtx<'a, Leb128> for Uleb128 {
    open spec fn decode_ok(src: Seq<u8>, ctx: Leb128, v: Self, n: usize) -> bool {
        uleb128_decodes(src, v@, n)
    }

    open spec fn decode_err(src: Seq<u8>, ctx: Leb128, e: Error) -> bool {
        uleb128_fails(src, e)
    }

    fn try_from_ctx(src: &'a [u8], ctx: Leb128) -> (r: Result<(Self, usize), Error>) {
        Uleb128::try_read(src, ())
    }
}

impl<'a> TryFromCtx<'a, Leb128> for Sleb128 {
    open spec fn decode_ok(src: Seq<u8>, ctx: Leb128, v: Self, n: usize) -> bool {
        sleb128_decodes(src, v@, n)
    }

    open spec fn decode_err(src: Seq<u8>, ctx: Leb128, e: Error) -> bool {
        sleb128_fails(src, e)
    }

    fn try_from_ctx(src: &'a [u8], ctx: Leb128) -> (r: Result<(Self, usize), Error>) {
        Sleb128::try_read(src, ())
    }
}

// ---------------------------------------------------------------------------
// Writing
// ---------------------------------------------------------------------------
/// Writing `v` into `before` succeeds: the shortest encoding stands at the
/// head of `after`, the rest is untouched.
pub open spec fn uleb128_encodes(v: u64, before: Seq<u8>, after: Seq<u8>, n: usize) -> bool {
    &&& n == uleb128_bytes(v as nat).len()
    &&& n <= before.len()
    &&& after == uleb128_bytes(v as nat) + before.skip(n as int)
}

/// Writing `v` into `before` fails: the destination is too short and stays as
/// it was.
pub open spec fn uleb128_refuses(v: u64, before: Seq<u8>, after: Seq<u8>, e: Error) -> bool {
    &&& uleb128_bytes(v as nat).len() > before.len()
    &&& after == before
    &&& e == Error::TooBig {
        size: uleb128_bytes(v as nat).len() as usize,
        len: before.len() as usize,
    }
}

proof fn lemma_shr7(x: u64)
    ensures
        x >> 7 == x / 128,
        (((x & 0x7f) as u8) | 0x80u8) == x % 128 + 128,
{
    assert(x >> 7 == x / 128) by (bit_vector);
    assert((((x & 0x7f) as u8) | 0x80u8) == x % 128 + 128) by (bit_vector);
}

impl Uleb128 {
    /// An integer to be written in variable length.
    pub fn new(value: u64) -> (r: Uleb128)
        ensures
            r@ == value,
    {
        Uleb128(value)
    }

    /// The number of bytes that the shortest encoding of `value` takes.
    pub fn encoded_len(value: u64) -> (n: usize)
        ensures
            n == uleb128_bytes(value as nat).len(),
            1 <= n <= MAX_LEN,
    {
        let mut cur: u64 = value;
        let mut n: usize = 1;
        proof {
            lemma2_to64();
            lemma2_to64_rest();
        }
        while cur >= 128
            invariant
                1 <= n <= 10,
                n + uleb128_bytes(cur as nat).len() == 1 + uleb128_bytes(value as nat).len(),
                cur < pow2((71 - 7 * n) as nat),
            decreases cur,
        {
            proof {
                lemma_shr7(cur);
                lemma2_to64();
                if n < 10 {
                    lemma_pow2_adds(7, (64 - 7 * n) as nat);
                }
            }
            cur = cur >> 7;
            n = n + 1;
        }
        n
    }
}

impl TryIntoCtx<Leb128> for Uleb128 {
    open spec fn encode_ok(self, ctx: Leb128, before: Seq<u8>, after: Seq<u8>, n: usize) -> bool {
        uleb128_encodes(self@, before, after, n)
    }

    open spec fn encode_err(self, ctx: Leb128, before: Seq<u8>, after: Seq<u8>, e: Error) -> bool {
        uleb128_refuses(self@, before, after, e)
    }

    /// Writes the shortest encoding at the head of `dst`, or nothing where it
    /// does not fit.
    fn try_into_ctx(self, dst: &mut [u8], ctx: Leb128) -> (r: Result<usize, Error>) {
        let size = Uleb128::encoded_len(self.0);
        if size > dst.len() {
            return Err(Error::TooBig { size, len: dst.len() });
        }
        let ghost whole = uleb128_bytes(self.0 as nat);
        let mut cur: u64 = self.0;
        let mut i: usize = 0;
        while cur >= 128
            invariant
                dst@.len() == old(dst)@.len(),
                size == whole.len(),
                size <= dst@.len(),
                whole == uleb128_bytes(self.0 as nat),
                i + uleb128_bytes(cur as nat).len() == size,
                whole == dst@.take(i as int) + uleb128_bytes(cur as nat),
                forall|j: int| i <= j < dst@.len() ==> dst@[j] == old(dst)@[j],
            decreases cur,
        {
            proof {
                lemma_shr7(cur);
            }
            let ghost prev = dst@;
            dst[i] = ((cur & 0x7f) as u8) | CONTINUATION_BIT;
            assert(dst@.take(i as int + 1) == prev.take(i as int).push((cur % 128 + 128) as u8));
            assert(uleb128_bytes(cur as nat) == seq![(cur % 128 + 128) as u8] + uleb128_bytes(
                (cur / 128) as nat,
            ));
            assert(whole == dst@.take(i as int + 1) + uleb128_bytes((cur / 128) as nat));
            cur = cur >> 7;
            i = i + 1;
        }
        let ghost prev = dst@;
        dst[i] = cur as u8;
        assert(dst@.take(i as int + 1) == prev.take(i as int).push(cur as u8));
        assert(dst@ == whole + old(dst)@.skip(size as int));
        Ok(i + 1)
    }
}

// ---------------------------------------------------------------------------
// Access to the number
// ---------------------------------------------------------------------------
impl core::ops::Deref for Uleb128 {
    type Target = u64;

    fn deref(&self) -> (r: &u64)
        ensures
            *r == self@,
    {
        &self.0
    }
}

impl core::ops::DerefMut for Uleb128 {
    fn deref_mut(&mut self) -> (r: &mut u64)
        ensures
            *r == old(self)@,
            final(self)@ == *final(r),
    {
        &mut self.0
    }
}

impl core::ops::Deref for Sleb128 {
    type Target = i64;

    fn deref(&self) -> (r: &i64)
        ensures
            *r == self@,
    {
        &self.0
    }
}

impl core::ops::DerefMut for Sleb128 {
    fn deref_mut(&mut self) -> (r: &mut i64)
        ensures
            *r == old(self)@,
            final(self)@ == *final(r),
    {
        &mut self.0
    }
}

impl From<Uleb128> for u64 {
    fn from(v: Uleb128) -> (r: u64) {
        v.0
    }
}

impl vstd::std_specs::convert::FromSpecImpl<Uleb128> for u64 {
    open spec fn obeys_from_spec() -> bool {
        true
    }

    open spec fn from_spec(v: Uleb128) -> u64 {
        v@
    }
}

impl From<Sleb128> for i64 {
    fn from(v: Sleb128) -> (r: i64) {
        v.0
    }
}

impl vstd::std_specs::convert::FromSpecImpl<Sleb128> for i64 {
    open spec fn obeys_from_spec() -> bool {
        true
    }

    open spec fn from_spec(v: Sleb128) -> i64 {
        v@
    }
}

// ---------------------------------------------------------------------------
// What holds of reading and writing
// ---------------------------------------------------------------------------
/// Reading the shortest encoding of `v`, whatever follows it, yields `v` and
/// consumes the encoding exactly.
pub proof fn lemma_uleb128_roundtrip(v: u64, rest: Seq<u8>)
    ensures
        uleb128_bytes(v as nat).len() <= MAX_LEN,
        uleb128_decodes(
            uleb128_bytes(v as nat) + rest,
            v,
            uleb128_bytes(v as nat).len() as usize,
        ),
{
    let b = uleb128_bytes(v as nat);
    let src = b + rest;
    let m = b.len();
    lemma_uleb128_bytes_shape(v as nat);
    lemma2_to64();
    lemma2_to64_rest();
    if m > 10 {
        lemma_pow2_strictly_increases(64, 7 * ((m - 1) as nat));
    }
    assert forall|j: int| 0 <= j < m implies src[j] == b[j] by {}
    lemma_groups_value_prefix(src, b, m);
    assert(all_continue(src, m - 1)) by {
        assert forall|j: int| 0 <= j < m - 1 implies #[trigger] src[j] >= 0x80 by {
            assert(b[j] >= 0x80);
        }
    }
    if m == 10 {
        lemma_groups_value_bound(b, 9);
        assert(groups_value(b, 10) == groups_value(b, 9) + (b[9] % 128) as nat * pow2(63));
        assert(b[9] <= 1) by (nonlinear_arith)
            requires
                (b[9] % 128) as nat * pow2(63) <= v,
                pow2(63) == 0x8000_0000_0000_0000,
                v <= 0xffff_ffff_ffff_ffff,
                b[9] < 128,
        ;
    }
}

/// No encoding of `v` that reading accepts is shorter than `uleb128_bytes(v)`.
pub proof fn lemma_uleb128_bytes_shortest(src: Seq<u8>, v: u64, n: usize)
    requires
        uleb128_decodes(src, v, n),
    ensures
        uleb128_bytes(v as nat).len() <= n,
{
    let m = uleb128_bytes(v as nat).len();
    lemma_uleb128_bytes_shape(v as nat);
    lemma_groups_value_bound(src, n as nat);
    if m > n {
        if m - 1 > n {
            lemma_pow2_strictly_increases(7 * (n as nat), 7 * ((m - 1) as nat));
        }
    }
}

/// Reading has one outcome: a byte sequence cannot both spell a value and be
/// refused, and it spells at most one value of one length.
pub proof fn lemma_uleb128_one_outcome(src: Seq<u8>, v1: u64, n1: usize, v2: u64, n2: usize, e: Error)
    requires
        uleb128_decodes(src, v1, n1),
    ensures
        !uleb128_fails(src, e),
        uleb128_decodes(src, v2, n2) ==> v1 == v2 && n1 == n2,
{
    assert(src[n1 - 1] < 0x80);
    if uleb128_decodes(src, v2, n2) {
        assert(src[n2 - 1] < 0x80);
    }
}

/// The same of signed integers.
pub proof fn lemma_sleb128_one_outcome(src: Seq<u8>, v1: i64, n1: usize, v2: i64, n2: usize, e: Error)
    requires
        sleb128_decodes(src, v1, n1),
    ensures
        !sleb128_fails(src, e),
        sleb128_decodes(src, v2, n2) ==> v1 == v2 && n1 == n2,
{
    assert(src[n1 - 1] < 0x80);
    if sleb128_decodes(src, v2, n2) {
        assert(src[n2 - 1] < 0x80);
    }
}

/// Reading what was written yields the value that was written and consumes
/// the bytes that writing produced; and no byte sequence that reads as the
/// same value is shorter than what writing produces.
pub proof fn lemma_uleb128_write_then_read(
    v: Uleb128,
    before: Seq<u8>,
    after: Seq<u8>,
    n: usize,
    w: Uleb128,
    m: usize,
    other: Seq<u8>,
    k: usize,
)
    requires
        v.encode_ok(Leb128, before, after, n),
        Uleb128::decode_ok(after, Leb128, w, m),
    ensures
        w == v,
        m == n,
        Uleb128::decode_ok(other, Leb128, v, k) ==> n <= k,
{
    lemma_uleb128_roundtrip(v@, before.skip(n as int));
    lemma_uleb128_one_outcome(after, v@, n, w@, m, Error::BadOffset(0));
    if Uleb128::decode_ok(other, Leb128, v, k) {
        lemma_uleb128_bytes_shortest(other, v@, k);
    }
}

} // verus!
