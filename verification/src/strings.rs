//! Strings and byte slices as views into the bytes they are read from.
//!
//! A view is taken in one of three ways: by a length, up to a delimiter, or up
//! to a delimiter that has to come within a bound. A string is a view whose
//! bytes are valid UTF-8; a byte slice is the view as it is.

use crate::ctx::{TryFromCtx, TryIntoCtx};
use crate::endian::Endian;
use crate::error::Error;
use crate::pread::{read_at, yields_at};
use vstd::prelude::*;
use vstd::string::StringSliceAdditionalSpecFns;
use vstd::utf8::{decode_utf8, encode_utf8_decode_utf8, valid_utf8};

verus! {

/// How the end of a string or of a byte slice is found.
#[derive(Debug, Copy, Clone)]
pub enum StrCtx {
    /// The view ends before the first byte equal to the delimiter, which is
    /// consumed with it, or at the end of the bytes where no such byte comes.
    Delimiter(u8),
    /// As `Delimiter`, but the delimiter has to stand among the first bytes,
    /// as many as the bound says.
    DelimiterUntil(u8, usize),
    /// The view is exactly so many bytes long.
    Length(usize),
}

/// The delimiter of strings that end in a zero byte.
pub const NULL: u8 = 0;

/// The space as a delimiter.
pub const SPACE: u8 = 0x20;

/// The newline as a delimiter.
pub const RET: u8 = 0x0a;

/// The tabulator as a delimiter.
pub const TAB: u8 = 0x09;

impl Default for StrCtx {
    /// Strings end in a zero byte unless the caller says otherwise.
    fn default() -> (r: StrCtx)
        ensures
            r == StrCtx::Delimiter(NULL),
    {
        StrCtx::Delimiter(NULL)
    }
}

// ---------------------------------------------------------------------------
// Where a view ends
// ---------------------------------------------------------------------------
/// The index of the first byte of `src` that equals `d`, or the length of `src`
/// where none does.
pub open spec fn delimiter_index(src: Seq<u8>, d: u8) -> nat
    decreases src.len(),
{
    if src.len() == 0 || src[0] == d {
        0
    } else {
        1 + delimiter_index(src.skip(1), d)
    }
}

/// The length of the view at the head of `src` and the number of bytes that
/// taking it consumes, or the size failure where the view does not fit.
pub open spec fn str_span(src: Seq<u8>, ctx: StrCtx) -> Result<(usize, usize), Error> {
    match ctx {
        StrCtx::Length(n) => if n <= src.len() {
            Ok((n, n))
        } else {
            Err(Error::TooBig { size: n, len: src.len() as usize })
        },
        StrCtx::Delimiter(d) => {
            let k = delimiter_index(src, d);
            if k < src.len() {
                Ok((k as usize, (k + 1) as usize))
            } else {
                Ok((k as usize, k as usize))
            }
        },
        StrCtx::DelimiterUntil(d, n) => if n > src.len() {
            Err(Error::TooBig { size: n, len: src.len() as usize })
        } else {
            let k = delimiter_index(src.take(n as int), d);
            if k < n {
                Ok((k as usize, (k + 1) as usize))
            } else {
                Err(Error::BadRange { range: 0..n, size: src.len() as usize })
            }
        },
    }
}

/// `k` is where the valid UTF-8 at the head of `bytes` ends: the longest
/// prefix that is valid is `k` bytes long.
pub open spec fn valid_prefix(bytes: Seq<u8>, k: int) -> bool {
    &&& 0 <= k <= bytes.len()
    &&& valid_utf8(bytes.take(k))
    &&& forall|j: int| k < j <= bytes.len() ==> !valid_utf8(#[trigger] bytes.take(j))
}

/// The failure that is reported for a view of `len` bytes, at the head of
/// `size` bytes, that stops being valid UTF-8 at `k`.
pub open spec fn utf8_error(k: int, len: usize, size: nat) -> Error {
    Error::BadInput { range: (k as usize)..len, size: size as usize, msg: "invalid utf8" }
}

/// The delimiter index is the one index before which no byte is the
/// delimiter and at which the delimiter or the end stands.
pub proof fn lemma_delimiter_index(src: Seq<u8>, d: u8, k: int)
    requires
        0 <= k <= src.len(),
        forall|j: int| 0 <= j < k ==> src[j] != d,
        k == src.len() || src[k] == d,
    ensures
        delimiter_index(src, d) == k,
    decreases src.len(),
{
    if k > 0 {
        lemma_delimiter_index(src.skip(1), d, k - 1);
    }
}

/// The delimiter index never lies behind the end, and where it lies inside,
/// the delimiter stands there and nowhere before.
pub proof fn lemma_delimiter_index_is_first(src: Seq<u8>, d: u8)
    ensures
        delimiter_index(src, d) <= src.len(),
        delimiter_index(src, d) < src.len() ==> src[delimiter_index(src, d) as int] == d,
        forall|j: int| 0 <= j < delimiter_index(src, d) ==> src[j] != d,
    decreases src.len(),
{
    if src.len() > 0 && src[0] != d {
        let rest = src.skip(1);
        lemma_delimiter_index_is_first(rest, d);
        assert forall|j: int| 0 <= j < delimiter_index(src, d) implies src[j] != d by {
            if j > 0 {
                assert(rest[j - 1] == src[j]);
            }
        }
    }
}

/// A view never reaches over the end of the bytes, and taking it consumes the
/// view and at most the one byte of its delimiter.
pub proof fn lemma_str_span_fits(src: Seq<u8>, ctx: StrCtx)
    requires
        src.len() <= usize::MAX,
    ensures
        match str_span(src, ctx) {
            Ok((len, used)) => len <= used <= src.len() && used <= len + 1,
            Err(e) => e.is_size_failure(),
        },
{
    match ctx {
        StrCtx::Length(n) => {},
        StrCtx::Delimiter(d) => {
            lemma_delimiter_index_is_first(src, d);
        },
        StrCtx::DelimiterUntil(d, n) => {
            if n <= src.len() {
                lemma_delimiter_index_is_first(src.take(n as int), d);
            }
        },
    }
}

// ---------------------------------------------------------------------------
// Trusted: the UTF-8 validation of the standard library
// ---------------------------------------------------------------------------
/// `core::str::from_utf8`, with its error reduced to the one number that
/// `Utf8Error::valid_up_to` reports. The standard library promises that the
/// call succeeds exactly on valid UTF-8, that the string it hands out is a view
/// of the very bytes it was given, and that on failure `valid_up_to` is the
/// largest index up to which the bytes are valid.
#[verifier::external_body]
fn str_from_utf8<'a>(bytes: &'a [u8]) -> (r: Result<&'a str, usize>)
    ensures
        match r {
            Ok(s) => valid_utf8(bytes@) && s.spec_bytes() == bytes@,
            Err(k) => !valid_utf8(bytes@) && valid_prefix(bytes@, k as int),
        },
{
    match core::str::from_utf8(bytes) {
        Ok(s) => Ok(s),
        Err(e) => Err(e.valid_up_to()),
    }
}

// ---------------------------------------------------------------------------
// Reading
// ---------------------------------------------------------------------------
/// Counts the bytes at the head of `src` that come before the first one equal
/// to `delimiter`, looking at no more than the first `limit` bytes.
fn count_until(src: &[u8], delimiter: u8, limit: usize) -> (count: usize)
    requires
        limit <= src@.len(),
    ensures
        count == delimiter_index(src@.take(limit as int), delimiter),
        count <= limit,
{
    let mut count: usize = 0;
    while count < limit && src[count] != delimiter
        invariant
            count <= limit <= src@.len(),
            forall|j: int| 0 <= j < count ==> src@[j] != delimiter,
        decreases limit - count,
    {
        count = count + 1;
    }
    proof {
        lemma_delimiter_index(src@.take(limit as int), delimiter, count as int);
    }
    count
}

/// Finds the view at the head of `src`: its length, and how many bytes taking
/// it consumes.
pub fn span(src: &[u8], ctx: StrCtx) -> (r: Result<(usize, usize), Error>)
    ensures
        r == str_span(src@, ctx),
        r matches Ok((len, used)) ==> len <= used <= src@.len(),
{
    match ctx {
        StrCtx::Length(len) => {
            if len > src.len() {
                Err(Error::TooBig { size: len, len: src.len() })
            } else {
                Ok((len, len))
            }
        },
        StrCtx::Delimiter(delimiter) => {
            let count = count_until(src, delimiter, src.len());
            assert(src@.take(src@.len() as int) =~= src@);
            if count < src.len() {
                Ok((count, count + 1))
            } else {
                Ok((count, count))
            }
        },
        StrCtx::DelimiterUntil(delimiter, len) => {
            if len > src.len() {
                return Err(Error::TooBig { size: len, len: src.len() });
            }
            let count = count_until(src, delimiter, len);
            if count < len {
                Ok((count, count + 1))
            } else {
                Err(Error::BadRange { range: 0..len, size: src.len() })
            }
        },
    }
}

impl<'a> TryFromCtx<'a, StrCtx> for &'a [u8] {
    open spec fn decode_ok(src: Seq<u8>, ctx: StrCtx, v: &'a [u8], n: usize) -> bool {
        &&& str_span(src, ctx) matches Ok((len, used))
        &&& n == used
        &&& v@ == src.take(len as int)
    }

    open spec fn decode_err(src: Seq<u8>, ctx: StrCtx, e: Error) -> bool {
        str_span(src, ctx) == Err::<(usize, usize), Error>(e)
    }

    /// The bytes of the view, as they are.
    fn try_from_ctx(src: &'a [u8], ctx: StrCtx) -> (r: Result<(&'a [u8], usize), Error>) {
        match span(src, ctx) {
            Ok((len, used)) => Ok((vstd::slice::slice_subrange(src, 0, len), used)),
            Err(e) => Err(e),
        }
    }
}

impl<'a> TryFromCtx<'a, StrCtx> for &'a str {
    open spec fn decode_ok(src: Seq<u8>, ctx: StrCtx, v: &'a str, n: usize) -> bool {
        &&& str_span(src, ctx) matches Ok((len, used))
        &&& n == used
        &&& valid_utf8(src.take(len as int))
        &&& v.spec_bytes() == src.take(len as int)
        &&& v@ == decode_utf8(src.take(len as int))
    }

    open spec fn decode_err(src: Seq<u8>, ctx: StrCtx, e: Error) -> bool {
        match str_span(src, ctx) {
            Ok((len, used)) => exists|k: int|
                #![trigger valid_prefix(src.take(len as int), k)]
                {
                    &&& valid_prefix(src.take(len as int), k)
                    &&& !valid_utf8(src.take(len as int))
                    &&& e == utf8_error(k, len, src.len())
                },
            Err(size_failure) => e == size_failure,
        }
    }

    /// The view as a string, where its bytes are valid UTF-8.
    fn try_from_ctx(src: &'a [u8], ctx: StrCtx) -> (r: Result<(&'a str, usize), Error>) {
        let (len, used) = match span(src, ctx) {
            Ok(found) => found,
            Err(e) => {
                return Err(e);
            },
        };
        let bytes = vstd::slice::slice_subrange(src, 0, len);
        match str_from_utf8(bytes) {
            Ok(s) => {
                proof {
                    encode_utf8_decode_utf8(s@);
                }
                Ok((s, used))
            },
            Err(k) => {
                Err(Error::BadInput { range: k..len, size: src.len(), msg: "invalid utf8" })
            },
        }
    }
}

/// No view of a given length is read at an offset from which fewer bytes are
/// left: the outcome is a failure of place or size, as a string and as bytes.
pub proof fn lemma_length_out_of_range<'a>(
    src: Seq<u8>,
    offset: usize,
    len: usize,
    text: Result<&'a str, Error>,
    bytes: Result<&'a [u8], Error>,
)
    requires
        src.len() <= usize::MAX,
        offset + len > src.len(),
        read_at::<StrCtx, &'a str>(src, offset, StrCtx::Length(len), text),
        read_at::<StrCtx, &'a [u8]>(src, offset, StrCtx::Length(len), bytes),
    ensures
        text is Err,
        text->Err_0.is_size_failure(),
        bytes is Err,
        bytes->Err_0.is_size_failure(),
{
    let ctx = StrCtx::Length(len);
    match text {
        Ok(v) => {
            let size = choose|size: usize| yields_at::<StrCtx, &'a str>(src, offset as int, ctx, v, size);
            assert(yields_at::<StrCtx, &'a str>(src, offset as int, ctx, v, size));
        },
        Err(_) => {},
    }
    match bytes {
        Ok(v) => {
            let size = choose|size: usize| yields_at::<StrCtx, &'a [u8]>(src, offset as int, ctx, v, size);
            assert(yields_at::<StrCtx, &'a [u8]>(src, offset as int, ctx, v, size));
        },
        Err(_) => {},
    }
}

/// Whatever the context, a view that was read lies within the bytes, with at
/// most the one byte of its delimiter behind it; and the only failures of
/// reading a byte slice are those of place and size.
pub proof fn lemma_view_stays_inside<'a>(src: Seq<u8>, ctx: StrCtx, v: &'a [u8], n: usize, e: Error)
    requires
        src.len() <= usize::MAX,
    ensures
        <&'a [u8] as TryFromCtx<'a, StrCtx>>::decode_ok(src, ctx, v, n) ==> v@.len() <= n
            <= src.len() && n <= v@.len() + 1,
        <&'a [u8] as TryFromCtx<'a, StrCtx>>::decode_err(src, ctx, e) ==> e.is_size_failure(),
{
    lemma_str_span_fits(src, ctx);
}

// ---------------------------------------------------------------------------
// Writing
// ---------------------------------------------------------------------------
/// Copying `bytes` to the head of `before` succeeds.
pub open spec fn copy_ok(bytes: Seq<u8>, before: Seq<u8>, after: Seq<u8>, n: usize) -> bool {
    &&& bytes.len() <= before.len()
    &&& n == bytes.len()
    &&& after == bytes + before.skip(bytes.len() as int)
}

/// Copying `bytes` to the head of `before` fails: the destination is shorter,
/// and nothing is written.
pub open spec fn copy_err(bytes: Seq<u8>, before: Seq<u8>, after: Seq<u8>, e: Error) -> bool {
    &&& bytes.len() > before.len()
    &&& after == before
    &&& e == Error::TooBig { size: bytes.len() as usize, len: before.len() as usize }
}

/// Copies `src` to the head of `dst`.
fn copy_bytes(src: &[u8], dst: &mut [u8])
    requires
        src@.len() <= old(dst)@.len(),
    ensures
        final(dst)@ == src@ + old(dst)@.skip(src@.len() as int),
{
    let n = src.len();
    let mut i: usize = 0;
    while i < n
        invariant
            i <= n,
            n == src@.len(),
            n <= dst@.len(),
            dst@.len() == old(dst)@.len(),
            forall|j: int| 0 <= j < i ==> dst@[j] == src@[j],
            forall|j: int| i <= j < dst@.len() ==> dst@[j] == old(dst)@[j],
        decreases n - i,
    {
        dst[i] = src[i];
        i = i + 1;
    }
    assert(dst@ =~= src@ + old(dst)@.skip(src@.len() as int));
}

impl<'a> TryIntoCtx<Endian> for &'a [u8] {
    open spec fn encode_ok(self, ctx: Endian, before: Seq<u8>, after: Seq<u8>, n: usize) -> bool {
        copy_ok(self@, before, after, n)
    }

    open spec fn encode_err(self, ctx: Endian, before: Seq<u8>, after: Seq<u8>, e: Error) -> bool {
        copy_err(self@, before, after, e)
    }

    /// Copies the bytes as they are; the byte order has no say.
    fn try_into_ctx(self, dst: &mut [u8], ctx: Endian) -> (r: Result<usize, Error>) {
        if self.len() > dst.len() {
            Err(Error::TooBig { size: self.len(), len: dst.len() })
        } else {
            copy_bytes(self, dst);
            Ok(self.len())
        }
    }
}

impl<'a> TryIntoCtx<Endian> for &'a str {
    open spec fn encode_ok(self, ctx: Endian, before: Seq<u8>, after: Seq<u8>, n: usize) -> bool {
        copy_ok(self.spec_bytes(), before, after, n)
    }

    open spec fn encode_err(self, ctx: Endian, before: Seq<u8>, after: Seq<u8>, e: Error) -> bool {
        copy_err(self.spec_bytes(), before, after, e)
    }

    /// Copies the bytes of the string; no delimiter is added.
    fn try_into_ctx(self, dst: &mut [u8], ctx: Endian) -> (r: Result<usize, Error>) {
        let bytes = self.as_bytes();
        if bytes.len() > dst.len() {
            Err(Error::TooBig { size: bytes.len(), len: dst.len() })
        } else {
            copy_bytes(bytes, dst);
            Ok(bytes.len())
        }
    }
}

} // verus!
