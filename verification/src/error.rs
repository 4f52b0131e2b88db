//! The failures that reading and writing can report.

use core::ops::Range;
use vstd::prelude::*;
use vstd::string::StringExecFns;

verus! {

/// `std::io::Error`, the failure of a stream. The library carries it and
/// never looks inside.
#[verifier::external_type_specification]
#[verifier::external_body]
pub struct ExIoError(std::io::Error);

/// Why a read or a write did not take place.
///
/// `BadOffset`, `TooBig` and `BadRange` are the failures of place and size:
/// what was asked for does not lie within the bytes at hand. `BadInput` is the
/// failure of content: the bytes are there but do not spell a value.
#[derive(Debug)]
pub enum Error {
    /// A value of `size` bytes was asked of, or offered to, only `len` bytes.
    TooBig { size: usize, len: usize },
    /// The offset lies at or behind the end of the byte sequence.
    BadOffset(usize),
    /// The requested `range` cannot be served from a byte sequence of `size`
    /// bytes.
    BadRange { range: Range<usize>, size: usize },
    /// The bytes in `range`, out of `size` bytes, are not a valid encoding.
    BadInput { range: Range<usize>, size: usize, msg: &'static str },
    /// A message of a decoder or encoder defined outside this crate.
    Custom(String),
    /// A failure of the stream that bytes were pulled from or pushed to.
    IO(std::io::Error),
}

pub type Result<T> = core::result::Result<T, Error>;

impl Error {
    /// The name of the failure's kind, as a sequence of characters.
    pub open spec fn kind_name(&self) -> Seq<char> {
        match self {
            Error::TooBig { .. } => "TooBig"@,
            Error::BadOffset(_) => "BadOffset"@,
            Error::BadRange { .. } => "BadRange"@,
            Error::BadInput { .. } => "BadInput"@,
            Error::Custom(_) => "Custom"@,
            Error::IO(_) => "IO"@,
        }
    }

    /// True of the failures of place and size.
    pub open spec fn is_size_failure(&self) -> bool {
        self is TooBig || self is BadRange || self is BadOffset
    }

    /// A short, fixed name for the kind of failure.
    pub fn description(&self) -> (r: &'static str)
        ensures
            r@ == self.kind_name(),
    {
        match self {
            Error::TooBig { .. } => "TooBig",
            Error::BadOffset(_) => "BadOffset",
            Error::BadRange { .. } => "BadRange",
            Error::BadInput { .. } => "BadInput",
            Error::Custom(_) => "Custom",
            Error::IO(_) => "IO",
        }
    }
}

// ---------------------------------------------------------------------------
// Failures as text
// ---------------------------------------------------------------------------
/// The decimal digit `d` as a character.
pub open spec fn digit_char(d: nat) -> char {
    if d == 0 {
        '0'
    } else if d == 1 {
        '1'
    } else if d == 2 {
        '2'
    } else if d == 3 {
        '3'
    } else if d == 4 {
        '4'
    } else if d == 5 {
        '5'
    } else if d == 6 {
        '6'
    } else if d == 7 {
        '7'
    } else if d == 8 {
        '8'
    } else {
        '9'
    }
}

/// The number `n` in decimal digits, without leading zeros.
pub open spec fn decimal(n: nat) -> Seq<char>
    decreases n,
{
    if n < 10 {
        seq![digit_char(n)]
    } else {
        decimal(n / 10).push(digit_char(n % 10))
    }
}

/// The text of a range: both ends in decimal, the end excluded.
pub open spec fn range_text(range: Range<usize>) -> Seq<char> {
    "["@ + decimal(range.start as nat) + ".."@ + decimal(range.end as nat) + ")"@
}

/// The text of the failure that the operating system reported, as
/// `std::io::Error` formats it with `{}`. The text is the platform's, so
/// nothing is said of it.
#[verifier::external_body]
fn io_error_text(err: &std::io::Error) -> String {
    format!("{}", err)
}

fn digit_text(d: usize) -> (r: &'static str)
    requires
        d < 10,
    ensures
        r@ == seq![digit_char(d as nat)],
{
    proof {
        reveal_strlit("0");
        reveal_strlit("1");
        reveal_strlit("2");
        reveal_strlit("3");
        reveal_strlit("4");
        reveal_strlit("5");
        reveal_strlit("6");
        reveal_strlit("7");
        reveal_strlit("8");
        reveal_strlit("9");
    }
    let r = if d == 0 {
        "0"
    } else if d == 1 {
        "1"
    } else if d == 2 {
        "2"
    } else if d == 3 {
        "3"
    } else if d == 4 {
        "4"
    } else if d == 5 {
        "5"
    } else if d == 6 {
        "6"
    } else if d == 7 {
        "7"
    } else if d == 8 {
        "8"
    } else {
        "9"
    };
    assert(r@ =~= seq![digit_char(d as nat)]);
    r
}

/// Appends `n` in decimal digits to `text`.
fn push_decimal(text: &mut String, n: usize)
    ensures
        final(text)@ == old(text)@ + decimal(n as nat),
    decreases n,
{
    if n >= 10 {
        push_decimal(text, n / 10);
    }
    text.append(digit_text(n % 10));
    assert(text@ =~= old(text)@ + decimal(n as nat));
}

/// Appends the text of `range` to `text`.
fn push_range(text: &mut String, range: &Range<usize>)
    ensures
        final(text)@ == old(text)@ + range_text(*range),
{
    text.append("[");
    push_decimal(text, range.start);
    text.append("..");
    push_decimal(text, range.end);
    text.append(")");
    assert(text@ =~= old(text)@ + range_text(*range));
}

impl Error {
    /// The failure in words, for every kind but `IO`, whose words are those of
    /// the operating system.
    pub open spec fn text(&self) -> Seq<char> {
        match self {
            Error::TooBig { size, len } => "type is too big ("@ + decimal(*size as nat) + ") for "@
                + decimal(*len as nat),
            Error::BadOffset(offset) => "bad offset "@ + decimal(*offset as nat),
            Error::BadRange { range, size } => "requested range "@ + range_text(*range)
                + " from object of len "@ + decimal(*size as nat),
            Error::BadInput { range, size, msg } => msg@ + " - range "@ + range_text(*range)
                + ", len "@ + decimal(*size as nat),
            Error::Custom(msg) => msg@,
            Error::IO(_) => Seq::empty(),
        }
    }

    /// The failure in words, as it is shown to a reader.
    pub fn message(&self) -> (r: String)
        ensures
            !(self is IO) ==> r@ == self.text(),
    {
        match self {
            Error::TooBig { size, len } => {
                let mut text = String::from_str("type is too big (");
                push_decimal(&mut text, *size);
                text.append(") for ");
                push_decimal(&mut text, *len);
                assert(text@ =~= self.text());
                text
            },
            Error::BadOffset(offset) => {
                let mut text = String::from_str("bad offset ");
                push_decimal(&mut text, *offset);
                text
            },
            Error::BadRange { range, size } => {
                let mut text = String::from_str("requested range ");
                push_range(&mut text, range);
                text.append(" from object of len ");
                push_decimal(&mut text, *size);
                assert(text@ =~= self.text());
                text
            },
            Error::BadInput { range, size, msg } => {
                let mut text = String::from_str(msg);
                text.append(" - range ");
                push_range(&mut text, range);
                text.append(", len ");
                push_decimal(&mut text, *size);
                assert(text@ =~= self.text());
                text
            },
            Error::Custom(msg) => msg.clone(),
            Error::IO(err) => io_error_text(err),
        }
    }
}

impl From<std::io::Error> for Error {
    fn from(err: std::io::Error) -> (r: Error) {
        Error::IO(err)
    }
}

impl vstd::std_specs::convert::FromSpecImpl<std::io::Error> for Error {
    open spec fn obeys_from_spec() -> bool {
        true
    }

    open spec fn from_spec(err: std::io::Error) -> Error {
        Error::IO(err)
    }
}

} // verus!
