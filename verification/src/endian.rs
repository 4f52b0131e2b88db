//! Byte order as a reading and writing context.

use vstd::prelude::*;

verus! {

/// The order in which the bytes of a number stand in a byte sequence.
#[derive(Debug, Clone, Copy, PartialEq, Eq, Structural)]
pub enum Endian {
    /// Least significant byte first.
    Little,
    /// Most significant byte first.
    Big,
}

/// Little-endian byte order.
pub const LE: Endian = Endian::Little;

/// Big-endian byte order.
pub const BE: Endian = Endian::Big;

/// Reads the two bytes `[1, 0]` as a `u16` in the byte order of the machine,
/// through `u16::from_ne_bytes`: 1 where the machine is little-endian, 256 where
/// it is big-endian.
#[verifier::external_body]
fn native_one() -> (r: u16)
    ensures
        r == 1 || r == 256,
{
    u16::from_ne_bytes([1, 0])
}

impl Endian {
    /// Whether the least significant byte comes first.
    pub fn is_little(&self) -> (r: bool)
        ensures
            r == (*self == Endian::Little),
    {
        match self {
            Endian::Little => true,
            Endian::Big => false,
        }
    }

    /// The byte order of the machine the program runs on.
    pub fn native() -> Endian {
        Endian::of_native_one(native_one())
    }

    /// The byte order of a machine on which the two bytes `[1, 0]`, read as a
    /// `u16` in the machine's own order, are the number `one`: little-endian
    /// where they are 1, big-endian where the 1 has moved to the high byte.
    pub fn of_native_one(one: u16) -> (r: Endian)
        ensures
            r == (if one == 1 {
                Endian::Little
            } else {
                Endian::Big
            }),
    {
        if one == 1 {
            Endian::Little
        } else {
            Endian::Big
        }
    }
}

impl Default for Endian {
    /// The byte order of the machine.
    fn default() -> Endian {
        Endian::native()
    }
}

} // verus!
