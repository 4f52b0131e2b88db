//! Typed reading and writing of values from and to byte sequences.
//!
//! A value is read or written under a context that selects how the bytes are to
//! be understood: a byte order for numbers, a delimiter or a length for strings.
//! Three ways of access are built on the same conversions: at an explicit offset
//! (`Pread`, `Pwrite`), at a cursor that moves on (`Gread`, `Gwrite`), and without
//! an error path (`Cread`, `Cwrite`).

pub mod buffer;
pub mod ctx;
pub mod endian;
pub mod error;
pub mod fixed;
pub mod greater;
pub mod ints;
pub mod leb128;
pub mod measure;
pub mod pread;
pub mod pwrite;
pub mod strings;

pub use crate::buffer::Buffer;
pub use crate::endian::{Endian, BE, LE};
pub use crate::error::{Error, Result};
pub use crate::greater::{Cread, Cwrite, Gread, Gwrite, TryOffsetWith};
pub use crate::leb128::{Leb128, Sleb128, Uleb128};
pub use crate::measure::Measure;
pub use crate::pread::Pread;
pub use crate::pwrite::Pwrite;
