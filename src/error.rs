use vstd::prelude::*;

verus! {

/// Why a decode or an encode could not be completed.
#[derive(Debug, Clone, Copy, PartialEq, Eq, Structural)]
pub enum NbtError {
    /// A read at this offset needed more bytes than remain.
    OutOfBounds(usize),
    /// A type id outside `0..=12`, with the offset just after it.
    UnknownTagId(i8, usize),
    /// The string payload starting at this offset is not valid UTF-8.
    InvalidEncoding(usize),
    /// A negative length prefix, with the offset just after it.
    MalformedLength(i32, usize),
    /// A string or collection whose length does not fit its prefix.
    LengthOverflow(usize),
    /// The gzip container around the data could not be unpacked.
    Decompression,
}

} // verus!
