use vstd::prelude::*;

verus! {

/// Why a decimal integer could not be read.
#[derive(Debug, Clone, Copy, PartialEq, Eq, Structural)]
pub enum IntErrorKind {
    /// The text is empty.
    Empty,
    /// The text holds something other than an optional sign followed by digits.
    InvalidDigit,
    /// The number is larger than the target type can hold.
    PosOverflow,
    /// The number is smaller than the target type can hold.
    NegOverflow,
}

/// Why a region or chunk file name could not be read as coordinates.
#[derive(Debug, Clone, Copy, PartialEq, Eq, Structural)]
pub enum CoordsError {
    /// The name does not have the expected dotted shape.
    InvalidFormat,
    /// One of the two coordinates is not a decimal `i32`.
    ParseInt(IntErrorKind),
}

/// Errors of the region formats.
#[derive(Debug, Clone, Copy, PartialEq, Eq, Structural)]
pub enum Error {
    /// The input ended before a field was complete.
    UnexpectedEof,
    /// The input does not start with the expected magic bytes.
    BadMagic,
    /// A grid size other than 1, 2, 4, 8, 16 or 32.
    InvalidGridSize(i8),
    /// The number of buckets does not match the grid.
    BucketCountMismatch { expected_count: usize, actual_count: usize },
    /// A bucket header table whose length is not 1, 4, 16, 64, 256 or 1024.
    InvalidBucketLength(usize),
    /// The stored xxhash64 of a bucket differs from the hash of its bytes.
    HashMismatch { stored: u64, computed: u64 },
    /// A feature name longer than 255 bytes.
    KeyTooLong(usize),
    /// A feature name that is not UTF-8.
    InvalidUtf8,
    /// A chunk compression type outside 1 to 4.
    UnknownCompressionType(u8),
    /// A chunk length that does not fit its sectors.
    CorruptChunk,
    /// The compressor reported a failure.
    Compress,
    /// The decompressor rejected its input.
    Decompress,
    /// A chunk table that does not hold 1024 entries.
    WrongChunkInfoCount(usize),
    /// A linear file whose version is not 1, 2 or 3.
    UnknownLinearVersion(u8),
    /// A file name that does not name coordinates.
    Coords(CoordsError),
    /// A chunk stored in an external `.mcc` file that was not supplied.
    MissingExternalChunk(u32),
    /// A file position that does not fit in 64 bits.
    Overflow,
}

} // verus!
