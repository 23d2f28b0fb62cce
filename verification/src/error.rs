//! Error and result types of the library.

use vstd::prelude::*;

verus! {

/// The result type of the library.
pub type Result<T> = std::result::Result<T, Error>;

/// Anything that can go wrong while reading or building a seg file set.
#[derive(Debug, Clone, Copy, PartialEq, Eq, Structural)]
#[non_exhaustive]
pub enum Error {
    /// The bytes are not a valid or supported encoding, or the input cannot be encoded.
    Format(FormatError),
}

/// What exactly a [`Error::Format`] complains about.
#[derive(Debug, Clone, Copy, PartialEq, Eq, Structural)]
#[non_exhaustive]
pub enum FormatError {
    /// Not a valid `.kv` file.
    InvalidKv,
    /// Elias-Fano section: the header does not fit.
    EliasFanoHeader,
    /// Elias-Fano section: the data is shorter than the header implies.
    EliasFanoData,
    /// `.bt` footer: its length is below the minimum or exceeds the file.
    FooterLength { footer_len: u64, file: u64 },
    /// `.bt` footer: the Elias-Fano offset lies outside the body.
    FooterOffset { ef_offset: u64, body: u64 },
    /// `.bt` footer: the key count differs from that of the Elias-Fano section.
    FooterKeys { found: u64, footer: u64 },
    /// `.bt` file that starts like the footer layout but lacks the trailing magic.
    FooterMissing,
    /// The bytes of a `.kv` hold no word where one should be.
    BadWord,
    /// The offsets of a `.bt` lie too far apart for its jump table.
    IndexRange,
    /// The tables of a `.bt` lead nowhere.
    DamagedIndex,
    /// A key longer than 65535 bytes cannot be stored in a `.bt` node.
    KeyTooLong,
    /// Keys of a domain must be strictly increasing.
    KeyOrder,
    /// The words handed to a writer exceed what one buffer can hold.
    TooLarge,
    /// A stack of files needs at least one file.
    NoFiles,
    /// A merge needs at least one input.
    NoInputs,
}

} // verus!
