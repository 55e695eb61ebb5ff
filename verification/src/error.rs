use vstd::prelude::*;

verus! {

/// The kind of a failed read or write, as the operating system reports it.
#[derive(Debug, Clone, Copy, PartialEq, Eq)]
pub enum IoErrorKind {
    NotFound,
    PermissionDenied,
    AlreadyExists,
    WouldBlock,
    InvalidInput,
    InvalidData,
    TimedOut,
    WriteZero,
    Interrupted,
    Unsupported,
    UnexpectedEof,
    OutOfMemory,
    Other,
}

/// Errors raised while parsing, editing, reading or searching fixed-width records.
#[derive(Debug, PartialEq, Eq)]
pub enum Error {
    /// The input is shorter than the fixed width it must fill.
    TooShort,
    /// A field or record is not valid UTF-8.
    Utf8Error,
    /// The input ended in the middle of a record.
    IncompleteRecord { expected: usize, actual: usize },
    /// The byte source failed with an error of the given kind. Two I/O errors
    /// are equal when their kinds are.
    Io(IoErrorKind),
    /// The input could not be viewed in place as a record.
    AlignmentError,
    /// A value could not be parsed, or the input has the wrong size.
    ParseError,
    /// A value is wider than the field it is meant for.
    FieldOverflow { field: &'static str, size: usize, actual: usize },
    /// The start of a key range lies after its end.
    InvalidRange { field: &'static str, start: Vec<u8>, end: Vec<u8> },
    /// A record read with a sequence check is out of order.
    SequenceError { fields: Vec<&'static str>, previous: Vec<Vec<u8>>, current: Vec<Vec<u8>> },
}

} // verus!
