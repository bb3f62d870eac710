//! The closed set of failures that filesystem operations report.

use vstd::prelude::*;

verus! {

/// `std::io::Error`, carried through as an opaque value.
#[verifier::external_type_specification]
#[verifier::external_body]
pub struct ExIoError(std::io::Error);

/// `std::str::Utf8Error`, carried through as an opaque value.
#[verifier::external_type_specification]
#[verifier::external_body]
pub struct ExUtf8Error(std::str::Utf8Error);

/// `std::array::TryFromSliceError`, carried through as an opaque value.
#[verifier::external_type_specification]
#[verifier::external_body]
pub struct ExTryFromSliceError(std::array::TryFromSliceError);

/// Failure of a filesystem operation.
#[derive(Debug)]
pub enum Error {
    DoubleAcquire,
    DoubleRelease,
    OutOfBounds,
    OutOfMemory,
    InsufficientBytes,
    ThreadSync,
    NameOrInodeDuplicate,
    NotFound,
    NullBlock,
    DirectoryNotEmpty,
    Io(std::io::Error),
    Utf8(std::str::Utf8Error),
    SliceIndexing(std::array::TryFromSliceError),
}

/// The error number that a host is told for a failure.
#[derive(Debug, Clone, Copy, PartialEq, Eq, Structural)]
pub enum Errno {
    /// Input or output failed.
    Io,
    /// A descriptor that is not valid.
    BadDescriptor,
    /// A seek that is not allowed.
    IllegalSeek,
    /// No space left.
    NoSpace,
    /// No buffer space.
    NoBuffers,
    /// A deadlock would occur.
    Deadlock,
    /// The file exists.
    Exists,
    /// No such entry.
    NoEntry,
    /// The directory is not empty.
    NotEmpty,
    /// A message that is not valid.
    BadMessage,
    /// Access is denied.
    AccessDenied,
}

impl From<std::io::Error> for Error {
    fn from(value: std::io::Error) -> (error: Self) {
        Error::Io(value)
    }
}

impl vstd::std_specs::convert::FromSpecImpl<std::io::Error> for Error {
    open spec fn obeys_from_spec() -> bool {
        true
    }

    open spec fn from_spec(value: std::io::Error) -> Self {
        Error::Io(value)
    }
}

impl From<std::str::Utf8Error> for Error {
    fn from(value: std::str::Utf8Error) -> (error: Self) {
        Error::Utf8(value)
    }
}

impl vstd::std_specs::convert::FromSpecImpl<std::str::Utf8Error> for Error {
    open spec fn obeys_from_spec() -> bool {
        true
    }

    open spec fn from_spec(value: std::str::Utf8Error) -> Self {
        Error::Utf8(value)
    }
}

impl From<std::array::TryFromSliceError> for Error {
    fn from(value: std::array::TryFromSliceError) -> (error: Self) {
        Error::SliceIndexing(value)
    }
}

impl vstd::std_specs::convert::FromSpecImpl<std::array::TryFromSliceError> for Error {
    open spec fn obeys_from_spec() -> bool {
        true
    }

    open spec fn from_spec(value: std::array::TryFromSliceError) -> Self {
        Error::SliceIndexing(value)
    }
}

/// The text of an outside error.
///
/// Calls the `Display` implementation of `std::io::Error`; nothing is
/// claimed of the text.
#[verifier::external_body]
fn io_error_text(error: &std::io::Error) -> String {
    format!("{error}")
}

/// The text of an outside error.
///
/// Calls the `Display` implementation of `std::str::Utf8Error`; nothing is
/// claimed of the text.
#[verifier::external_body]
fn utf8_error_text(error: &std::str::Utf8Error) -> String {
    format!("{error}")
}

/// The text of an outside error.
///
/// Calls the `Display` implementation of `std::array::TryFromSliceError`;
/// nothing is claimed of the text.
#[verifier::external_body]
fn slice_error_text(error: &std::array::TryFromSliceError) -> String {
    format!("{error}")
}

impl Error {
    /// Whether the failure is one that reading a chain of blocks reports:
    /// the chain or the device ended early, or the device failed.
    pub open spec fn read_failure(&self) -> bool {
        self is OutOfBounds || self is NullBlock || self is Io
    }

    /// Whether the failure is one that loading a record and its stream
    /// reports: a read failure, a record that is none, or text that is none.
    pub open spec fn load_failure(&self) -> bool {
        self.read_failure() || self is InsufficientBytes || self is Utf8
    }

    /// The text that names each failure of the filesystem's own.
    pub open spec fn spec_message(&self) -> Option<Seq<char>> {
        match self {
            Error::DoubleAcquire => Some("duble acquire"@),
            Error::DoubleRelease => Some("double release"@),
            Error::OutOfBounds => Some("out of bounds"@),
            Error::OutOfMemory => Some("out of memory"@),
            Error::InsufficientBytes => Some("insufficient bytes"@),
            Error::ThreadSync => Some("thread synchronization"@),
            Error::NameOrInodeDuplicate => Some("name or inode duplicate"@),
            Error::NotFound => Some("not found"@),
            Error::NullBlock => Some("null block"@),
            Error::DirectoryNotEmpty => Some("directory not empty"@),
            Error::Io(_) => None,
            Error::Utf8(_) => None,
            Error::SliceIndexing(_) => None,
        }
    }

    /// A text for the failure: its name, or the text of the outside error
    /// that it holds.
    pub fn message(&self) -> (text: String)
        ensures
            self.spec_message() matches Some(wanted) ==> text@ == wanted,
    {
        match self {
            Error::DoubleAcquire => "duble acquire".to_owned(),
            Error::DoubleRelease => "double release".to_owned(),
            Error::OutOfBounds => "out of bounds".to_owned(),
            Error::OutOfMemory => "out of memory".to_owned(),
            Error::InsufficientBytes => "insufficient bytes".to_owned(),
            Error::ThreadSync => "thread synchronization".to_owned(),
            Error::NameOrInodeDuplicate => "name or inode duplicate".to_owned(),
            Error::NotFound => "not found".to_owned(),
            Error::NullBlock => "null block".to_owned(),
            Error::DirectoryNotEmpty => "directory not empty".to_owned(),
            Error::Io(e) => io_error_text(e),
            Error::Utf8(e) => utf8_error_text(e),
            Error::SliceIndexing(e) => slice_error_text(e),
        }
    }

    /// The error number of each failure.
    pub open spec fn spec_errno(&self) -> Errno {
        match self {
            Error::DoubleAcquire => Errno::Io,
            Error::DoubleRelease => Errno::BadDescriptor,
            Error::OutOfBounds => Errno::IllegalSeek,
            Error::OutOfMemory => Errno::NoSpace,
            Error::InsufficientBytes => Errno::NoBuffers,
            Error::ThreadSync => Errno::Deadlock,
            Error::NameOrInodeDuplicate => Errno::Exists,
            Error::NotFound => Errno::NoEntry,
            Error::NullBlock => Errno::IllegalSeek,
            Error::DirectoryNotEmpty => Errno::NotEmpty,
            Error::Io(_) => Errno::Io,
            Error::Utf8(_) => Errno::BadMessage,
            Error::SliceIndexing(_) => Errno::NoBuffers,
        }
    }

    /// Computes `spec_errno`.
    pub fn errno(&self) -> (errno: Errno)
        ensures
            errno == self.spec_errno(),
    {
        match self {
            Error::DoubleAcquire => Errno::Io,
            Error::DoubleRelease => Errno::BadDescriptor,
            Error::OutOfBounds => Errno::IllegalSeek,
            Error::OutOfMemory => Errno::NoSpace,
            Error::InsufficientBytes => Errno::NoBuffers,
            Error::ThreadSync => Errno::Deadlock,
            Error::NameOrInodeDuplicate => Errno::Exists,
            Error::NotFound => Errno::NoEntry,
            Error::NullBlock => Errno::IllegalSeek,
            Error::DirectoryNotEmpty => Errno::NotEmpty,
            Error::Io(_) => Errno::Io,
            Error::Utf8(_) => Errno::BadMessage,
            Error::SliceIndexing(_) => Errno::NoBuffers,
        }
    }
}

} // verus!
