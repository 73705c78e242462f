//! Crate-wide error type.
//!
//! Every fallible operation reports a [`CoreError`], so callers handle a single type.

use std::path::PathBuf;

use vstd::prelude::*;
use vstd::string::StringExecFns;

verus! {

/// A file system path, carried through to whoever reports the error.
#[verifier::external_type_specification]
#[verifier::external_body]
pub struct ExPathBuf(std::path::PathBuf);

/// An operating system error, carried through to whoever reports it.
#[verifier::external_type_specification]
#[verifier::external_body]
pub struct ExIoError(std::io::Error);

/// The unified error type of the engine.
#[non_exhaustive]
#[allow(inconsistent_fields)]
#[derive(Debug)]
pub enum CoreError {
    /// An underlying I/O failure, with the path that caused it where known.
    Io {
        /// The path involved, if the failure was tied to a specific file.
        path: Option<PathBuf>,
        /// The underlying OS error.
        source: std::io::Error,
    },
    /// A file's magic bytes didn't match the expected framing.
    BadMagic {
        /// The file that failed the check.
        path: PathBuf,
        /// The magic we expected.
        expected: [u8; 4],
        /// The magic we found.
        found: [u8; 4],
    },
    /// A file used a format version this build can't read.
    UnsupportedVersion {
        /// The file that failed the check.
        path: PathBuf,
        /// The version recorded in the file.
        found: u32,
        /// The newest version this build understands.
        supported: u32,
    },
    /// A CRC mismatch: the file is truncated or corrupted.
    ChecksumMismatch {
        /// The file that failed the check.
        path: PathBuf,
        /// The CRC stored in the file's footer.
        expected: u32,
        /// The CRC we computed over the bytes.
        computed: u32,
    },
    /// A file was structurally malformed (too short, inconsistent length fields).
    Corrupt {
        /// The file that failed the check.
        path: PathBuf,
        /// A human-readable description of what was wrong.
        detail: String,
    },
    /// A vector had the wrong number of components.
    DimensionMismatch {
        /// The collection's dimensionality.
        expected: usize,
        /// The number of components given.
        got: usize,
    },
    /// A version operation failed.
    Version {
        /// A human-readable description of what was wrong.
        detail: String,
    },
    /// A value could not be encoded or decoded.
    Serialization {
        /// A human-readable description of what was wrong.
        detail: String,
    },
}

impl CoreError {
    /// Builds a [`CoreError::Io`] that remembers the path involved.
    pub fn io(path: PathBuf, source: std::io::Error) -> (error: CoreError)
        ensures
            error == (CoreError::Io { path: Some(path), source }),
    {
        CoreError::Io { path: Some(path), source }
    }
}

impl From<std::io::Error> for CoreError {
    fn from(source: std::io::Error) -> (error: CoreError) {
        CoreError::Io { path: None, source }
    }
}

impl vstd::std_specs::convert::FromSpecImpl<std::io::Error> for CoreError {
    open spec fn obeys_from_spec() -> bool {
        true
    }

    open spec fn from_spec(source: std::io::Error) -> CoreError {
        CoreError::Io { path: None, source }
    }
}

/// How an I/O error names its path: in brackets after a space, or not at all.
pub fn path_suffix(path: Option<&str>) -> (suffix: String)
    ensures
        suffix@ == match path {
            Some(p) => " ("@ + p@ + ")"@,
            None => Seq::<char>::empty(),
        },
{
    match path {
        Some(p) => " (".to_owned().concat(p).concat(")"),
        None => String::new(),
    }
}

} // verus!
