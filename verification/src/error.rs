//! Errors surfaced by the engine.
use vstd::prelude::*;

verus! {

#[verifier::external_type_specification]
#[verifier::external_body]
pub struct ExIoError(std::io::Error);

/// Errors surfaced by the core engine.
#[derive(Debug)]
pub enum Error {
    /// An I/O operation failed while scanning or moving files.
    Io {
        /// The path being operated on when the failure occurred.
        path: String,
        /// The underlying I/O error.
        source: std::io::Error,
    },
    /// The requested scan target does not exist or is not accessible.
    TargetNotFound(String),
    /// A feature is not available on the current platform.
    Unsupported(String),
    /// A cleanup signature or rule file failed to parse.
    InvalidSignature {
        /// Path to the offending signature file.
        path: String,
        /// Human-readable description of the problem.
        message: String,
    },
    /// A quarantine or metadata-store operation failed.
    Quarantine(String),
    /// A refused operation that would have violated a safety invariant.
    Refused(String),
    /// Parsing an NTFS on-disk structure failed.
    Ntfs(String),
}

impl Error {
    /// Build an [`Error::Io`] from a path and an I/O error.
    pub fn io(path: &str, source: std::io::Error) -> (r: Self)
        ensures
            r matches Error::Io { path: p, source: s } && p@ == path@ && s == source,
    {
        Error::Io { path: String::from_str(path), source }
    }
}

} // verus!
