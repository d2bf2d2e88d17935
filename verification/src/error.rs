use std::path::PathBuf;
use vstd::prelude::*;

verus! {

#[verifier::external_type_specification]
#[verifier::external_body]
pub struct ExPathBuf(PathBuf);

#[verifier::external_type_specification]
#[verifier::external_body]
pub struct ExIoError(std::io::Error);

/// Unified error type of the library.
#[derive(Debug)]
pub enum OpenLr2Error {
    /// BMS/PMS parse error.
    BmsParse(String),
    /// Resource not found at the given path.
    ResourceNotFound { path: PathBuf },
    /// Database error.
    Database(String),
    /// I/O error from the platform.
    Io(std::io::Error),
    /// Encoding error (e.g. an invalid byte sequence).
    Encoding(String),
    /// Configuration parse/validation error.
    Config(String),
    /// Skin script parse error.
    SkinParse(String),
    /// Replay format error.
    Replay(String),
    /// Internal invariant violation.
    Internal(String),
}

} // verus!
