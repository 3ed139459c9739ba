//! The library's error type.
use vstd::prelude::*;

verus! {

/// `std::io::Error`, carried opaquely.
#[verifier::external_type_specification]
#[verifier::external_body]
pub struct ExIoError(std::io::Error);

/// `reqwest::Error`, carried opaquely.
#[verifier::external_type_specification]
#[verifier::external_body]
pub struct ExReqwestError(reqwest::Error);

/// `serde_json::Error`, carried opaquely.
#[verifier::external_type_specification]
#[verifier::external_body]
pub struct ExJsonError(serde_json::Error);

/// `toml::ser::Error`, carried opaquely.
#[verifier::external_type_specification]
#[verifier::external_body]
pub struct ExTomlSerError(toml::ser::Error);

/// `toml::de::Error`, carried opaquely.
#[verifier::external_type_specification]
#[verifier::external_body]
pub struct ExTomlDeError(toml::de::Error);

/// The kinds of `std::io::Error` that the library itself raises.
#[derive(Debug, Clone, Copy, PartialEq, Eq, Structural)]
pub enum IoErrorKind {
    InvalidInput,
    Other,
}

/// The kind that `std::io::Error::kind` reports for `err`, when it is one
/// of the kinds the library raises.
pub uninterp spec fn io_error_kind(err: std::io::Error) -> Option<IoErrorKind>;

/// `std::io::Error::new` with the std kind that `kind` names and
/// `message`: as std documents, the error reports that kind. Nothing is
/// stated of its message.
#[verifier::external_body]
pub(crate) fn io_error(kind: IoErrorKind, message: String) -> (err: std::io::Error)
    ensures
        io_error_kind(err) == Some(kind),
{
    let std_kind = match kind {
        IoErrorKind::InvalidInput => std::io::ErrorKind::InvalidInput,
        IoErrorKind::Other => std::io::ErrorKind::Other,
    };
    std::io::Error::new(std_kind, message)
}

#[derive(Debug)]
pub enum SandboxError {
    Io(std::io::Error),
    Http(reqwest::Error),
    Json(serde_json::Error),
    TomlSer(toml::ser::Error),
    TomlDe(toml::de::Error),
    /// The path, as given, resolves outside the sandbox root.
    PathEscape(String),
    /// The path, as given, is outside the sandbox root and every readonly directory.
    ReadRestricted(String),
    InvalidDir(String),
    InvalidArg(String),
}

/// `e` is an I/O error of kind `InvalidInput`.
pub open spec fn invalid_input(e: SandboxError) -> bool {
    e matches SandboxError::Io(err) && io_error_kind(err) == Some(IoErrorKind::InvalidInput)
}

pub type Result<T> = std::result::Result<T, SandboxError>;

} // verus!
