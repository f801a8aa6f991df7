//! The errors that parsing a map can end in.
use vstd::prelude::*;

verus! {

#[verifier::external_type_specification]
#[verifier::external_body]
pub struct ExIoError(std::io::Error);

#[verifier::external_type_specification]
#[verifier::external_body]
pub struct ExFromBase64Error(rustc_serialize::base64::FromBase64Error);

/// Errors which occurred when parsing the file.
#[derive(Debug)]
pub enum TiledError {
    /// An attribute was missing, had the wrong type or wasn't formatted
    /// correctly.
    MalformedAttributes(String),
    /// Inflating the zlib stream of a tile layer failed.
    DecompressingError(std::io::Error),
    /// The base64 text of a tile layer could not be decoded.
    DecodingError(rustc_serialize::base64::FromBase64Error),
    /// The document ended before an element was closed.
    PrematureEnd(String),
    /// The document uses a variant of the format that is not supported.
    Other(String),
}

/// The kind of a [`TiledError`], without what it carries.
#[derive(Debug, Clone, Copy, PartialEq, Eq, Structural)]
pub enum ErrorKind {
    MalformedAttributes,
    DecompressingError,
    DecodingError,
    PrematureEnd,
    Other,
}

impl TiledError {
    pub open spec fn spec_kind(self) -> ErrorKind {
        match self {
            TiledError::MalformedAttributes(_) => ErrorKind::MalformedAttributes,
            TiledError::DecompressingError(_) => ErrorKind::DecompressingError,
            TiledError::DecodingError(_) => ErrorKind::DecodingError,
            TiledError::PrematureEnd(_) => ErrorKind::PrematureEnd,
            TiledError::Other(_) => ErrorKind::Other,
        }
    }

    /// A human-readable description of the error.
    pub fn message(&self) -> (r: String)
        ensures
            self matches TiledError::MalformedAttributes(s) ==> r@ == s@,
            self matches TiledError::PrematureEnd(s) ==> r@ == s@,
            self matches TiledError::Other(s) ==> r@ == s@,
            self matches TiledError::DecompressingError(e) ==> vstd::string::to_string_from_display_ensures::<
                std::io::Error,
            >(&e, r),
            self matches TiledError::DecodingError(e) ==> vstd::string::to_string_from_display_ensures::<
                rustc_serialize::base64::FromBase64Error,
            >(&e, r),
    {
        match self {
            TiledError::MalformedAttributes(s) => s.clone(),
            TiledError::DecompressingError(e) => e.to_string(),
            TiledError::DecodingError(e) => e.to_string(),
            TiledError::PrematureEnd(s) => s.clone(),
            TiledError::Other(s) => s.clone(),
        }
    }
}

} // verus!
