//! The errors of the library.

use vstd::prelude::*;

verus! {

/// `serde_json::Error`: why a text is not a JSON document. The library
/// hands it on and never looks into it.
#[verifier::external_type_specification]
#[verifier::external_body]
pub struct ExJsonError(serde_json::Error);

/// `std::io::Error`: why a reader failed. The library hands it on and
/// never looks into it.
#[verifier::external_type_specification]
#[verifier::external_body]
pub struct ExIoError(std::io::Error);

/// What can go wrong while a transformer is built or applied.
#[derive(Debug)]
pub enum TransformError {
    /// An input reader failed.
    Io(std::io::Error),
    /// The input text is not a JSON document.
    Json(serde_json::Error),
    /// A source value has a shape that a rule cannot use.
    InvalidSourceValue(String),
    /// A rule that needs a field to write to has the empty text as its
    /// destination, or a path leads through something that is not an
    /// object, or needs more nodes than the rule tree can hold.
    InvalidNamespace(String),
    /// The text between `[` and `]` is not an index; the variant holds that text.
    InvalidNamespaceArrayIndex(String),
    /// A rule signalled an error of its own.
    Rule(String),
}

/// Mathematical model of a [`TransformError`].
pub enum Failure {
    Io(std::io::Error),
    Json(serde_json::Error),
    InvalidSourceValue(Seq<char>),
    InvalidNamespace(Seq<char>),
    InvalidNamespaceArrayIndex(Seq<char>),
    Rule(Seq<char>),
}

impl View for TransformError {
    type V = Failure;

    open spec fn view(&self) -> Failure {
        match self {
            TransformError::Io(e) => Failure::Io(*e),
            TransformError::Json(e) => Failure::Json(*e),
            TransformError::InvalidSourceValue(s) => Failure::InvalidSourceValue(s@),
            TransformError::InvalidNamespace(s) => Failure::InvalidNamespace(s@),
            TransformError::InvalidNamespaceArrayIndex(s) => Failure::InvalidNamespaceArrayIndex(
                s@,
            ),
            TransformError::Rule(s) => Failure::Rule(s@),
        }
    }
}

impl From<serde_json::Error> for TransformError {
    /// The error of a text that is not a JSON document.
    fn from(error: serde_json::Error) -> (r: Self) {
        TransformError::Json(error)
    }
}

impl vstd::std_specs::convert::FromSpecImpl<serde_json::Error> for TransformError {
    open spec fn obeys_from_spec() -> bool {
        true
    }

    open spec fn from_spec(error: serde_json::Error) -> Self {
        TransformError::Json(error)
    }
}

impl From<std::io::Error> for TransformError {
    /// The error of a reader that failed.
    fn from(error: std::io::Error) -> (r: Self) {
        TransformError::Io(error)
    }
}

impl vstd::std_specs::convert::FromSpecImpl<std::io::Error> for TransformError {
    open spec fn obeys_from_spec() -> bool {
        true
    }

    open spec fn from_spec(error: std::io::Error) -> Self {
        TransformError::Io(error)
    }
}

} // verus!
