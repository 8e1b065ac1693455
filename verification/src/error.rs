//! Error types of the data square operations.
use vstd::prelude::*;
use crate::text::{bytes_text, decimal, push_bytes, push_decimal, push_text, text};

verus! {

/// Main error type for Extended Data Square operations.
#[derive(Debug)]
pub enum EdsError {
    InvalidDimensions(String),
    Codec(CodecError),
    Repair(RepairError),
    InvalidData(String),
    IndexOutOfBounds { row: usize, col: usize, width: usize },
}

/// Error type specific to codec operations.
#[derive(Debug)]
pub enum CodecError {
    EncodingFailed(String),
    DecodingFailed(String),
    InvalidChunkSize { expected: usize, actual: usize },
    InsufficientData,
}

/// What a codec error says, apart from the text of its message.
#[derive(Debug, Clone, Copy, PartialEq, Eq, Structural)]
pub enum CodecFailure {
    EncodingFailed,
    DecodingFailed,
    InvalidChunkSize { expected: usize, actual: usize },
    InsufficientData,
}

impl CodecError {
    /// The kind of the error, with its numeric fields.
    pub open spec fn failure(&self) -> CodecFailure {
        match self {
            CodecError::EncodingFailed(_) => CodecFailure::EncodingFailed,
            CodecError::DecodingFailed(_) => CodecFailure::DecodingFailed,
            CodecError::InvalidChunkSize { expected, actual } => CodecFailure::InvalidChunkSize {
                expected: *expected,
                actual: *actual,
            },
            CodecError::InsufficientData => CodecFailure::InsufficientData,
        }
    }
}

/// Error type specific to data repair operations.
#[derive(Debug)]
pub enum RepairError {
    TooManyCorrupted { corrupted: usize, max_repairable: usize },
    RootHashMismatch { expected: Vec<u8>, actual: Vec<u8> },
    MissingRequiredData,
    ValidationFailed(String),
}

impl CodecError {
    /// The message of the error.
    pub open spec fn message(&self) -> Seq<char> {
        match self {
            CodecError::EncodingFailed(m) => "Reed-Solomon encoding failed: "@ + m@,
            CodecError::DecodingFailed(m) => "Reed-Solomon decoding failed: "@ + m@,
            CodecError::InvalidChunkSize { expected, actual } => "Invalid chunk size: expected "@ + decimal(
                *expected as nat,
            ) + ", got "@ + decimal(*actual as nat),
            CodecError::InsufficientData => "Insufficient data for decoding"@,
        }
    }

    /// The message of the error.
    pub fn to_string(&self) -> (s: String)
        ensures
            s@ == self.message(),
    {
        match self {
            CodecError::EncodingFailed(m) => {
                let mut s = text("Reed-Solomon encoding failed: ");
                push_text(&mut s, m.as_str());
                s
            },
            CodecError::DecodingFailed(m) => {
                let mut s = text("Reed-Solomon decoding failed: ");
                push_text(&mut s, m.as_str());
                s
            },
            CodecError::InvalidChunkSize { expected, actual } => {
                let mut s = text("Invalid chunk size: expected ");
                push_decimal(&mut s, *expected);
                push_text(&mut s, ", got ");
                push_decimal(&mut s, *actual);
                s
            },
            CodecError::InsufficientData => text("Insufficient data for decoding"),
        }
    }
}

impl RepairError {
    /// The message of the error.
    pub open spec fn message(&self) -> Seq<char> {
        match self {
            RepairError::TooManyCorrupted { corrupted, max_repairable } => "Too many corrupted chunks to repair: "@
                + decimal(*corrupted as nat) + " > "@ + decimal(*max_repairable as nat),
            RepairError::RootHashMismatch { expected, actual } => "Root hash mismatch: expected "@ + bytes_text(
                expected@,
            ) + ", got "@ + bytes_text(actual@),
            RepairError::MissingRequiredData => "Cannot repair: missing required data"@,
            RepairError::ValidationFailed(m) => "Repair validation failed: "@ + m@,
        }
    }

    /// The message of the error.
    pub fn to_string(&self) -> (s: String)
        ensures
            s@ == self.message(),
    {
        match self {
            RepairError::TooManyCorrupted { corrupted, max_repairable } => {
                let mut s = text("Too many corrupted chunks to repair: ");
                push_decimal(&mut s, *corrupted);
                push_text(&mut s, " > ");
                push_decimal(&mut s, *max_repairable);
                s
            },
            RepairError::RootHashMismatch { expected, actual } => {
                let mut s = text("Root hash mismatch: expected ");
                push_bytes(&mut s, expected.as_slice());
                push_text(&mut s, ", got ");
                push_bytes(&mut s, actual.as_slice());
                s
            },
            RepairError::MissingRequiredData => text("Cannot repair: missing required data"),
            RepairError::ValidationFailed(m) => {
                let mut s = text("Repair validation failed: ");
                push_text(&mut s, m.as_str());
                s
            },
        }
    }
}

/// The error that caused another: the codec or repair error that an error
/// of the data square wraps.
pub enum ErrorSource<'a> {
    Codec(&'a CodecError),
    Repair(&'a RepairError),
}

impl EdsError {
    /// The message of the error.
    pub open spec fn message(&self) -> Seq<char> {
        match self {
            EdsError::InvalidDimensions(m) => "Invalid data square dimensions: "@ + m@,
            EdsError::Codec(e) => "Codec error: "@ + e.message(),
            EdsError::Repair(e) => "Repair error: "@ + e.message(),
            EdsError::InvalidData(m) => "Invalid data: "@ + m@,
            EdsError::IndexOutOfBounds { row, col, width } => "Index out of bounds: row="@ + decimal(*row as nat)
                + ", col="@ + decimal(*col as nat) + ", width="@ + decimal(*width as nat),
        }
    }

    /// The message of the error.
    pub fn to_string(&self) -> (s: String)
        ensures
            s@ == self.message(),
    {
        match self {
            EdsError::InvalidDimensions(m) => {
                let mut s = text("Invalid data square dimensions: ");
                push_text(&mut s, m.as_str());
                s
            },
            EdsError::Codec(e) => {
                let mut s = text("Codec error: ");
                let inner = e.to_string();
                push_text(&mut s, inner.as_str());
                s
            },
            EdsError::Repair(e) => {
                let mut s = text("Repair error: ");
                let inner = e.to_string();
                push_text(&mut s, inner.as_str());
                s
            },
            EdsError::InvalidData(m) => {
                let mut s = text("Invalid data: ");
                push_text(&mut s, m.as_str());
                s
            },
            EdsError::IndexOutOfBounds { row, col, width } => {
                let mut s = text("Index out of bounds: row=");
                push_decimal(&mut s, *row);
                push_text(&mut s, ", col=");
                push_decimal(&mut s, *col);
                push_text(&mut s, ", width=");
                push_decimal(&mut s, *width);
                s
            },
        }
    }

    /// The error that caused this one: the wrapped codec or repair error.
    pub fn source(&self) -> (r: Option<ErrorSource<'_>>)
        ensures
            match self {
                EdsError::Codec(e) => r == Some(ErrorSource::Codec(e)),
                EdsError::Repair(e) => r == Some(ErrorSource::Repair(e)),
                _ => r is None,
            },
    {
        match self {
            EdsError::Codec(e) => Some(ErrorSource::Codec(e)),
            EdsError::Repair(e) => Some(ErrorSource::Repair(e)),
            _ => None,
        }
    }
}

impl From<CodecError> for EdsError {
    fn from(e: CodecError) -> (r: EdsError) {
        EdsError::Codec(e)
    }
}

impl vstd::std_specs::convert::FromSpecImpl<CodecError> for EdsError {
    open spec fn obeys_from_spec() -> bool {
        true
    }

    open spec fn from_spec(e: CodecError) -> EdsError {
        EdsError::Codec(e)
    }
}

impl From<RepairError> for EdsError {
    fn from(e: RepairError) -> (r: EdsError) {
        EdsError::Repair(e)
    }
}

impl vstd::std_specs::convert::FromSpecImpl<RepairError> for EdsError {
    open spec fn obeys_from_spec() -> bool {
        true
    }

    open spec fn from_spec(e: RepairError) -> EdsError {
        EdsError::Repair(e)
    }
}

/// Result of the operations of the data square.
pub type EdsResult<T> = Result<T, EdsError>;

/// Result of the codec operations.
pub type CodecResult<T> = Result<T, CodecError>;

/// Result of the repair operations.
pub type RepairResult<T> = Result<T, RepairError>;

} // verus!
