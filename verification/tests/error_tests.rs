use rsmt2d::error::ErrorSource;
use rsmt2d::{CodecError, EdsError, RepairError};

#[test]
fn test_error_display_formatting() {
    let codec_error = CodecError::EncodingFailed("test error".to_string());
    assert!(codec_error.to_string().contains("Reed-Solomon encoding failed"));

    let eds_error = EdsError::Codec(codec_error);
    assert!(eds_error.to_string().contains("Codec error"));
}

#[test]
fn test_error_chain_preservation() {
    let root_cause = CodecError::InsufficientData;
    let eds_error = EdsError::Codec(root_cause);

    // Test error source chain
    assert!(eds_error.source().is_some());
}

#[test]
fn test_index_out_of_bounds_error() {
    let error = EdsError::IndexOutOfBounds { row: 5, col: 10, width: 8 };
    let message = error.to_string();
    assert!(message.contains("row=5"));
    assert!(message.contains("col=10"));
    assert!(message.contains("width=8"));
}

#[test]
fn codec_error_messages() {
    assert_eq!(
        CodecError::EncodingFailed("boom".to_string()).to_string(),
        "Reed-Solomon encoding failed: boom"
    );
    assert_eq!(
        CodecError::DecodingFailed("bad".to_string()).to_string(),
        "Reed-Solomon decoding failed: bad"
    );
    assert_eq!(
        CodecError::InvalidChunkSize { expected: 16, actual: 3 }.to_string(),
        "Invalid chunk size: expected 16, got 3"
    );
    assert_eq!(CodecError::InsufficientData.to_string(), "Insufficient data for decoding");
}

#[test]
fn repair_error_messages() {
    assert_eq!(
        RepairError::TooManyCorrupted { corrupted: 7, max_repairable: 4 }.to_string(),
        "Too many corrupted chunks to repair: 7 > 4"
    );
    assert_eq!(
        RepairError::RootHashMismatch { expected: vec![1, 2, 255], actual: vec![] }.to_string(),
        "Root hash mismatch: expected [1, 2, 255], got []"
    );
    assert_eq!(RepairError::MissingRequiredData.to_string(), "Cannot repair: missing required data");
    assert_eq!(
        RepairError::ValidationFailed("roots".to_string()).to_string(),
        "Repair validation failed: roots"
    );
}

#[test]
fn eds_error_messages() {
    assert_eq!(
        EdsError::InvalidDimensions("odd".to_string()).to_string(),
        "Invalid data square dimensions: odd"
    );
    assert_eq!(EdsError::InvalidData("empty".to_string()).to_string(), "Invalid data: empty");
    assert_eq!(
        EdsError::Codec(CodecError::InsufficientData).to_string(),
        "Codec error: Insufficient data for decoding"
    );
    assert_eq!(
        EdsError::Repair(RepairError::MissingRequiredData).to_string(),
        "Repair error: Cannot repair: missing required data"
    );
    assert_eq!(
        EdsError::IndexOutOfBounds { row: 0, col: 123, width: 4 }.to_string(),
        "Index out of bounds: row=0, col=123, width=4"
    );
}

#[test]
fn error_sources() {
    let codec = EdsError::Codec(CodecError::InsufficientData);
    assert!(matches!(codec.source(), Some(ErrorSource::Codec(CodecError::InsufficientData))));
    let repair = EdsError::Repair(RepairError::MissingRequiredData);
    assert!(matches!(repair.source(), Some(ErrorSource::Repair(RepairError::MissingRequiredData))));
    assert!(EdsError::InvalidData("x".to_string()).source().is_none());
    assert!(EdsError::IndexOutOfBounds { row: 1, col: 1, width: 1 }.source().is_none());
}

#[test]
fn errors_convert_into_eds_error() {
    let e: EdsError = CodecError::InsufficientData.into();
    assert!(matches!(e, EdsError::Codec(CodecError::InsufficientData)));
    let e: EdsError = RepairError::MissingRequiredData.into();
    assert!(matches!(e, EdsError::Repair(RepairError::MissingRequiredData)));
}
