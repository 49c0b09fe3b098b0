use dusk::error::DuskError;
use std::io;

#[test]
fn test_path_not_found_display() {
    let err = DuskError::PathNotFound("/nonexistent".to_string());
    assert_eq!(err.message(), "path not found: /nonexistent");
}

#[test]
fn test_permission_denied_display() {
    let err = DuskError::PermissionDenied("/secret".to_string());
    assert_eq!(err.message(), "permission denied: /secret");
}

#[test]
fn test_io_error_display() {
    let io_err = io::Error::new(io::ErrorKind::Other, "disk full");
    let err = DuskError::IoError(io_err.to_string());
    assert_eq!(err.message(), "I/O error: disk full");
}

#[test]
fn test_traversal_error_display() {
    let err = DuskError::TraversalError("something broke".to_string());
    assert_eq!(err.message(), "traversal error: something broke");
}

#[test]
fn test_from_io_error() {
    let io_err = io::Error::new(io::ErrorKind::NotFound, "not found");
    let err = DuskError::IoError(io_err.to_string());
    assert!(matches!(err, DuskError::IoError(_)));
}

#[test]
fn test_error_is_debug() {
    let err = DuskError::PathNotFound("/test".to_string());
    let debug_str = format!("{err:?}");
    assert!(debug_str.contains("PathNotFound"));
}
