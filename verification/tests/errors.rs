use grip::errors::{ffi_error, Error, ErrorKind};

#[test]
fn ffi_error_wraps_its_message() {
    let e = ffi_error("Invalid URI.");
    match &e.kind {
        ErrorKind::FFIError(m) => assert_eq!(m, "Invalid URI."),
        _ => panic!("expected an FFI error"),
    }
    assert!(e.causes.is_empty());
    assert_eq!(e.display_chain(), "Error: FFI Error: Invalid URI.\n");
}

#[test]
fn descriptions_of_kinds() {
    assert_eq!(ErrorKind::RequestCancelled.description(), "Request was cancelled");
    assert_eq!(ErrorKind::RequestTimeout.description(), "Request timeout");
    assert_eq!(ErrorKind::Msg("m".to_string()).description(), "m");
    assert_eq!(ErrorKind::FFIError("x".to_string()).description(), "FFI Error: x");
    assert_eq!(ErrorKind::JSONError("eof".to_string()).description(), "eof");
    assert_eq!(ErrorKind::HTTPError("refused".to_string()).description(), "refused");
    assert_eq!(ErrorKind::CrossBeamError("receiving on an empty channel".to_string()).description(), "receiving on an empty channel");
}

#[test]
fn chain_puts_the_cause_first() {
    let inner = Error::from_kind(ErrorKind::Msg("low".to_string()));
    let mid = inner.chain(ErrorKind::Msg("mid".to_string()));
    let top = mid.chain(ErrorKind::FFIError("top".to_string()));
    assert_eq!(top.causes, vec!["mid".to_string(), "low".to_string()]);
    assert_eq!(
        top.display_chain(),
        "Error: FFI Error: top\nCaused by: mid\nCaused by: low\n"
    );
}
