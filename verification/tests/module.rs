use grip::errors::{Error, ErrorKind};
use grip::ffi::module::{
    callbacks_this_frame, header_name_would_panic, queue_settings, request_type_from_cell, ConfigError, Module,
    RequestType, Response,
};
use grip::gc_json::{JsonTree, Number};
use libc::c_char;

fn ffi_message(e: &Error) -> String {
    match &e.kind {
        ErrorKind::FFIError(m) => m.clone(),
        _ => panic!("not an FFI error: {:?}", e),
    }
}

fn module() -> Module<u32> {
    Module::new(10, 500)
}

#[test]
fn request_types() {
    assert_eq!(request_type_from_cell(0).unwrap(), RequestType::Get);
    assert_eq!(request_type_from_cell(1).unwrap(), RequestType::Post);
    assert_eq!(request_type_from_cell(2).unwrap(), RequestType::Put);
    assert_eq!(request_type_from_cell(3).unwrap(), RequestType::Delete);
    let e = request_type_from_cell(4).unwrap_err();
    assert_eq!(ffi_message(&e), "Invalid request type 4");
}

#[test]
fn bodies() {
    let mut m = module();
    let e = m.body_from_string(None).unwrap_err();
    assert_eq!(ffi_message(&e), "Invalid URI.");
    let b = m.body_from_string(Some(b"payload")).unwrap();
    assert_eq!(b, 2);
    assert_eq!(m.bodies.get_with_id(b), Some(&b"payload".to_vec()));
    assert_eq!(m.destroy_body(b).unwrap(), 1);
    let e = m.destroy_body(b).unwrap_err();
    assert_eq!(ffi_message(&e), "Invalid body handle 2");
}

#[test]
fn prepare_request_checks_in_order() {
    let mut m = module();
    let e = m.prepare_request(9, None, 5, 5).unwrap_err();
    assert_eq!(ffi_message(&e), "Invalid request type 9");
    let e = m.prepare_request(0, None, 5, 5).unwrap_err();
    assert_eq!(ffi_message(&e), "Invalid URI.");
    let e = m.prepare_request(0, Some(&[0xFF]), 5, 5).unwrap_err();
    assert_eq!(ffi_message(&e), "URI is not UTF-8");
    let e = m.prepare_request(0, Some(b"http://example.com/"), 5, 5).unwrap_err();
    assert_eq!(ffi_message(&e), "Invalid body handle: 5");
    let e = m.prepare_request(0, Some(b"http://example.com/"), -1, 5).unwrap_err();
    assert_eq!(ffi_message(&e), "Invalid options handle: 5");
    let e = m.prepare_request(0, Some(b"http://exa mple.com/"), -1, -1).unwrap_err();
    assert_eq!(ffi_message(&e), "URI parsing error: http://exa mple.com/");
    assert_eq!(e.causes.len(), 1);

    let body = m.body_from_string(Some(b"{}")).unwrap();
    let opts = m.create_options(Some(1500));
    let p = m.prepare_request(1, Some(b"https://example.com/api"), body, opts).unwrap();
    assert_eq!(p.request_type, RequestType::Post);
    assert_eq!(p.body, b"{}".to_vec());
    assert_eq!(p.options.timeout_millis, Some(1500));
    assert_eq!(p.uri.to_string(), "https://example.com/api");

    let q = m.prepare_request(0, Some(b"http://example.com/"), -1, -1).unwrap();
    assert!(q.body.is_empty());
    assert!(q.options.headers.is_empty());
    assert_eq!(q.options.timeout_millis, None);
}

#[test]
fn requests_and_cancellation() {
    let mut m = module();
    let next = m.next_request_handle();
    let r = m.register_request(7u32);
    assert_eq!(r, next);
    assert_eq!(m.is_request_active(r), 1);
    assert_eq!(m.cancel_request(r).unwrap(), 1);
    assert_eq!(m.is_request_active(r), 0);
    let e = m.cancel_request(r).unwrap_err();
    assert_eq!(ffi_message(&e), format!("Cancellation with the id {} doesn't exist.", r));
}

#[test]
fn response_outside_of_callback() {
    let m = module();
    let e = m.response_state().unwrap_err();
    assert_eq!(ffi_message(&e), "Response state can only be received in the request callback");
    let e = m.response_status_code().unwrap_err();
    assert_eq!(ffi_message(&e), "No active response at this time");
    let mut buf: [c_char; 4] = [0; 4];
    let e = m.error_description(&mut buf, 3).unwrap_err();
    assert_eq!(ffi_message(&e), "No active response at this time");
}

#[test]
fn response_states() {
    let mut m = module();
    let r = m.register_request(1u32);
    m.begin_response(Ok(Response { status_code: 404, body: b"missing".to_vec() }));
    assert_eq!(m.response_state().unwrap(), 3);
    assert_eq!(m.response_status_code().unwrap(), 404);
    let mut buf: [c_char; 16] = [0; 16];
    assert_eq!(m.response_body_string(&mut buf, 15).unwrap(), 7);
    assert_eq!(buf[7], 0);
    let e = m.error_description(&mut buf, 15).unwrap_err();
    assert_eq!(ffi_message(&e), "No error for this response.");
    m.end_response(r);
    assert_eq!(m.is_request_active(r), 0);
    assert!(m.current_response.is_none());

    m.begin_response(Err(Error::from_kind(ErrorKind::RequestCancelled)));
    assert_eq!(m.response_state().unwrap(), 1);
    let e = m.error_description(&mut buf, 15).unwrap_err();
    assert!(matches!(e.kind, ErrorKind::RequestCancelled));
    m.begin_response(Err(Error::from_kind(ErrorKind::RequestTimeout)));
    assert_eq!(m.response_state().unwrap(), 4);
    let mut long: [c_char; 32] = [0; 32];
    assert_eq!(m.error_description(&mut long, 31).unwrap(), 23);
    m.begin_response(Err(Error::from_kind(ErrorKind::HTTPError("refused".to_string()))));
    assert_eq!(m.response_state().unwrap(), 2);
    let e = m.response_status_code().unwrap_err();
    assert_eq!(ffi_message(&e), "Error/Cancellation/Timeout occurred for this response.");
}

#[test]
fn response_body_that_is_not_text() {
    let mut m = module();
    m.begin_response(Ok(Response { status_code: 200, body: vec![0xFF, 0x00] }));
    let mut buf: [c_char; 4] = [0; 4];
    let e = m.response_body_string(&mut buf, 3).unwrap_err();
    assert_eq!(ffi_message(&e), "Unable to parse UTF-8");
    assert_eq!(e.causes.len(), 1);
}

#[test]
fn parsed_json_is_stored_or_explained() {
    let mut m = module();
    let mut buf: [c_char; 64] = [0; 64];
    let h = m
        .json_add_parsed(Ok(JsonTree::Number(Number::PosInt(4))), &mut buf, 63)
        .unwrap();
    assert_eq!(m.json.json_get_number(h).unwrap(), 4);
    let r = m.json_add_parsed(Err("EOF while parsing".to_string()), &mut buf, 63).unwrap();
    assert_eq!(r, 0);
    let text: Vec<u8> = buf.iter().take_while(|c| **c != 0).map(|c| *c as u8).collect();
    assert_eq!(String::from_utf8(text).unwrap(), "Error: EOF while parsing\n");
    let e = m.json_add_parsed(Err("x".to_string()), &mut buf, -1).unwrap_err();
    assert_eq!(ffi_message(&e), "Index/Size -1 should be greater or equal to zero.");
}

#[test]
fn options_and_headers() {
    let mut m = module();
    let o = m.create_options(None);
    assert_eq!(m.options_add_header(o, b"Content-Type", b"application/json").unwrap(), Some(1));
    assert_eq!(m.options_add_header(o, b"X-Other", b"v").unwrap(), Some(1));
    let opts = m.options.get_with_id(o).unwrap();
    assert_eq!(opts.headers.len(), 2);
    assert_eq!(opts.headers.get("content-type").unwrap(), "application/json");
    assert_eq!(opts.headers.get("x-other").unwrap(), "v");
    assert_eq!(m.options_add_header(o, b"x-OTHER", b"w").unwrap(), Some(1));
    let opts = m.options.get_with_id(o).unwrap();
    assert_eq!(opts.headers.len(), 2);
    assert_eq!(opts.headers.get("x-other").unwrap(), "w");

    let e = m.options_add_header(o, b"X-Bad", b"line\nbreak").unwrap_err();
    assert_eq!(
        ffi_message(&e),
        "Header value contains invalid byte sequences or was rejected by Hyper HTTP implementation: line\nbreak"
    );
    assert_eq!(e.causes, vec!["failed to parse header value".to_string()]);
    let e = m.options_add_header(o, &[0xFF], b"v").unwrap_err();
    assert_eq!(ffi_message(&e), "Invalid header name. Can't create UTF-8 string");
    let e = m.options_add_header(o, b"X", &[0xFF]).unwrap_err();
    assert_eq!(ffi_message(&e), "Invalid header value. Can't create UTF-8 string");
    assert_eq!(m.options_add_header(o, b"bad name", b"v").unwrap(), None);
    let e = m.options_add_header(42, b"X", b"v").unwrap_err();
    assert_eq!(ffi_message(&e), "Invalid options handle: 42");
    assert_eq!(m.options.get_with_id(o).unwrap().headers.len(), 2);

    assert_eq!(m.destroy_options(o).unwrap(), 1);
    let e = m.destroy_options(o).unwrap_err();
    assert_eq!(ffi_message(&e), format!("Invalid options handle {}", o));
}

#[test]
fn header_names_that_panic() {
    assert!(header_name_would_panic(""));
    assert!(header_name_would_panic("with space"));
    assert!(!header_name_would_panic("X-Custom_Header.1"));
    assert!(!header_name_would_panic(&"x ".repeat(40)));
    assert!(header_name_would_panic(&"x".repeat(65536)));
}

#[test]
fn callbacks_per_frame_follow_the_backlog() {
    assert_eq!(callbacks_this_frame(0, 10), 10);
    assert_eq!(callbacks_this_frame(499, 10), 10);
    assert_eq!(callbacks_this_frame(500, 10), 10);
    assert_eq!(callbacks_this_frame(1_000, 10), 20);
    assert_eq!(callbacks_this_frame(100_000, 10), 2_000);
    assert_eq!(callbacks_this_frame(0, 5), 5);
    assert_eq!(callbacks_this_frame(5_000, usize::MAX), usize::MAX);
}

#[test]
fn queue_settings_from_config() {
    assert_eq!(queue_settings(true, Some("10"), Some("+250")), Ok((10, 250)));
    assert_eq!(queue_settings(false, Some("10"), Some("250")), Err(ConfigError::MissingSection));
    assert_eq!(queue_settings(true, None, Some("250")), Err(ConfigError::MissingCallbacksPerFrame));
    assert_eq!(queue_settings(true, Some("ten"), Some("250")), Err(ConfigError::BadCallbacksPerFrame));
    assert_eq!(queue_settings(true, Some("10"), None), Err(ConfigError::MissingDelay));
    assert_eq!(queue_settings(true, Some("10"), Some("-1")), Err(ConfigError::BadDelay));
    assert_eq!(
        ConfigError::MissingSection.message(),
        "Error: Missing [queue] section in the grip.ini config"
    );
}

#[test]
fn queue_numbers_are_read_as_unsigned_decimals() {
    let max = usize::MAX.to_string();
    assert_eq!(queue_settings(true, Some(&max), Some("0")), Ok((usize::MAX, 0)));
    let too_big = format!("{}0", usize::MAX);
    assert_eq!(queue_settings(true, Some(&too_big), Some("0")), Err(ConfigError::BadCallbacksPerFrame));
    assert_eq!(queue_settings(true, Some("+"), Some("0")), Err(ConfigError::BadCallbacksPerFrame));
    assert_eq!(queue_settings(true, Some(""), Some("0")), Err(ConfigError::BadCallbacksPerFrame));
    assert_eq!(queue_settings(true, Some("1é"), Some("0")), Err(ConfigError::BadCallbacksPerFrame));
    assert_eq!(queue_settings(true, Some("007"), Some("12x")), Err(ConfigError::BadDelay));
    assert_eq!(queue_settings(true, Some("007"), Some("+0")), Ok((7, 0)));
}

#[test]
fn prepared_requests_carry_a_copy_of_the_headers() {
    let mut m = module();
    let o = m.create_options(Some(10));
    m.options_add_header(o, b"Accept", b"text/plain").unwrap();
    let p = m.prepare_request(0, Some(b"http://example.com/"), -1, o).unwrap();
    assert_eq!(p.options.headers.get("accept").unwrap(), "text/plain");
    m.options_add_header(o, b"Accept", b"application/json").unwrap();
    assert_eq!(p.options.headers.get("accept").unwrap(), "text/plain");
    assert_eq!(m.options.get_with_id(o).unwrap().headers.get("accept").unwrap(), "application/json");
}
