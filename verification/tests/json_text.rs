use grip::errors::ErrorKind;
use grip::ffi::module::{Module, Response};
use grip::gc_json::{JsonTree, Number};
use grip::json_text::{parse_json_bytes, parse_json_text};
use libc::c_char;

fn buffer_text(buf: &[c_char]) -> String {
    let text: Vec<u8> = buf.iter().take_while(|c| **c != 0).map(|c| *c as u8).collect();
    String::from_utf8(text).unwrap()
}

#[test]
fn text_parses_into_a_tree() {
    let t = parse_json_text(r#"{"a": [1, -2, 1.5], "b": "x", "c": null, "d": true}"#).unwrap();
    let expected = JsonTree::Object(vec![
        (
            "a".to_string(),
            JsonTree::Array(vec![
                JsonTree::Number(Number::PosInt(1)),
                JsonTree::Number(Number::NegInt(-2)),
                JsonTree::Number(Number::Float(1.5f64.to_bits())),
            ]),
        ),
        ("b".to_string(), JsonTree::String("x".to_string())),
        ("c".to_string(), JsonTree::Null),
        ("d".to_string(), JsonTree::Bool(true)),
    ]);
    assert_eq!(format!("{:?}", t), format!("{:?}", expected));
}

#[test]
fn bytes_parse_into_a_tree() {
    let t = parse_json_bytes(b"[18446744073709551615, -9223372036854775808]").unwrap();
    let expected = JsonTree::Array(vec![
        JsonTree::Number(Number::PosInt(u64::MAX)),
        JsonTree::Number(Number::NegInt(i64::MIN)),
    ]);
    assert_eq!(format!("{:?}", t), format!("{:?}", expected));
}

#[test]
fn bad_text_gives_the_parser_message() {
    assert_eq!(parse_json_text("[1,").unwrap_err(), "EOF while parsing a value at line 1 column 3");
    assert_eq!(parse_json_bytes(b"nul").unwrap_err(), "EOF while parsing a value at line 1 column 3");
}

#[test]
fn parse_string_stores_a_new_value() {
    let mut m: Module<u32> = Module::new(10, 500);
    let mut buf: [c_char; 64] = [0; 64];
    let h = m.json_parse_string(b"[7, \"s\"]", &mut buf, 63).unwrap();
    assert!(h > 1);
    assert_eq!(m.json.json_array_get_count(h).unwrap(), 2);
    let first = m.json.json_array_get_number(h, 0).unwrap();
    assert_eq!(first, 7);
    let h2 = m.json_parse_string(b"{}", &mut buf, 63).unwrap();
    assert_eq!(h2, h + 1);
}

#[test]
fn parse_string_explains_bad_text() {
    let mut m: Module<u32> = Module::new(10, 500);
    let mut buf: [c_char; 64] = [0; 64];
    assert_eq!(m.json_parse_string(b"{\"a\"", &mut buf, 63).unwrap(), 0);
    assert_eq!(buffer_text(&buf), "Error: EOF while parsing an object at line 1 column 4\n");
    let e = m.json_parse_string(&[0x7B, 0xFF], &mut buf, 63).unwrap_err();
    match e.kind {
        ErrorKind::FFIError(msg) => assert_eq!(msg, "Invalid string. Can't create UTF-8 string"),
        _ => panic!("expected an FFI error"),
    }
}

#[test]
fn parse_response_body_needs_a_response() {
    let mut m: Module<u32> = Module::new(10, 500);
    let mut buf: [c_char; 64] = [0; 64];
    let e = m.json_parse_response_body(&mut buf, 63).unwrap_err();
    match e.kind {
        ErrorKind::FFIError(msg) => assert_eq!(msg, "No active response at this time"),
        _ => panic!("expected an FFI error"),
    }
    m.current_response = Some(Ok(Response { status_code: 200, body: b"{\"k\": 3}".to_vec() }));
    let h = m.json_parse_response_body(&mut buf, 63).unwrap();
    assert_eq!(m.json.json_object_get_number(h, b"k", false).unwrap(), 3);
}

#[test]
fn parse_file_contents_stores_or_explains() {
    let mut m: Module<u32> = Module::new(10, 500);
    let mut buf: [c_char; 64] = [0; 64];
    let h = m.json_parse_file_contents(b"true", &mut buf, 63).unwrap();
    assert_eq!(m.json.json_get_bool(h).unwrap(), 1);
    assert_eq!(m.json_parse_file_contents(b"tru", &mut buf, 63).unwrap(), 0);
    assert_eq!(buffer_text(&buf), "Error: EOF while parsing a value at line 1 column 3\n");
}

#[test]
fn a_parsed_object_has_each_name_once() {
    let t = parse_json_text(r#"{"a": 1, "a": 2}"#).unwrap();
    let expected = JsonTree::Object(vec![("a".to_string(), JsonTree::Number(Number::PosInt(2)))]);
    assert_eq!(format!("{:?}", t), format!("{:?}", expected));
}
