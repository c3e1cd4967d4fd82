use grip::errors::{Error, ErrorKind};
use grip::ffi::ext::{
    copy_unsafe_string, ptr_to_option, push_decimal, serial_size, serialize_to_string, str_from_bytes_or,
    str_from_ptr, str_from_ptr_or, to_c_string, try_as_usize, ResultFFIExt,
};
use grip::ffi::strlcpy::{strlcpy, wrapping_offset_from};
use grip::ffi::Cell;
use libc::c_char;

fn copy_unsafe_string_status(size: isize) -> Cell {
    let mut s: [c_char; 2] = [0; 2];

    let status = match copy_unsafe_string(&mut s, "1", size) {
        Ok(n) => n,
        Err(_) => return 0,
    };

    assert_eq!(s, ['1' as c_char, '\0' as c_char]);

    status
}

#[test]
fn copy_unsafe_string_test() {
    assert_eq!(copy_unsafe_string_status(-1), 0);
    assert_eq!(copy_unsafe_string_status(2), 1);
}

fn ffi_message(e: &Error) -> String {
    match &e.kind {
        ErrorKind::FFIError(m) => m.clone(),
        _ => panic!("not an FFI error"),
    }
}

#[test]
fn copy_truncates_and_terminates() {
    let mut buf: [c_char; 8] = [7; 8];
    let n = copy_unsafe_string(&mut buf, "hello world", 3).unwrap();
    assert_eq!(n, 11);
    assert_eq!(&buf[..4], &['h' as c_char, 'e' as c_char, 'l' as c_char, 0]);
    assert_eq!(&buf[4..], &[7, 7, 7, 7]);
}

#[test]
fn copy_with_negative_size_leaves_buffer() {
    let mut buf: [c_char; 3] = [5; 3];
    let e = copy_unsafe_string(&mut buf, "abc", -4).unwrap_err();
    assert_eq!(ffi_message(&e), "Index/Size -4 should be greater or equal to zero.");
    assert_eq!(buf, [5, 5, 5]);
}

#[test]
fn copy_stops_at_nul_inside_text() {
    let mut buf: [c_char; 6] = [9; 6];
    let n = copy_unsafe_string(&mut buf, "ab\0cd", 5).unwrap();
    assert_eq!(n, 2);
    assert_eq!(&buf[..3], &['a' as c_char, 'b' as c_char, 0]);
}

#[test]
fn copy_of_multibyte_text_counts_bytes() {
    let mut buf: [c_char; 8] = [1; 8];
    let n = copy_unsafe_string(&mut buf, "é", 7).unwrap();
    assert_eq!(n, 2);
    assert_eq!(buf[2], 0);
}

#[test]
fn strlcpy_reports_source_length() {
    let src: [c_char; 4] = ['a' as c_char, 'b' as c_char, 'c' as c_char, 0];
    let mut dst: [c_char; 2] = [9; 2];
    let n = strlcpy(&mut dst, &src, 2);
    assert_eq!(n, 3);
    assert_eq!(dst, ['a' as c_char, 0]);
    // Truncation happened: the returned length is not below the size.
    assert!(n >= 2);
}

#[test]
fn strlcpy_whole_string_fits() {
    let src: [c_char; 3] = ['x' as c_char, 'y' as c_char, 0];
    let mut dst: [c_char; 5] = [9; 5];
    let n = strlcpy(&mut dst, &src, 5);
    assert_eq!(n, 2);
    assert_eq!(dst, ['x' as c_char, 'y' as c_char, 0, 9, 9]);
}

#[test]
fn strlcpy_with_zero_size_writes_nothing() {
    let src: [c_char; 3] = ['x' as c_char, 'y' as c_char, 0];
    let mut dst: [c_char; 2] = [4; 2];
    let n = strlcpy(&mut dst, &src, 0);
    assert_eq!(n, 2);
    assert_eq!(dst, [4, 4]);
}

#[test]
fn wrapping_offset_from_counts_elements() {
    assert_eq!(wrapping_offset_from(120, 100, 4), 5);
    assert_eq!(wrapping_offset_from(100, 120, 4), -5);
    assert_eq!(wrapping_offset_from(103, 100, 2), 1);
    assert_eq!(wrapping_offset_from(100, 103, 2), -1);
    assert_eq!(wrapping_offset_from(7, 7, 1), 0);
}

#[test]
fn wrapping_offset_from_undoes_a_wrapping_offset() {
    let origin = usize::MAX - 3;
    let there = origin.wrapping_add(2 * 4);
    assert_eq!(there, 4);
    assert_eq!(wrapping_offset_from(there, origin, 4), 2);
    let back = 4usize.wrapping_sub(3 * 8);
    assert_eq!(wrapping_offset_from(back, 4, 8), -3);
}

#[test]
fn ptr_to_option_maps_null() {
    assert_eq!(ptr_to_option(0), None);
    assert_eq!(ptr_to_option(4096), Some(4096));
}

#[test]
fn try_as_usize_accepts_non_negative() {
    assert_eq!(try_as_usize(0).unwrap(), 0);
    assert_eq!(try_as_usize(42).unwrap(), 42);
    let e = try_as_usize(-1).unwrap_err();
    assert_eq!(ffi_message(&e), "Index/Size -1 should be greater or equal to zero.");
    assert!(e.causes.is_empty());
}

#[test]
fn push_decimal_writes_integers() {
    let mut s = String::from("n=");
    push_decimal(&mut s, -9075);
    assert_eq!(s, "n=-9075");
    let mut t = String::new();
    push_decimal(&mut t, isize::MIN);
    assert_eq!(t, isize::MIN.to_string());
    let mut u = String::new();
    push_decimal(&mut u, 0);
    assert_eq!(u, "0");
}

#[test]
fn to_c_string_appends_nul() {
    let c = to_c_string("hé");
    assert_eq!(c, vec!['h' as c_char, 0xC3u8 as c_char, 0xA9u8 as c_char, 0]);
}

#[test]
fn get_value_of_result_and_option() {
    let ok: Result<i32, Error> = Ok(3);
    assert_eq!(ok.get_value(), Ok(3));
    let err: Result<i32, Error> = Err(Error::from_kind(ErrorKind::FFIError("bad".to_string())));
    assert_eq!(err.get_value(), Err("Error: FFI Error: bad\n".to_string()));
    let none: Option<i32> = None;
    assert_eq!(none.get_value(), Err("Got empty option".to_string()));
    assert_eq!(Some(5).get_value(), Ok(5));
}

#[test]
fn str_from_ptr_decodes_or_explains() {
    assert_eq!(str_from_ptr(b"abc").unwrap(), "abc");
    let e = str_from_ptr(&[0x61, 0xFF]).unwrap_err();
    match &e.kind {
        ErrorKind::Msg(m) => assert_eq!(m, "Can't create string from raw pointer."),
        _ => panic!("expected a plain message"),
    }
    assert_eq!(e.causes, vec![std::str::from_utf8(&[0x61, 0xFF]).unwrap_err().to_string()]);
}

#[test]
fn str_from_ptr_or_chains_the_cause() {
    let e = str_from_ptr_or(&[0xC0], "Invalid string. Can't create UTF-8 string").unwrap_err();
    assert_eq!(ffi_message(&e), "Invalid string. Can't create UTF-8 string");
    assert_eq!(e.causes.len(), 2);
    assert_eq!(e.causes[0], "Can't create string from raw pointer.");
    assert_eq!(
        e.display_chain(),
        format!(
            "Error: FFI Error: Invalid string. Can't create UTF-8 string\nCaused by: Can't create string from raw pointer.\nCaused by: {}\n",
            std::str::from_utf8(&[0xC0]).unwrap_err()
        )
    );
}

#[test]
fn str_from_bytes_or_has_one_cause() {
    assert_eq!(str_from_bytes_or(b"ok", "m").unwrap(), "ok");
    let e = str_from_bytes_or(&[0xFF], "Invalid header name. Can't create UTF-8 string").unwrap_err();
    assert_eq!(ffi_message(&e), "Invalid header name. Can't create UTF-8 string");
    assert_eq!(e.causes.len(), 1);
}

#[test]
fn serialisation_text_and_size() {
    assert_eq!(serialize_to_string("{}", true), "{}\0");
    assert_eq!(serialize_to_string("[1]", false), "[1]");
    assert_eq!(serial_size("{\"a\":1}", true), 8);
    assert_eq!(serial_size("é", false), 2);
}

#[test]
fn serial_size_matches_the_copied_length() {
    let text = "{\"k\":\"\\u0000é\"}";
    let with_nul = serial_size(text, true);
    let without = serial_size(text, false);
    assert_eq!(with_nul, without + 1);
    let mut buf: [libc::c_char; 8] = [0; 8];
    assert_eq!(copy_unsafe_string(&mut buf, text, 7).unwrap(), without);
}
