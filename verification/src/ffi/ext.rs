//! Helpers shared by the functions that the scripting host calls.

use crate::errors::{display_chain, fails_with, Error, ErrorKind};
use crate::ffi::strlcpy::{c_strlen, kept_len, lemma_c_strlen, lemma_nul_gives_c_string, strlcpy};
use libc::c_char;
use vstd::prelude::*;
use vstd::string::StringExecFns;

verus! {

/// Turns a result into either its value or the text that describes why
/// there is none.
pub trait ResultFFIExt<T>: Sized {
    fn get_value(self) -> Result<T, String>;
}

impl<T> ResultFFIExt<T> for Result<T, Error> {
    /// The value, or the description of the error with its whole chain of
    /// causes.
    fn get_value(self) -> (r: Result<T, String>)
        ensures
            match self {
                Ok(v) => r == Ok::<T, String>(v),
                Err(e) => r matches Err(s) && s@ == display_chain(e),
            },
    {
        match self {
            Ok(v) => Ok(v),
            Err(e) => Err(e.display_chain()),
        }
    }
}

impl<T> ResultFFIExt<T> for Option<T> {
    /// The value, or the text `Got empty option`.
    fn get_value(self) -> (r: Result<T, String>)
        ensures
            match self {
                Some(v) => r == Ok::<T, String>(v),
                None => r matches Err(s) && s@ == "Got empty option"@,
            },
    {
        match self {
            Some(v) => Ok(v),
            None => Err(String::from_str("Got empty option")),
        }
    }
}

/// A C pointer given by its address: `None` for the null pointer, the
/// address otherwise.
pub fn ptr_to_option(ptr: usize) -> (r: Option<usize>)
    ensures
        r == (if ptr == 0 {
            None
        } else {
            Some(ptr)
        }),
{
    if ptr == 0 {
        None
    } else {
        Some(ptr)
    }
}

/// The decimal digit `d` as a character.
pub open spec fn digit_char(d: nat) -> char {
    if d == 0 {
        '0'
    } else if d == 1 {
        '1'
    } else if d == 2 {
        '2'
    } else if d == 3 {
        '3'
    } else if d == 4 {
        '4'
    } else if d == 5 {
        '5'
    } else if d == 6 {
        '6'
    } else if d == 7 {
        '7'
    } else if d == 8 {
        '8'
    } else {
        '9'
    }
}

/// The decimal digits of `n`, most significant first, with no leading zero.
pub open spec fn decimal_digits(n: nat) -> Seq<char>
    decreases n,
{
    if n < 10 {
        seq![digit_char(n)]
    } else {
        decimal_digits(n / 10).push(digit_char(n % 10))
    }
}

/// `n` written in decimal, with a leading `-` when it is negative.
pub open spec fn decimal(n: int) -> Seq<char> {
    if n < 0 {
        seq!['-'] + decimal_digits((-n) as nat)
    } else {
        decimal_digits(n as nat)
    }
}

fn push_digit(s: &mut String, d: u64)
    requires
        d < 10,
    ensures
        final(s)@ == old(s)@.push(digit_char(d as nat)),
{
    proof {
        reveal_strlit("0");
        reveal_strlit("1");
        reveal_strlit("2");
        reveal_strlit("3");
        reveal_strlit("4");
        reveal_strlit("5");
        reveal_strlit("6");
        reveal_strlit("7");
        reveal_strlit("8");
        reveal_strlit("9");
    }
    if d == 0 {
        s.append("0");
    } else if d == 1 {
        s.append("1");
    } else if d == 2 {
        s.append("2");
    } else if d == 3 {
        s.append("3");
    } else if d == 4 {
        s.append("4");
    } else if d == 5 {
        s.append("5");
    } else if d == 6 {
        s.append("6");
    } else if d == 7 {
        s.append("7");
    } else if d == 8 {
        s.append("8");
    } else {
        s.append("9");
    }
}

fn push_decimal_digits(s: &mut String, n: u64)
    ensures
        final(s)@ == old(s)@ + decimal_digits(n as nat),
    decreases n,
{
    if n >= 10 {
        push_decimal_digits(s, n / 10);
        push_digit(s, n % 10);
        assert(decimal_digits(n as nat) == decimal_digits((n / 10) as nat).push(
            digit_char((n % 10) as nat),
        ));
    } else {
        push_digit(s, n);
        assert(decimal_digits(n as nat) =~= seq![digit_char(n as nat)]);
    }
}

/// Appends `n` written in decimal to `s`.
pub fn push_decimal(s: &mut String, n: isize)
    ensures
        final(s)@ == old(s)@ + decimal(n as int),
{
    proof {
        reveal_strlit("-");
    }
    if n < 0 {
        s.append("-");
        let magnitude: u64 = if n == isize::MIN {
            (isize::MAX as u64) + 1
        } else {
            (-n) as u64
        };
        push_decimal_digits(s, magnitude);
    } else {
        push_decimal_digits(s, n as u64);
    }
}

/// The error for an index or size that is negative.
pub open spec fn negative_size_message(size: int) -> Seq<char> {
    "Index/Size "@ + decimal(size) + " should be greater or equal to zero."@
}

/// A size or index from the host, as a `usize`; a negative one is an
/// `FFIError` that says so.
pub fn try_as_usize(size: isize) -> (r: Result<usize, Error>)
    ensures
        size >= 0 ==> r == Ok::<usize, Error>(size as usize),
        size < 0 ==> fails_with(r, negative_size_message(size as int)),
{
    if size >= 0 {
        Ok(size as usize)
    } else {
        let mut m = String::from_str("Index/Size ");
        push_decimal(&mut m, size);
        m.append(" should be greater or equal to zero.");
        Err(Error::from_kind(ErrorKind::FFIError(m)))
    }
}

/// The NUL-terminated C string that holds the UTF-8 encoding of `s`.
pub open spec fn c_string_of(s: Seq<char>) -> Seq<c_char> {
    vstd::utf8::encode_utf8(s).map_values(|b: u8| b as c_char).push(0)
}

/// The C string that holds the UTF-8 encoding of `s`, NUL-terminated.
pub fn to_c_string(s: &str) -> (r: Vec<c_char>)
    ensures
        r@ == c_string_of(s@),
{
    let bytes = s.as_bytes();
    let n = bytes.len();
    let mut r: Vec<c_char> = Vec::new();
    let mut i: usize = 0;
    while i < n
        invariant
            n == bytes@.len(),
            bytes@ == vstd::utf8::encode_utf8(s@),
            0 <= i <= n,
            r@ == bytes@.take(i as int).map_values(|b: u8| b as c_char),
        decreases n - i,
    {
        r.push(bytes[i] as c_char);
        assert(bytes@.take(i + 1).map_values(|b: u8| b as c_char) =~= bytes@.take(
            i as int,
        ).map_values(|b: u8| b as c_char).push(bytes@[i as int] as c_char));
        i = i + 1;
    }
    assert(bytes@.take(n as int) =~= bytes@);
    r.push(0);
    r
}

/// `k` is how many characters a copy of the C string `src` into a buffer
/// of `dsize` bytes keeps: the whole string, or `dsize - 1` characters of
/// it when it does not fit.
pub open spec fn copied_len(src: Seq<c_char>, dsize: int) -> int {
    kept_len(c_strlen(src), dsize)
}

/// What a copy of `source` as a C string into a buffer that holds
/// `charsmax` characters and a NUL gives: the buffer `before` becomes
/// `after` and `r` is returned. With a negative `charsmax` nothing is copied
/// and the error says so; otherwise the copy is truncated to `charsmax`
/// characters, NUL-terminated, the rest of the buffer is untouched, and the
/// length of the C string of `source` (its UTF-8 bytes up to the first NUL)
/// is returned.
pub open spec fn copy_outcome(
    r: Result<isize, Error>,
    before: Seq<c_char>,
    after: Seq<c_char>,
    source: Seq<char>,
    charsmax: isize,
) -> bool {
    &&& after.len() == before.len()
    &&& charsmax < 0 ==> after == before && fails_with(r, negative_size_message(charsmax as int))
    &&& charsmax >= 0 ==> {
        let src = c_string_of(source);
        let k = copied_len(src, charsmax + 1);
        &&& r == Ok::<isize, Error>(c_strlen(src) as isize)
        &&& after.subrange(0, k) == src.subrange(0, k)
        &&& after[k] == 0
        &&& after.subrange(k + 1, after.len() as int) == before.subrange(
            k + 1,
            before.len() as int,
        )
    }
}

/// Copies `source` as a C string into `dest`, a buffer that the host says
/// holds `charsmax` characters and a NUL; see `copy_outcome`.
pub fn copy_unsafe_string(dest: &mut [c_char], source: &str, charsmax: isize) -> (r: Result<
    isize,
    Error,
>)
    requires
        charsmax >= 0 ==> copied_len(c_string_of(source@), charsmax + 1) < old(dest)@.len(),
    ensures
        copy_outcome(r, old(dest)@, final(dest)@, source@, charsmax),
{
    let size = match try_as_usize(charsmax) {
        Ok(size) => size,
        Err(e) => {
            return Err(e);
        },
    };
    let src = to_c_string(source);
    proof {
        let b = vstd::utf8::encode_utf8(source@);
        assert(src@[b.len() as int] == 0);
        lemma_nul_gives_c_string(src@, b.len() as int);
        lemma_c_strlen(src@);
    }
    let n = strlcpy(dest, src.as_slice(), size + 1);
    Ok(n as isize)
}

/// What `Utf8Error`'s `Display` writes for bytes that are not UTF-8.
pub uninterp spec fn utf8_error_text(bytes: Seq<u8>) -> Seq<char>;

/// Calls `std::str::from_utf8`: the text that the bytes encode when they
/// are UTF-8, and otherwise the `Display` text of the `Utf8Error`.
#[verifier::external_body]
pub(crate) fn utf8_decode(bytes: &[u8]) -> (r: Result<&str, String>)
    ensures
        r is Ok == vstd::utf8::valid_utf8(bytes@),
        r matches Ok(s) ==> s@ == vstd::utf8::decode_utf8(bytes@),
        r matches Err(t) ==> t@ == utf8_error_text(bytes@),
{
    match std::str::from_utf8(bytes) {
        Ok(s) => Ok(s),
        Err(e) => Err(e.to_string()),
    }
}

/// The message of the error for a C string that is not UTF-8.
pub open spec fn not_utf8_message() -> Seq<char> {
    "Can't create string from raw pointer."@
}

/// `e` is the error for the C string `bytes` that is not UTF-8: a plain
/// message caused by the decoder's complaint.
pub open spec fn is_utf8_error(e: Error, bytes: Seq<u8>) -> bool {
    &&& e.kind matches ErrorKind::Msg(m) && m@ == not_utf8_message()
    &&& e.causes@.map_values(|c: String| c@) == seq![utf8_error_text(bytes)]
}

/// `e` is an `FFIError` with message `msg`, caused by the C string `bytes`
/// not being UTF-8.
pub open spec fn is_ffi_utf8_error(e: Error, msg: Seq<char>, bytes: Seq<u8>) -> bool {
    &&& e.kind matches ErrorKind::FFIError(m) && m@ == msg
    &&& e.causes@.map_values(|c: String| c@) == seq![not_utf8_message(), utf8_error_text(bytes)]
}

/// The text of the C string whose bytes (without the NUL) are `bytes`.
/// Bytes that are not UTF-8 give the error `is_utf8_error` describes.
pub fn str_from_ptr(bytes: &[u8]) -> (r: Result<&str, Error>)
    ensures
        vstd::utf8::valid_utf8(bytes@) ==> (r matches Ok(s) && s@ == vstd::utf8::decode_utf8(bytes@)),
        !vstd::utf8::valid_utf8(bytes@) ==> (r matches Err(e) && is_utf8_error(e, bytes@)),
{
    match utf8_decode(bytes) {
        Ok(s) => Ok(s),
        Err(t) => {
            let causes = vec![t];
            let e = Error {
                kind: ErrorKind::Msg(String::from_str("Can't create string from raw pointer.")),
                causes,
            };
            proof {
                reveal_strlit("Can't create string from raw pointer.");
                assert(e.causes@.map_values(|c: String| c@) =~= seq![utf8_error_text(bytes@)]);
            }
            Err(e)
        },
    }
}

/// The text of the C string `bytes`, or, when it is not UTF-8, an
/// `FFIError` with message `msg` caused by the error of `str_from_ptr`.
pub fn str_from_ptr_or<'a>(bytes: &'a [u8], msg: &str) -> (r: Result<&'a str, Error>)
    ensures
        vstd::utf8::valid_utf8(bytes@) ==> (r matches Ok(s) && s@ == vstd::utf8::decode_utf8(bytes@)),
        !vstd::utf8::valid_utf8(bytes@) ==> (r matches Err(e) && is_ffi_utf8_error(e, msg@, bytes@)),
{
    match str_from_ptr(bytes) {
        Ok(s) => Ok(s),
        Err(e) => {
            let ghost c0 = e.causes@.map_values(|c: String| c@);
            let e2 = e.chain(ErrorKind::FFIError(String::from_str(msg)));
            proof {
                reveal_strlit("Can't create string from raw pointer.");
                assert(seq![not_utf8_message()] + c0 =~= seq![not_utf8_message(), utf8_error_text(bytes@)]);
            }
            Err(e2)
        },
    }
}

/// An `FFIError` whose message is `prefix`, the decimal `n` and `suffix`.
pub fn ffi_error_with_number(prefix: &str, n: isize, suffix: &str) -> (e: Error)
    ensures
        crate::errors::is_ffi_error(e, prefix@ + decimal(n as int) + suffix@),
{
    let mut m = String::from_str(prefix);
    push_decimal(&mut m, n);
    m.append(suffix);
    Error::from_kind(ErrorKind::FFIError(m))
}

/// An `FFIError` whose message is `prefix` and the decimal `n`.
pub fn ffi_error_ending_in_number(prefix: &str, n: isize) -> (e: Error)
    ensures
        crate::errors::is_ffi_error(e, prefix@ + decimal(n as int)),
{
    let mut m = String::from_str(prefix);
    push_decimal(&mut m, n);
    Error::from_kind(ErrorKind::FFIError(m))
}

/// An `FFIError` whose message is `msg`.
pub fn ffi_error_str(msg: &str) -> (e: Error)
    ensures
        crate::errors::is_ffi_error(e, msg@),
{
    Error::from_kind(ErrorKind::FFIError(String::from_str(msg)))
}

/// `e` is an `FFIError` with message `msg`, caused directly by the decoder's
/// complaint about the bytes `bytes`.
pub open spec fn is_ffi_decode_error(e: Error, msg: Seq<char>, bytes: Seq<u8>) -> bool {
    &&& e.kind matches ErrorKind::FFIError(m) && m@ == msg
    &&& e.causes@.map_values(|c: String| c@) == seq![utf8_error_text(bytes)]
}

/// The text of the C string `bytes`, or, when it is not UTF-8, an
/// `FFIError` with message `msg` caused by the decoder's complaint.
pub fn str_from_bytes_or<'a>(bytes: &'a [u8], msg: &str) -> (r: Result<&'a str, Error>)
    ensures
        vstd::utf8::valid_utf8(bytes@) ==> (r matches Ok(s) && s@ == vstd::utf8::decode_utf8(bytes@)),
        !vstd::utf8::valid_utf8(bytes@) ==> (r matches Err(e) && is_ffi_decode_error(e, msg@, bytes@)),
{
    match utf8_decode(bytes) {
        Ok(s) => Ok(s),
        Err(t) => {
            let e = Error { kind: ErrorKind::FFIError(String::from_str(msg)), causes: vec![t] };
            assert(e.causes@.map_values(|c: String| c@) =~= seq![utf8_error_text(bytes@)]);
            Err(e)
        },
    }
}

/// The serialised JSON text `text`, with a NUL character after it when
/// `null_byte` is set.
pub fn serialize_to_string(text: &str, null_byte: bool) -> (r: String)
    ensures
        r@ == if null_byte {
            text@.push('\0')
        } else {
            text@
        },
{
    let mut r = String::from_str(text);
    if null_byte {
        crate::gc_json::push_char(&mut r, '\0');
    }
    r
}

/// The size in bytes of the text `text`, with a NUL after it when
/// `null_byte` is set.
pub open spec fn serial_len(text: Seq<char>, null_byte: bool) -> int {
    vstd::utf8::encode_utf8(text).len() + if null_byte {
        1int
    } else {
        0int
    }
}

/// The size in bytes of the serialised JSON text `text`, with a NUL after
/// it when `null_byte` is set, as a cell.
pub fn serial_size(text: &str, null_byte: bool) -> (r: isize)
    requires
        vstd::utf8::encode_utf8(text@).len() < isize::MAX,
    ensures
        r == serial_len(text@, null_byte),
{
    let n = text.as_bytes().len();
    if null_byte {
        (n + 1) as isize
    } else {
        n as isize
    }
}

/// For a text whose UTF-8 bytes hold no NUL (as serialised JSON, which
/// writes a NUL character as an escape): its size with the NUL counted is
/// one more than without, and a copy of it into a buffer returns its size
/// without the NUL, however short the buffer is.
pub proof fn law_serial_size_matches_copy(
    text: Seq<char>,
    before: Seq<c_char>,
    after: Seq<c_char>,
    r: Result<isize, Error>,
    charsmax: isize,
)
    requires
        forall|i: int|
            0 <= i < vstd::utf8::encode_utf8(text).len() ==> #[trigger] vstd::utf8::encode_utf8(
                text,
            )[i] != 0,
        vstd::utf8::encode_utf8(text).len() < isize::MAX,
        charsmax >= 0,
        copy_outcome(r, before, after, text, charsmax),
    ensures
        serial_len(text, true) == serial_len(text, false) + 1,
        r == Ok::<isize, Error>(serial_len(text, false) as isize),
{
    let bytes = vstd::utf8::encode_utf8(text);
    let src = c_string_of(text);
    assert forall|j: int| 0 <= j < bytes.len() implies src[j] != 0 by {
        assert(src[j] == bytes[j] as c_char);
        let b = bytes[j];
        assert(b != 0 ==> b as c_char != 0) by (bit_vector);
    }
    assert(crate::ffi::strlcpy::strlen_is(src, bytes.len() as int));
    crate::ffi::strlcpy::lemma_c_strlen(src);
}

} // verus!
