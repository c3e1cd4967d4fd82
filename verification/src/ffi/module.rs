//! The state that the scripting host's calls share, and the logic of the
//! calls that deal with request bodies, request options, requests and their
//! responses.

use crate::cell_map::CellMap;
use crate::errors::{display_chain, fails_with, is_ffi_error, Error, ErrorKind};
use crate::ffi::ext::{
    copy_outcome, copy_unsafe_string, decimal, ffi_error_ending_in_number, ffi_error_str,
    ffi_error_with_number,
};
use crate::ffi::ext::{is_ffi_decode_error, str_from_bytes_or};
use crate::ffi::json::JsonStore;
use crate::gc_json::tree_wf;
use crate::json_text::{json_parse_bytes_outcome, json_parse_outcome, parse_json_bytes, parse_json_text};
use crate::ffi::Cell;
use libc::c_char;
use reqwest::header::HeaderMap;
use vstd::prelude::*;
use vstd::string::StringExecFns;

verus! {

#[verifier::external_type_specification]
#[verifier::external_body]
pub struct ExUri(hyper::Uri);

/// What the URI parser of `http` says of the text `s`: `None` when it is a
/// URI, and otherwise the `Display` text of the `InvalidUri` error.
pub uninterp spec fn uri_parse_failure(s: Seq<char>) -> Option<Seq<char>>;

/// The URI that the URI parser of `http` makes of the text `s`, where it
/// makes one: a function of the text alone.
pub uninterp spec fn parsed_uri(s: Seq<char>) -> hyper::Uri;

/// Calls `<hyper::Uri as FromStr>::from_str`: the URI that `s` spells, or
/// the `Display` text of the error when it spells none. The contract claims
/// that both depend on the text alone (named `parsed_uri` and
/// `uri_parse_failure`); what they are on a given text is left to `http`.
#[verifier::external_body]
fn parse_uri(s: &str) -> (r: Result<hyper::Uri, String>)
    ensures
        r is Ok <==> uri_parse_failure(s@) is None,
        r matches Ok(u) ==> u == parsed_uri(s@),
        r matches Err(t) ==> uri_parse_failure(s@) == Some(t@),
{
    match s.parse::<hyper::Uri>() {
        Ok(u) => Ok(u),
        Err(e) => Err(e.to_string()),
    }
}

/// The HTTP method of a request.
#[derive(Clone, Copy, Debug, PartialEq, Eq, Structural)]
pub enum RequestType {
    Get,
    Post,
    Put,
    Delete,
}

/// The request type that a script names by number: 0 GET, 1 POST, 2 PUT,
/// 3 DELETE.
pub open spec fn request_type_of(t: Cell) -> Option<RequestType> {
    if t == 0 {
        Some(RequestType::Get)
    } else if t == 1 {
        Some(RequestType::Post)
    } else if t == 2 {
        Some(RequestType::Put)
    } else if t == 3 {
        Some(RequestType::Delete)
    } else {
        None
    }
}

/// Scripts name the four request types by the numbers 0 to 3, in the order
/// GET, POST, PUT, DELETE, each type by one number; no other number names
/// a type.
pub proof fn law_request_type_numbers(t: Cell, u: Cell)
    ensures
        request_type_of(0) == Some(RequestType::Get),
        request_type_of(1) == Some(RequestType::Post),
        request_type_of(2) == Some(RequestType::Put),
        request_type_of(3) == Some(RequestType::Delete),
        (t < 0 || t > 3) ==> request_type_of(t) is None,
        (request_type_of(t) is Some && request_type_of(t) == request_type_of(u)) ==> t == u,
{
}

/// The request type that a script names by number, or an error for a
/// number that names none.
pub fn request_type_from_cell(t: Cell) -> (r: Result<RequestType, Error>)
    ensures
        match request_type_of(t) {
            Some(k) => r == Ok::<RequestType, Error>(k),
            None => fails_with(r, "Invalid request type "@ + decimal(t as int)),
        },
{
    if t == 0 {
        Ok(RequestType::Get)
    } else if t == 1 {
        Ok(RequestType::Post)
    } else if t == 2 {
        Ok(RequestType::Put)
    } else if t == 3 {
        Ok(RequestType::Delete)
    } else {
        Err(ffi_error_ending_in_number("Invalid request type ", t))
    }
}

#[verifier::external_type_specification]
#[verifier::external_body]
#[verifier::reject_recursive_types(T)]
pub struct ExHeaderMap<T>(HeaderMap<T>);

#[verifier::external_type_specification]
#[verifier::external_body]
pub struct ExHeaderValue(reqwest::header::HeaderValue);

/// What a header map of `http` holds: the value, as bytes, under each
/// header name, as the bytes that the map keeps for it.
pub uninterp spec fn header_entries(m: HeaderMap) -> Map<Seq<u8>, Seq<u8>>;

/// The byte that `http`'s table of header characters keeps for byte `b`
/// of a header name: the lower case letter for an upper case one, a header
/// name byte as it is, and 0 for any other byte.
pub open spec fn header_char(b: u8) -> u8 {
    if 65 <= b <= 90 {
        (b + 32) as u8
    } else if header_name_byte(b) {
        b
    } else {
        0
    }
}

/// The name under which a header map of `http` keeps a header inserted
/// under the name with the bytes `name`.
pub open spec fn header_key(name: Seq<u8>) -> Seq<u8> {
    name.map_values(|b: u8| header_char(b))
}

/// Calls `HeaderMap::new` of `http` (through reqwest): an empty map.
#[verifier::external_body]
fn header_map_new() -> (r: HeaderMap)
    ensures
        header_entries(r).dom() == Set::<Seq<u8>>::empty(),
{
    HeaderMap::new()
}

/// Calls `HeaderMap::clone` of `http`: a map with the same entries.
#[verifier::external_body]
fn header_map_clone(m: &HeaderMap) -> (r: HeaderMap)
    ensures
        header_entries(r) == header_entries(*m),
{
    m.clone()
}

/// Calls `HeaderMap::insert` of `http` with the name as a `&'static str`
/// (it is made to live as long as the program, as that form of insertion
/// needs) and the value as a `HeaderValue` made by `HeaderValue::from_str`.
/// The value's bytes then stand under the key that `http`'s table makes of
/// the name, in place of whatever stood there; no other entry changes.
/// Names on which that insertion panics (`header_name_panics`) and values
/// that `from_str` refuses are left out by `requires`.
#[verifier::external_body]
fn header_map_insert(m: &mut HeaderMap, name: &str, value: &str)
    requires
        !header_name_panics(vstd::utf8::encode_utf8(name@)),
        forall|i: int|
            0 <= i < vstd::utf8::encode_utf8(value@).len() ==> #[trigger] header_value_byte(
                vstd::utf8::encode_utf8(value@)[i],
            ),
    ensures
        header_entries(*final(m)) == header_entries(*old(m)).insert(
            header_key(vstd::utf8::encode_utf8(name@)),
            vstd::utf8::encode_utf8(value@),
        ),
{
    let name: &'static str = Box::leak(name.to_owned().into_boxed_str());
    m.insert(name, reqwest::header::HeaderValue::from_str(value).unwrap());
}

/// Options of a request: the headers a script added, in `http`'s header
/// map (a header replaces an earlier one of the same name), and the
/// timeout in milliseconds, if any.
#[derive(Debug)]
pub struct RequestOptions {
    pub headers: HeaderMap,
    pub timeout_millis: Option<u64>,
}

impl RequestOptions {
    /// The headers, by name as the map keeps it, as bytes.
    pub open spec fn header_map(&self) -> Map<Seq<u8>, Seq<u8>> {
        header_entries(self.headers)
    }

    /// Options with no header and the given timeout.
    pub fn new(timeout_millis: Option<u64>) -> (r: RequestOptions)
        ensures
            r.header_map() == Map::<Seq<u8>, Seq<u8>>::empty(),
            r.timeout_millis == timeout_millis,
    {
        let r = RequestOptions { headers: header_map_new(), timeout_millis };
        assert(r.header_map() =~= Map::<Seq<u8>, Seq<u8>>::empty());
        r
    }

    /// A copy of these options.
    pub fn duplicate(&self) -> (r: RequestOptions)
        ensures
            r.header_map() == self.header_map(),
            r.timeout_millis == self.timeout_millis,
    {
        RequestOptions { headers: header_map_clone(&self.headers), timeout_millis: self.timeout_millis }
    }
}

impl Default for RequestOptions {
    /// Options with no header and no timeout.
    fn default() -> (r: RequestOptions)
        ensures
            r.header_map() == Map::<Seq<u8>, Seq<u8>>::empty(),
            r.timeout_millis == None::<u64>,
    {
        RequestOptions::new(None)
    }
}

/// A response that arrived: its status code and its body.
#[derive(Debug)]
pub struct Response {
    pub status_code: u16,
    pub body: Vec<u8>,
}

/// A request that passed every check and can be sent.
#[derive(Debug)]
pub struct PreparedRequest {
    pub request_type: RequestType,
    pub uri: hyper::Uri,
    pub body: Vec<u8>,
    pub options: RequestOptions,
}

/// Everything the host's calls share: the JSON values, the request bodies,
/// the pending requests (each by the token that cancels it, `C`), the
/// request options, the response being handled, and the queue settings.
pub struct Module<C> {
    pub json: JsonStore,
    pub bodies: CellMap<Vec<u8>>,
    pub cancellations: CellMap<C>,
    pub options: CellMap<RequestOptions>,
    pub current_response: Option<Result<Response, Error>>,
    pub callbacks_per_frame: usize,
    pub microseconds_delay_between_attempts: usize,
}

/// What a parse gave: the content of the tree, or the parser's message.
pub open spec fn parse_outcome_of(parsed: Result<crate::gc_json::JsonTree, String>) -> Result<
    crate::gc_json::TreeView,
    Seq<char>,
> {
    match parsed {
        Ok(t) => Ok(t.tree_view()),
        Err(e) => Err(e@),
    }
}

/// `new` (with the buffer `new_dest`) is `old` (with `old_dest`) after
/// the outcome of a parse was stored: a tree becomes a new value under a
/// fresh handle, greater than 1, which `r` returns; a failure is described
/// in the buffer of `size` characters and a NUL, and `r` is 0.
pub open spec fn stored_parse<C>(
    old: Module<C>,
    new: Module<C>,
    old_dest: Seq<c_char>,
    new_dest: Seq<c_char>,
    outcome: Result<crate::gc_json::TreeView, Seq<char>>,
    size: Cell,
    r: Result<Cell, Error>,
) -> bool {
    &&& new.json.wf()
    &&& new.bodies == old.bodies
    &&& new.cancellations == old.cancellations
    &&& new.options == old.options
    &&& new.current_response == old.current_response
    &&& match outcome {
        Ok(t) => {
            let h = old.json.next_handle();
            &&& r == Ok::<Cell, Error>(h)
            &&& h > 1
            &&& !old.json.handles().contains_key(h)
            &&& new_dest == old_dest
            &&& new.json.next_handle() == h + 1
            &&& new.json.handles() == old.json.handles().insert(h, new.json.cell(h))
            &&& old.json.heap().len() <= new.json.cell(h)
            &&& new.json.heap().take(old.json.heap().len() as int) == old.json.heap()
            &&& crate::gc_json::tree_wf(t) ==> crate::gc_json::holds_tree(
                new.json.heap(),
                new.json.cell(h),
                t,
                old.json.heap().len() as int,
            )
        },
        Err(text) => {
            let msg = "Error: "@ + text + "\n"@;
            &&& new.json == old.json
            &&& size < 0 ==> new_dest == old_dest && fails_with(
                r,
                crate::ffi::ext::negative_size_message(size as int),
            )
            &&& size >= 0 ==> r == Ok::<Cell, Error>(0) && copy_outcome(
                Ok::<isize, Error>(
                    crate::ffi::strlcpy::c_strlen(crate::ffi::ext::c_string_of(msg)) as isize,
                ),
                old_dest,
                new_dest,
                msg,
                size,
            )
        },
    }
}

impl<C> Module<C> {
    /// Each table is well-formed.
    pub open spec fn wf(&self) -> bool {
        &&& self.json.wf()
        &&& self.bodies.wf()
        &&& self.cancellations.wf()
        &&& self.options.wf()
    }

    /// A module with empty tables, no response being handled, and the given
    /// queue settings.
    pub fn new(callbacks_per_frame: usize, microseconds_delay_between_attempts: usize) -> (m: Module<C>)
        ensures
            m.wf(),
            m.json.heap() == Seq::<crate::gc_json::JsonNode>::empty(),
            m.json.handles() == Map::<isize, usize>::empty(),
            m.bodies.view() == Map::<isize, Vec<u8>>::empty(),
            m.cancellations.view() == Map::<isize, C>::empty(),
            m.options.view() == Map::<isize, RequestOptions>::empty(),
            m.current_response is None,
            m.callbacks_per_frame == callbacks_per_frame,
            m.microseconds_delay_between_attempts == microseconds_delay_between_attempts,
    {
        Module {
            json: JsonStore::new(),
            bodies: CellMap::new(),
            cancellations: CellMap::new(),
            options: CellMap::new(),
            current_response: None,
            callbacks_per_frame,
            microseconds_delay_between_attempts,
        }
    }

    /// Destroys the body of handle `body`.
    pub fn destroy_body(&mut self, body: Cell) -> (r: Result<Cell, Error>)
        requires
            old(self).bodies.wf(),
        ensures
            final(self).bodies.wf(),
            final(self).bodies.next_id() == old(self).bodies.next_id(),
            final(self).bodies.view() == old(self).bodies.view().remove(body),
            final(self).json == old(self).json,
            final(self).cancellations == old(self).cancellations,
            final(self).options == old(self).options,
            final(self).current_response == old(self).current_response,
            old(self).bodies.view().contains_key(body) ==> r == Ok::<Cell, Error>(1),
            !old(self).bodies.view().contains_key(body) ==> fails_with(
                r,
                "Invalid body handle "@ + decimal(body as int),
            ),
    {
        match self.bodies.remove_with_id(body) {
            Some(_) => Ok(1),
            None => Err(ffi_error_ending_in_number("Invalid body handle ", body)),
        }
    }

    /// A new body handle to the bytes of a C string; `None` stands for a null
    /// pointer.
    pub fn body_from_string(&mut self, bytes: Option<&[u8]>) -> (r: Result<Cell, Error>)
        requires
            old(self).bodies.wf(),
            old(self).bodies.next_id() < isize::MAX,
        ensures
            final(self).bodies.wf(),
            final(self).json == old(self).json,
            final(self).cancellations == old(self).cancellations,
            final(self).options == old(self).options,
            final(self).current_response == old(self).current_response,
            bytes is None ==> fails_with(r, "Invalid URI."@) && final(self).bodies == old(self).bodies,
            bytes matches Some(b) ==> r == Ok::<Cell, Error>(old(self).bodies.next_id())
                && old(self).bodies.next_id() > 1
                && !old(self).bodies.view().contains_key(old(self).bodies.next_id())
                && final(self).bodies.next_id() == old(self).bodies.next_id() + 1
                && final(self).bodies.view().dom() == old(self).bodies.view().dom().insert(
                old(self).bodies.next_id(),
            ) && final(self).bodies.view()[old(self).bodies.next_id()]@ == b@ && forall|k: isize|
                k != old(self).bodies.next_id() && #[trigger] old(self).bodies.view().contains_key(k)
                    ==> final(self).bodies.view()[k] == old(self).bodies.view()[k],
    {
        match bytes {
            None => Err(ffi_error_str("Invalid URI.")),
            Some(b) => {
                let v = vstd::slice::slice_to_vec(b);
                Ok(self.bodies.insert_with_unique_id(v))
            },
        }
    }

    /// The body that handle `body` names for a request: the stored bytes,
    /// or no bytes for `-1`; `None` for any other unknown handle.
    pub open spec fn body_for(&self, body: Cell) -> Option<Seq<u8>> {
        if self.bodies.view().contains_key(body) {
            Some(self.bodies.view()[body]@)
        } else if body == -1 {
            Some(Seq::empty())
        } else {
            None
        }
    }

    /// The options that handle `options` names for a request, as their
    /// headers and timeout: the stored options, or the default ones (no
    /// header, no timeout) for `-1`; `None` for any other unknown handle.
    pub open spec fn options_for(&self, options: Cell) -> Option<(Map<Seq<u8>, Seq<u8>>, Option<u64>)> {
        if self.options.view().contains_key(options) {
            Some((self.options.view()[options].header_map(), self.options.view()[options].timeout_millis))
        } else if options == -1 {
            Some((Map::empty(), None))
        } else {
            None
        }
    }

    /// The first check that a request fails, by its message: the request
    /// type, the URI (given, and UTF-8), the body handle, the options
    /// handle; `None` when it passes them all.
    pub open spec fn request_check(&self, request_type: Cell, uri: Option<Seq<u8>>, body: Cell, options: Cell) -> Option<Seq<char>> {
        if request_type_of(request_type) is None {
            Some("Invalid request type "@ + decimal(request_type as int))
        } else if uri is None {
            Some("Invalid URI."@)
        } else if !vstd::utf8::valid_utf8(uri->0) {
            Some("URI is not UTF-8"@)
        } else if self.body_for(body) is None {
            Some("Invalid body handle: "@ + decimal(body as int))
        } else if self.options_for(options) is None {
            Some("Invalid options handle: "@ + decimal(options as int))
        } else {
            None
        }
    }

    /// Checks a request that a script asks for and gathers what sending it
    /// takes: its type, its URI (parsed from the C string `uri`; `None`
    /// stands for a null pointer), a copy of its body and a copy of its
    /// options.
    pub fn prepare_request(&self, request_type: Cell, uri: Option<&[u8]>, body: Cell, options: Cell) -> (r:
        Result<PreparedRequest, Error>)
        requires
            self.wf(),
        ensures
            self.request_check(request_type, match uri {
                Some(u) => Some(u@),
                None => None,
            }, body, options) matches Some(m) ==> fails_with(r, m),
            self.request_check(request_type, match uri {
                Some(u) => Some(u@),
                None => None,
            }, body, options) is None ==> {
                let text = vstd::utf8::decode_utf8(uri->0@);
                match uri_parse_failure(text) {
                    Some(t) => r matches Err(e) && (e.kind matches ErrorKind::FFIError(m) && m@
                        == "URI parsing error: "@ + text) && e.causes@.map_values(|c: String| c@)
                        == seq![t],
                    None => r matches Ok(p) && Some(p.request_type) == request_type_of(request_type)
                        && p.uri == parsed_uri(text) && Some(p.body@) == self.body_for(body) && Some(
                        (p.options.header_map(), p.options.timeout_millis),
                    ) == self.options_for(options),
                }
            },
    {
        proof {
            reveal_strlit("Invalid URI.");
            reveal_strlit("URI is not UTF-8");
        }
        let kind = match request_type_from_cell(request_type) {
            Ok(k) => k,
            Err(e) => {
                return Err(e);
            },
        };
        let bytes = match uri {
            Some(b) => b,
            None => {
                return Err(ffi_error_str("Invalid URI."));
            },
        };
        let text = match crate::ffi::ext::str_from_ptr(bytes) {
            Ok(s) => s,
            Err(_) => {
                return Err(ffi_error_str("URI is not UTF-8"));
            },
        };
        let body_bytes: Vec<u8> = match self.bodies.get_with_id(body) {
            Some(b) => vstd::slice::slice_to_vec(b.as_slice()),
            None => {
                if body == -1 {
                    Vec::new()
                } else {
                    return Err(ffi_error_ending_in_number("Invalid body handle: ", body));
                }
            },
        };
        let opts: RequestOptions = match self.options.get_with_id(options) {
            Some(o) => o.duplicate(),
            None => {
                if options == -1 {
                    RequestOptions::default()
                } else {
                    return Err(ffi_error_ending_in_number("Invalid options handle: ", options));
                }
            },
        };
        match parse_uri(text) {
            Ok(u) => Ok(PreparedRequest { request_type: kind, uri: u, body: body_bytes, options: opts }),
            Err(t) => {
                let mut m = String::from_str("URI parsing error: ");
                m.append(text);
                let e = Error { kind: ErrorKind::FFIError(m), causes: vec![t] };
                proof {
                    assert(e.causes@.map_values(|c: String| c@) =~= seq![uri_parse_failure(text@)->0]);
                }
                Err(e)
            },
        }
    }

    /// The handle that the next request will get.
    pub fn next_request_handle(&self) -> (h: Cell)
        ensures
            h == self.cancellations.next_id(),
    {
        self.cancellations.peek_id()
    }

    /// Records a request that was sent, by the token that cancels it, and
    /// returns its handle: a handle greater than 1 that no request had.
    pub fn register_request(&mut self, cancellation: C) -> (h: Cell)
        requires
            old(self).cancellations.wf(),
            old(self).cancellations.next_id() < isize::MAX,
        ensures
            final(self).cancellations.wf(),
            h == old(self).cancellations.next_id(),
            h > 1,
            !old(self).cancellations.view().contains_key(h),
            final(self).cancellations.view() == old(self).cancellations.view().insert(h, cancellation),
            final(self).cancellations.next_id() == h + 1,
            final(self).json == old(self).json,
            final(self).bodies == old(self).bodies,
            final(self).options == old(self).options,
            final(self).current_response == old(self).current_response,
    {
        self.cancellations.insert_with_unique_id(cancellation)
    }

    /// Cancels the request of handle `request`: its token is dropped.
    pub fn cancel_request(&mut self, request: Cell) -> (r: Result<Cell, Error>)
        requires
            old(self).cancellations.wf(),
        ensures
            final(self).cancellations.wf(),
            final(self).cancellations.view() == old(self).cancellations.view().remove(request),
            final(self).cancellations.next_id() == old(self).cancellations.next_id(),
            final(self).json == old(self).json,
            final(self).bodies == old(self).bodies,
            final(self).options == old(self).options,
            final(self).current_response == old(self).current_response,
            old(self).cancellations.view().contains_key(request) ==> r == Ok::<Cell, Error>(1),
            !old(self).cancellations.view().contains_key(request) ==> fails_with(
                r,
                "Cancellation with the id "@ + decimal(request as int) + " doesn't exist."@,
            ),
    {
        match self.cancellations.remove_with_id(request) {
            Some(_) => Ok(1),
            None => Err(ffi_error_with_number("Cancellation with the id ", request, " doesn't exist.")),
        }
    }

    /// Whether the request of handle `request` is still pending: 1 for yes,
    /// 0 for no.
    pub fn is_request_active(&self, request: Cell) -> (r: Cell)
        requires
            self.cancellations.wf(),
        ensures
            r == if self.cancellations.view().contains_key(request) {
                1isize
            } else {
                0isize
            },
    {
        if self.cancellations.get_with_id(request).is_some() {
            1
        } else {
            0
        }
    }

    /// The response to a request arrived (or failed): it is the one being
    /// handled while the script's callback runs.
    pub fn begin_response(&mut self, response: Result<Response, Error>)
        ensures
            final(self).current_response == Some(response),
            final(self).json == old(self).json,
            final(self).bodies == old(self).bodies,
            final(self).cancellations == old(self).cancellations,
            final(self).options == old(self).options,
    {
        self.current_response = Some(response);
    }

    /// The script's callback for request `request` returned: the request is
    /// no longer pending, and no response is being handled.
    pub fn end_response(&mut self, request: Cell)
        requires
            old(self).cancellations.wf(),
        ensures
            final(self).current_response is None,
            final(self).cancellations.wf(),
            final(self).cancellations.view() == old(self).cancellations.view().remove(request),
            final(self).cancellations.next_id() == old(self).cancellations.next_id(),
            final(self).json == old(self).json,
            final(self).bodies == old(self).bodies,
            final(self).options == old(self).options,
    {
        let _ = self.cancellations.remove_with_id(request);
        self.current_response = None;
    }

    /// How the request whose callback is running ended: 1 cancelled, 2
    /// failed, 3 answered, 4 timed out.
    pub fn response_state(&self) -> (r: Result<Cell, Error>)
        ensures
            match self.current_response {
                None => fails_with(r, "Response state can only be received in the request callback"@),
                Some(Err(e)) => r == Ok::<Cell, Error>(
                    match e.kind {
                        ErrorKind::RequestCancelled => 1isize,
                        ErrorKind::RequestTimeout => 4isize,
                        _ => 2isize,
                    },
                ),
                Some(Ok(_)) => r == Ok::<Cell, Error>(3),
            },
    {
        proof {
            reveal_strlit("Response state can only be received in the request callback");
        }
        match &self.current_response {
            None => Err(ffi_error_str("Response state can only be received in the request callback")),
            Some(Err(e)) => match e.kind {
                ErrorKind::RequestCancelled => Ok(1),
                ErrorKind::RequestTimeout => Ok(4),
                _ => Ok(2),
            },
            Some(Ok(_)) => Ok(3),
        }
    }

    /// Copies the description of the failure of the request whose callback
    /// is running into `dest`, a buffer of `size` characters and a NUL. A
    /// cancelled request has no description: that is an error of its own.
    pub fn error_description(&self, dest: &mut [c_char], size: Cell) -> (r: Result<Cell, Error>)
        requires
            size >= 0 ==> size < old(dest)@.len(),
        ensures
            match self.current_response {
                None => fails_with(r, "No active response at this time"@) && final(dest)@ == old(dest)@,
                Some(Err(e)) => if e.kind is RequestCancelled {
                    final(dest)@ == old(dest)@ && (r matches Err(c) && c.kind is RequestCancelled
                        && c.causes@.len() == 0)
                } else {
                    copy_outcome(r, old(dest)@, final(dest)@, display_chain(e), size)
                },
                Some(Ok(_)) => fails_with(r, "No error for this response."@) && final(dest)@ == old(
                    dest,
                )@,
            },
    {
        proof {
            reveal_strlit("No active response at this time");
            reveal_strlit("No error for this response.");
        }
        match &self.current_response {
            None => Err(ffi_error_str("No active response at this time")),
            Some(Err(e)) => match e.kind {
                ErrorKind::RequestCancelled => Err(Error::from_kind(ErrorKind::RequestCancelled)),
                _ => {
                    let text = e.display_chain();
                    copy_unsafe_string(dest, text.as_str(), size)
                },
            },
            Some(Ok(_)) => Err(ffi_error_str("No error for this response.")),
        }
    }

    /// The response that arrived for the request whose callback is running.
    pub fn response(&self) -> (r: Result<&Response, Error>)
        ensures
            match self.current_response {
                None => fails_with(r, "No active response at this time"@),
                Some(Err(_)) => fails_with(r, "Error/Cancellation/Timeout occurred for this response."@),
                Some(Ok(resp)) => r == Ok::<&Response, Error>(&resp),
            },
    {
        proof {
            reveal_strlit("No active response at this time");
            reveal_strlit("Error/Cancellation/Timeout occurred for this response.");
        }
        match &self.current_response {
            None => Err(ffi_error_str("No active response at this time")),
            Some(Err(_)) => Err(ffi_error_str("Error/Cancellation/Timeout occurred for this response.")),
            Some(Ok(resp)) => Ok(resp),
        }
    }

    /// Copies the body of the response whose callback is running, as text,
    /// into `dest`, a buffer of `size` characters and a NUL.
    pub fn response_body_string(&self, dest: &mut [c_char], size: Cell) -> (r: Result<Cell, Error>)
        requires
            size >= 0 ==> size < old(dest)@.len(),
        ensures
            match self.current_response {
                None => fails_with(r, "No active response at this time"@) && final(dest)@ == old(dest)@,
                Some(Err(_)) => fails_with(r, "Error/Cancellation/Timeout occurred for this response."@)
                    && final(dest)@ == old(dest)@,
                Some(Ok(resp)) => if vstd::utf8::valid_utf8(resp.body@) {
                    copy_outcome(
                        r,
                        old(dest)@,
                        final(dest)@,
                        vstd::utf8::decode_utf8(resp.body@),
                        size,
                    )
                } else {
                    final(dest)@ == old(dest)@ && (r matches Err(e) && (e.kind matches ErrorKind::FFIError(
                        m,
                    ) && m@ == "Unable to parse UTF-8"@) && e.causes@.map_values(|c: String| c@)
                        == seq![crate::ffi::ext::utf8_error_text(resp.body@)])
                },
            },
    {
        let resp = match self.response() {
            Ok(resp) => resp,
            Err(e) => {
                return Err(e);
            },
        };
        match crate::ffi::ext::utf8_decode(resp.body.as_slice()) {
            Ok(text) => copy_unsafe_string(dest, text, size),
            Err(t) => {
                let e = Error {
                    kind: ErrorKind::FFIError(String::from_str("Unable to parse UTF-8")),
                    causes: vec![t],
                };
                proof {
                    reveal_strlit("Unable to parse UTF-8");
                    assert(e.causes@.map_values(|c: String| c@) =~= seq![
                        crate::ffi::ext::utf8_error_text(resp.body@),
                    ]);
                }
                Err(e)
            },
        }
    }

    /// The status code of the response whose callback is running.
    pub fn response_status_code(&self) -> (r: Result<Cell, Error>)
        ensures
            match self.current_response {
                None => fails_with(r, "No active response at this time"@),
                Some(Err(_)) => fails_with(r, "Error/Cancellation/Timeout occurred for this response."@),
                Some(Ok(resp)) => r == Ok::<Cell, Error>(resp.status_code as isize),
            },
    {
        match self.response() {
            Ok(resp) => Ok(resp.status_code as isize),
            Err(e) => Err(e),
        }
    }

    /// Stores a parsed JSON text as a new value and returns its handle, or,
    /// when the text did not parse (`parsed` holds the parser's message),
    /// copies the description of that failure into `dest`, a buffer of
    /// `size` characters and a NUL, and returns 0.
    pub fn json_add_parsed(&mut self, parsed: Result<crate::gc_json::JsonTree, String>, dest: &mut [c_char], size: Cell) -> (r:
        Result<Cell, Error>)
        requires
            old(self).json.wf(),
            old(self).json.has_room(),
            size >= 0 ==> size < old(dest)@.len(),
        ensures
            stored_parse(*old(self), *final(self), old(dest)@, final(dest)@, parse_outcome_of(parsed), size, r),
    {
        match parsed {
            Ok(t) => Ok(self.json.json_add_tree(&t)),
            Err(text) => {
                let e = Error::from_kind(ErrorKind::JSONError(text));
                let chain = e.display_chain();
                proof {
                    assert(e.causes@.map_values(|c: String| c@) =~= Seq::<Seq<char>>::empty());
                    assert(crate::errors::causes_text(Seq::<Seq<char>>::empty()) =~= Seq::<char>::empty());
                    assert(display_chain(e) =~= "Error: "@ + text@ + "\n"@);
                }
                let c = copy_unsafe_string(dest, chain.as_str(), size);
                match c {
                    Ok(_) => Ok(0),
                    Err(e2) => Err(e2),
                }
            },
        }
    }

    /// Parses the body of the response whose callback is running as JSON
    /// and stores the result as `json_add_parsed` does: a new value and
    /// its handle, or 0 with the parser's complaint copied into `dest`, a
    /// buffer of `size` characters and a NUL.
    pub fn json_parse_response_body(&mut self, dest: &mut [c_char], size: Cell) -> (r: Result<Cell, Error>)
        requires
            old(self).json.wf(),
            old(self).json.has_room(),
            size >= 0 ==> size < old(dest)@.len(),
        ensures
            match old(self).current_response {
                None => fails_with(r, "No active response at this time"@) && *final(self) == *old(self)
                    && final(dest)@ == old(dest)@,
                Some(Err(_)) => fails_with(r, "Error/Cancellation/Timeout occurred for this response."@)
                    && *final(self) == *old(self) && final(dest)@ == old(dest)@,
                Some(Ok(resp)) => stored_parse(
                    *old(self),
                    *final(self),
                    old(dest)@,
                    final(dest)@,
                    json_parse_bytes_outcome(resp.body@),
                    size,
                    r,
                ) && (json_parse_bytes_outcome(resp.body@) matches Ok(t) ==> tree_wf(t)),
            },
    {
        let parsed = match self.response() {
            Ok(resp) => parse_json_bytes(resp.body.as_slice()),
            Err(e) => return Err(e),
        };
        self.json_add_parsed(parsed, dest, size)
    }

    /// Parses the C string `bytes` as JSON text and stores the result as
    /// `json_add_parsed` does. Bytes that are not UTF-8 are refused first,
    /// with nothing stored and nothing copied.
    pub fn json_parse_string(&mut self, bytes: &[u8], dest: &mut [c_char], size: Cell) -> (r: Result<Cell, Error>)
        requires
            old(self).json.wf(),
            old(self).json.has_room(),
            size >= 0 ==> size < old(dest)@.len(),
        ensures
            !vstd::utf8::valid_utf8(bytes@) ==> (r matches Err(e) && is_ffi_decode_error(
                e,
                "Invalid string. Can't create UTF-8 string"@,
                bytes@,
            )) && *final(self) == *old(self) && final(dest)@ == old(dest)@,
            vstd::utf8::valid_utf8(bytes@) ==> stored_parse(
                *old(self),
                *final(self),
                old(dest)@,
                final(dest)@,
                json_parse_outcome(vstd::utf8::decode_utf8(bytes@)),
                size,
                r,
            ),
            vstd::utf8::valid_utf8(bytes@) ==> (json_parse_outcome(vstd::utf8::decode_utf8(bytes@)) matches Ok(
                t,
            ) ==> tree_wf(t)),
    {
        let text = match str_from_bytes_or(bytes, "Invalid string. Can't create UTF-8 string") {
            Ok(t) => t,
            Err(e) => return Err(e),
        };
        let parsed = parse_json_text(text);
        self.json_add_parsed(parsed, dest, size)
    }

    /// Parses the contents of a JSON file, `bytes`, and stores the result
    /// as `json_add_parsed` does.
    pub fn json_parse_file_contents(&mut self, bytes: &[u8], dest: &mut [c_char], size: Cell) -> (r: Result<Cell, Error>)
        requires
            old(self).json.wf(),
            old(self).json.has_room(),
            size >= 0 ==> size < old(dest)@.len(),
        ensures
            stored_parse(
                *old(self),
                *final(self),
                old(dest)@,
                final(dest)@,
                json_parse_bytes_outcome(bytes@),
                size,
                r,
            ),
            json_parse_bytes_outcome(bytes@) matches Ok(t) ==> tree_wf(t),
    {
        let parsed = parse_json_bytes(bytes);
        self.json_add_parsed(parsed, dest, size)
    }

    /// New options with no header and the given timeout in milliseconds,
    /// and the handle to them.
    pub fn create_options(&mut self, timeout_millis: Option<u64>) -> (h: Cell)
        requires
            old(self).options.wf(),
            old(self).options.next_id() < isize::MAX,
        ensures
            final(self).options.wf(),
            h == old(self).options.next_id(),
            h > 1,
            !old(self).options.view().contains_key(h),
            final(self).options.next_id() == h + 1,
            final(self).options.view().dom() == old(self).options.view().dom().insert(h),
            final(self).options.view()[h].header_map() == Map::<Seq<u8>, Seq<u8>>::empty(),
            final(self).options.view()[h].timeout_millis == timeout_millis,
            forall|k: isize| k != h && #[trigger] old(self).options.view().contains_key(k)
                ==> final(self).options.view()[k] == old(self).options.view()[k],
            final(self).json == old(self).json,
            final(self).bodies == old(self).bodies,
            final(self).cancellations == old(self).cancellations,
            final(self).current_response == old(self).current_response,
    {
        self.options.insert_with_unique_id(RequestOptions::new(timeout_millis))
    }

    /// Destroys the options of handle `options`.
    pub fn destroy_options(&mut self, options: Cell) -> (r: Result<Cell, Error>)
        requires
            old(self).options.wf(),
        ensures
            final(self).options.wf(),
            final(self).options.next_id() == old(self).options.next_id(),
            final(self).options.view() == old(self).options.view().remove(options),
            final(self).json == old(self).json,
            final(self).bodies == old(self).bodies,
            final(self).cancellations == old(self).cancellations,
            final(self).current_response == old(self).current_response,
            old(self).options.view().contains_key(options) ==> r == Ok::<Cell, Error>(1),
            !old(self).options.view().contains_key(options) ==> fails_with(
                r,
                "Invalid options handle "@ + decimal(options as int),
            ),
    {
        match self.options.remove_with_id(options) {
            Some(_) => Ok(1),
            None => Err(ffi_error_ending_in_number("Invalid options handle ", options)),
        }
    }

    /// Adds the header `name: value` (C strings) to the options of handle
    /// `options`, in place of any header of the same name (names compared as
    /// `http` keeps them, letters in lower case). `Ok(None)` when the name is one that makes the insertion into
    /// the request's header map panic (see `header_name_panics`).
    pub fn options_add_header(&mut self, options: Cell, name: &[u8], value: &[u8]) -> (r: Result<
        Option<Cell>,
        Error,
    >)
        requires
            old(self).options.wf(),
        ensures
            final(self).options.wf(),
            final(self).options.next_id() == old(self).options.next_id(),
            final(self).options.view().dom() == old(self).options.view().dom(),
            final(self).json == old(self).json,
            final(self).bodies == old(self).bodies,
            final(self).cancellations == old(self).cancellations,
            final(self).current_response == old(self).current_response,
            forall|k: isize| k != options && #[trigger] old(self).options.view().contains_key(k)
                ==> final(self).options.view()[k] == old(self).options.view()[k],
            !old(self).options.view().contains_key(options) ==> fails_with(
                r,
                "Invalid options handle: "@ + decimal(options as int),
            ),
            old(self).options.view().contains_key(options) ==> {
                let before = old(self).options.view()[options];
                let after = final(self).options.view()[options];
                let n = vstd::utf8::decode_utf8(name@);
                let v = vstd::utf8::decode_utf8(value@);
                if !vstd::utf8::valid_utf8(name@) {
                    after == before && (r matches Err(e) && (e.kind matches ErrorKind::FFIError(m)
                        && m@ == "Invalid header name. Can't create UTF-8 string"@)
                        && e.causes@.map_values(|c: String| c@) == seq![
                        crate::ffi::ext::utf8_error_text(name@),
                    ])
                } else if !vstd::utf8::valid_utf8(value@) {
                    after == before && (r matches Err(e) && crate::ffi::ext::is_ffi_utf8_error(
                        e,
                        "Invalid header value. Can't create UTF-8 string"@,
                        value@,
                    ))
                } else if !(forall|i: int|
                    0 <= i < value@.len() ==> #[trigger] header_value_byte(value@[i])) {
                    after == before && (r matches Err(e) && (e.kind matches ErrorKind::FFIError(m)
                        && m@
                        == "Header value contains invalid byte sequences or was rejected by Hyper HTTP implementation: "@
                        + v) && e.causes@.map_values(|c: String| c@) == seq![
                        "failed to parse header value"@,
                    ])
                } else if header_name_panics(name@) {
                    after == before && r == Ok::<Option<Cell>, Error>(None)
                } else {
                    &&& r == Ok::<Option<Cell>, Error>(Some(1))
                    &&& after.header_map() == before.header_map().insert(header_key(name@), value@)
                    &&& after.timeout_millis == before.timeout_millis
                }
            },
    {
        proof {
            reveal_strlit("Invalid header name. Can't create UTF-8 string");
            reveal_strlit("failed to parse header value");
        }
        let ghost before = self.options.view();
        let opts = match self.options.get_mut_with_id(options) {
            Some(o) => o,
            None => {
                return Err(ffi_error_ending_in_number("Invalid options handle: ", options));
            },
        };
        let header_name = match crate::ffi::ext::str_from_bytes_or(
            name,
            "Invalid header name. Can't create UTF-8 string",
        ) {
            Ok(s) => s,
            Err(e) => {
                return Err(e);
            },
        };
        let header_value = match crate::ffi::ext::str_from_ptr_or(
            value,
            "Invalid header value. Can't create UTF-8 string",
        ) {
            Ok(s) => s,
            Err(e) => {
                return Err(e);
            },
        };
        proof {
            vstd::utf8::decode_utf8_encode_utf8(value@);
            vstd::utf8::decode_utf8_encode_utf8(name@);
        }
        if !header_value_accepted(header_value) {
            let mut m = String::from_str(
                "Header value contains invalid byte sequences or was rejected by Hyper HTTP implementation: ",
            );
            m.append(header_value);
            let e = Error {
                kind: ErrorKind::FFIError(m),
                causes: vec![String::from_str("failed to parse header value")],
            };
            assert(e.causes@.map_values(|c: String| c@) =~= seq!["failed to parse header value"@]);
            return Err(e);
        }
        if header_name_would_panic(header_name) {
            return Ok(None);
        }
        header_map_insert(&mut opts.headers, header_name, header_value);
        Ok(Some(1))
    }
}

/// A byte that an HTTP header value may hold, as `http`'s `HeaderValue`
/// checks it: a tab, or any byte from the space up but DEL.
pub open spec fn header_value_byte(b: u8) -> bool {
    (b >= 32 && b != 127) || b == 9
}

/// Calls `HeaderValue::from_str` of `http` (through reqwest) and tells
/// whether it accepted the text; it accepts exactly the texts whose UTF-8
/// bytes are all `header_value_byte`s.
#[verifier::external_body]
fn header_value_accepted(v: &str) -> (r: bool)
    ensures
        r == forall|i: int|
            0 <= i < vstd::utf8::encode_utf8(v@).len() ==> #[trigger] header_value_byte(
                vstd::utf8::encode_utf8(v@)[i],
            ),
{
    reqwest::header::HeaderValue::from_str(v).is_ok()
}

/// A byte that an HTTP header name may hold, as `http`'s table of header
/// characters has it: the token characters `!"#$%&'*+-.^_`|~`, digits and
/// letters (upper case ones stand for their lower case).
pub open spec fn header_name_byte(b: u8) -> bool {
    ||| 33 <= b <= 39
    ||| b == 42 || b == 43 || b == 45 || b == 46
    ||| 48 <= b <= 57
    ||| 65 <= b <= 90
    ||| 94 <= b <= 122
    ||| b == 124 || b == 126
}

/// Inserting a header under the name with these bytes into a `HeaderMap`
/// of `http`, by a `&'static str`, panics: the name is empty, is not shorter
/// than 65536 bytes, or is at most 64 bytes long and holds a byte that is
/// not a header name byte. (Longer names are not checked there.)
pub open spec fn header_name_panics(bytes: Seq<u8>) -> bool {
    ||| bytes.len() == 0
    ||| bytes.len() >= 65536
    ||| (bytes.len() <= 64 && exists|i: int| 0 <= i < bytes.len() && !header_name_byte(#[trigger] bytes[i]))
}

fn is_header_name_byte(b: u8) -> (r: bool)
    ensures
        r == header_name_byte(b),
{
    (33 <= b && b <= 39) || b == 42 || b == 43 || b == 45 || b == 46 || (48 <= b && b <= 57) || (65
        <= b && b <= 90) || (94 <= b && b <= 122) || b == 124 || b == 126
}

/// The bytes of header values, as `http` takes them: a tab and every byte
/// from the space up but DEL (bytes from 128 up included); no other control
/// byte, so no line break.
pub proof fn law_header_value_bytes(b: u8)
    ensures
        (b == 9 || (32 <= b && b != 127)) ==> header_value_byte(b),
        ((b < 32 && b != 9) || b == 127) ==> !header_value_byte(b),
{
}

/// The queue runs at its usual pace up to 999 pending requests, and from
/// 1000 on one step faster for every full 500 of them.
pub proof fn law_frame_multiplier(pending: int)
    requires
        pending >= 0,
    ensures
        pending < 1000 ==> frame_multiplier(pending) == 1,
        pending >= 1000 ==> 500 * frame_multiplier(pending) <= pending < 500 * (frame_multiplier(
            pending,
        ) + 1),
        frame_multiplier(pending) >= 1,
{
}

/// The characters of header names, as `http` takes them: every letter,
/// upper or lower case, every digit, and the token symbols
/// `!#$%&'*+-.^_`|~` (and `"`), but no control byte, space, `(`, `)`, `,`,
/// `/`, `:`, `;`, `<`, `=`, `>`, `?`, `@`, `[`, `\`, `]`, `{`, `}`, DEL or
/// non-ASCII byte. Upper case letters are kept as their lower case, every
/// other name character as itself.
pub proof fn law_header_name_bytes(b: u8)
    ensures
        (97 <= b <= 122 || 65 <= b <= 90 || 48 <= b <= 57) ==> header_name_byte(b),
        (b == 33 || b == 35 || b == 36 || b == 37 || b == 38 || b == 39 || b == 42 || b == 43 || b
            == 45 || b == 46 || b == 94 || b == 95 || b == 96 || b == 124 || b == 126 || b == 34)
            ==> header_name_byte(b),
        (b < 33 || b >= 127 || b == 40 || b == 41 || b == 44 || b == 47 || b == 58 || b == 59 || b
            == 60 || b == 61 || b == 62 || b == 63 || b == 64 || b == 91 || b == 92 || b == 93 || b
            == 123 || b == 125) ==> !header_name_byte(b),
        65 <= b <= 90 ==> header_char(b) == b + 32,
        (header_name_byte(b) && !(65 <= b <= 90)) ==> header_char(b) == b,
        !header_name_byte(b) ==> header_char(b) == 0,
{
}

/// A name of 1 to 64 bytes made of letters, digits and `-` (such as
/// `Authorization` or `X-Request-Id`) never makes the insertion panic, so
/// `options_add_header` adds a header under it; the map keeps it in lower
/// case.
pub proof fn law_token_names_are_accepted(name: Seq<u8>)
    requires
        1 <= name.len() <= 64,
        forall|i: int|
            0 <= i < name.len() ==> (97 <= #[trigger] name[i] <= 122 || 65 <= name[i] <= 90 || 48
                <= name[i] <= 57 || name[i] == 45),
    ensures
        !header_name_panics(name),
        forall|i: int|
            0 <= i < name.len() ==> #[trigger] header_key(name)[i] == if 65 <= name[i] <= 90 {
                (name[i] + 32) as u8
            } else {
                name[i]
            },
{
    assert forall|i: int| 0 <= i < name.len() implies header_name_byte(#[trigger] name[i]) by {
        law_header_name_bytes(name[i]);
    }
}

/// Whether inserting a header under the name `name` would panic; see
/// `header_name_panics`.
pub fn header_name_would_panic(name: &str) -> (r: bool)
    ensures
        r == header_name_panics(vstd::utf8::encode_utf8(name@)),
{
    let bytes = name.as_bytes();
    let n = bytes.len();
    if n == 0 || n >= 65536 {
        return true;
    }
    if n > 64 {
        return false;
    }
    let mut i: usize = 0;
    while i < n
        invariant
            n == bytes@.len(),
            1 <= n <= 64,
            bytes@ == vstd::utf8::encode_utf8(name@),
            0 <= i <= n,
            forall|j: int| 0 <= j < i ==> header_name_byte(#[trigger] bytes@[j]),
        decreases n - i,
    {
        if !is_header_name_byte(bytes[i]) {
            assert(!header_name_byte(vstd::utf8::encode_utf8(name@)[i as int]));
            return true;
        }
        i = i + 1;
    }
    false
}

/// How many times faster than usual the queue runs when `pending` requests
/// wait: once per 500 pending requests, and never less than once.
pub open spec fn frame_multiplier(pending: int) -> int {
    if pending / 500 > 1 {
        pending / 500
    } else {
        1
    }
}

/// How many responses the queue hands to callbacks in one frame: at least
/// `callbacks_per_frame`, scaled up by one step for every 500 pending
/// requests, and capped at `usize::MAX`.
///
/// The configured number is a floor, never a ceiling that drops to zero:
/// the client is meant to be low-latency, so a script with only a few
/// requests in flight gets each answer within a frame of its arrival, and
/// a factor below one would hand no response at all to a callback until
/// 500 requests had piled up. Above that backlog the queue runs faster by
/// the factor that its "Fastening execution N times" warning reports.
pub fn callbacks_this_frame(pending: usize, callbacks_per_frame: usize) -> (r: usize)
    ensures
        r == if callbacks_per_frame * frame_multiplier(pending as int) <= usize::MAX {
            callbacks_per_frame * frame_multiplier(pending as int)
        } else {
            usize::MAX as int
        },
{
    let multiplier: usize = if pending / 500 > 1 {
        pending / 500
    } else {
        1
    };
    match callbacks_per_frame.checked_mul(multiplier) {
        Some(r) => r,
        None => usize::MAX,
    }
}

/// The value of the decimal digits `s`.
pub open spec fn digits_value(s: Seq<char>) -> int
    decreases s.len(),
{
    if s.len() == 0 {
        0
    } else {
        digits_value(s.drop_last()) * 10 + (s.last() as int - '0' as int)
    }
}

/// The text `s` without its leading `+`, if it has one.
pub open spec fn unsigned_digits(s: Seq<char>) -> Seq<char> {
    if s.len() > 0 && s[0] == '+' {
        s.drop_first()
    } else {
        s
    }
}

/// What `str::parse::<usize>` gives for `s`, as std documents it: an
/// optional `+`, then at least one ASCII digit and nothing else, for a value
/// that fits a `usize`.
pub open spec fn parsed_usize(s: Seq<char>) -> Option<usize> {
    let d = unsigned_digits(s);
    if d.len() > 0 && (forall|i: int| 0 <= i < d.len() ==> '0' <= #[trigger] d[i] <= '9')
        && digits_value(d) <= usize::MAX {
        Some(digits_value(d) as usize)
    } else {
        None
    }
}

/// Decimal digits have a value of at least 0.
proof fn lemma_digits_value_nonneg(d: Seq<char>)
    requires
        forall|i: int| 0 <= i < d.len() ==> '0' <= #[trigger] d[i] <= '9',
    ensures
        digits_value(d) >= 0,
    decreases d.len(),
{
    if d.len() > 0 {
        lemma_digits_value_nonneg(d.drop_last());
    }
}

/// The value of the text `s` as `str::parse::<usize>` of std reads it;
/// see `parsed_usize`.
fn parse_usize(s: &str) -> (r: Option<usize>)
    ensures
        r == parsed_usize(s@),
{
    let n = s.unicode_len();
    let start: usize = if n > 0 && s.get_char(0) == '+' {
        1
    } else {
        0
    };
    let ghost d = unsigned_digits(s@);
    assert(d =~= s@.subrange(start as int, n as int));
    assert(start == 1 <==> (s@.len() > 0 && s@[0] == '+'));
    if start >= n {
        return None;
    }
    let mut i: usize = start;
    let mut v: usize = 0;
    let mut overflow = false;
    while i < n
        invariant
            n == s@.len(),
            start <= i <= n,
            start == 1 <==> (s@.len() > 0 && s@[0] == '+'),
            start <= 1,
            d == s@.subrange(start as int, n as int),
            d == unsigned_digits(s@),
            forall|j: int| start <= j < i ==> '0' <= #[trigger] s@[j] <= '9',
            !overflow ==> v == digits_value(s@.subrange(start as int, i as int)),
            overflow ==> digits_value(s@.subrange(start as int, i as int)) > usize::MAX,
        decreases n - i,
    {
        let c = s.get_char(i);
        if !('0' <= c && c <= '9') {
            assert(d[i - start] == c);
            assert(!('0' <= unsigned_digits(s@)[i - start] <= '9'));
            return None;
        }
        let ghost before = s@.subrange(start as int, i as int);
        let ghost after = s@.subrange(start as int, i + 1);
        assert(after.drop_last() =~= before);
        assert(after.last() == c);
        assert forall|j: int| 0 <= j < before.len() implies '0' <= #[trigger] before[j] <= '9' by {
            assert(before[j] == s@[start + j]);
        }
        proof {
            lemma_digits_value_nonneg(before);
        }
        let digit: usize = (c as u32 - '0' as u32) as usize;
        if !overflow {
            match v.checked_mul(10) {
                Some(t) => match t.checked_add(digit) {
                    Some(w) => {
                        v = w;
                    },
                    None => {
                        overflow = true;
                    },
                },
                None => {
                    overflow = true;
                },
            }
        }
        i = i + 1;
    }
    assert(s@.subrange(start as int, i as int) =~= d);
    if overflow {
        None
    } else {
        Some(v)
    }
}

/// Why the queue settings could not be read from the configuration.
#[derive(Clone, Copy, Debug, PartialEq, Eq, Structural)]
pub enum ConfigError {
    /// There is no `[queue]` section.
    MissingSection,
    /// The `queue.callbacks-per-frame` key is missing.
    MissingCallbacksPerFrame,
    /// The `queue.callbacks-per-frame` value is not a number.
    BadCallbacksPerFrame,
    /// The `queue.microseconds-delay-between-attempts` key is missing.
    MissingDelay,
    /// The `queue.microseconds-delay-between-attempts` value is not a
    /// number.
    BadDelay,
}

impl ConfigError {
    /// The message that is printed for this error.
    pub fn message(&self) -> (r: String)
        ensures
            r@ == match *self {
                ConfigError::MissingSection => "Error: Missing [queue] section in the grip.ini config"@,
                ConfigError::MissingCallbacksPerFrame => "Error: Missing \"queue.callbacks-per-frame\" key in the grip.ini config"@,
                ConfigError::BadCallbacksPerFrame => "Error: \"queue.callbacks-per-frame\" is not a number"@,
                ConfigError::MissingDelay => "Error: Missing \"queue.microseconds-delay-between-attempts\" key in the grip.ini config"@,
                ConfigError::BadDelay => "Error: \"queue.microseconds-delay-between-attempts\" is not a number"@,
            },
    {
        match self {
            ConfigError::MissingSection => String::from_str("Error: Missing [queue] section in the grip.ini config"),
            ConfigError::MissingCallbacksPerFrame => String::from_str("Error: Missing \"queue.callbacks-per-frame\" key in the grip.ini config"),
            ConfigError::BadCallbacksPerFrame => String::from_str("Error: \"queue.callbacks-per-frame\" is not a number"),
            ConfigError::MissingDelay => String::from_str("Error: Missing \"queue.microseconds-delay-between-attempts\" key in the grip.ini config"),
            ConfigError::BadDelay => String::from_str("Error: \"queue.microseconds-delay-between-attempts\" is not a number"),
        }
    }
}

/// The queue settings from the configuration: whether it has a `[queue]`
/// section, and the texts of its `callbacks-per-frame` and
/// `microseconds-delay-between-attempts` keys, if present. They are checked
/// in that order.
pub fn queue_settings(section_found: bool, callbacks_per_frame: Option<&str>, delay: Option<&str>) -> (r:
    Result<(usize, usize), ConfigError>)
    ensures
        !section_found ==> r == Err::<(usize, usize), ConfigError>(ConfigError::MissingSection),
        section_found ==> match callbacks_per_frame {
            None => r == Err::<(usize, usize), ConfigError>(ConfigError::MissingCallbacksPerFrame),
            Some(c) => match parsed_usize(c@) {
                None => r == Err::<(usize, usize), ConfigError>(ConfigError::BadCallbacksPerFrame),
                Some(n) => match delay {
                    None => r == Err::<(usize, usize), ConfigError>(ConfigError::MissingDelay),
                    Some(d) => match parsed_usize(d@) {
                        None => r == Err::<(usize, usize), ConfigError>(ConfigError::BadDelay),
                        Some(v) => r == Ok::<(usize, usize), ConfigError>((n, v)),
                    },
                },
            },
        },
{
    if !section_found {
        return Err(ConfigError::MissingSection);
    }
    let c = match callbacks_per_frame {
        Some(c) => c,
        None => {
            return Err(ConfigError::MissingCallbacksPerFrame);
        },
    };
    let callbacks = match parse_usize(c) {
        Some(n) => n,
        None => {
            return Err(ConfigError::BadCallbacksPerFrame);
        },
    };
    let d = match delay {
        Some(d) => d,
        None => {
            return Err(ConfigError::MissingDelay);
        },
    };
    match parse_usize(d) {
        Some(v) => Ok((callbacks, v)),
        None => Err(ConfigError::BadDelay),
    }
}

} // verus!
