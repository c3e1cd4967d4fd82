use vstd::prelude::*;
use vstd::string::StringExecFns;

verus! {

/// What went wrong. Each kind has a one-line description, its `Display`
/// text.
#[derive(Debug)]
pub enum ErrorKind {
    /// A plain message.
    Msg(String),
    /// A failure at the boundary with the scripting host.
    FFIError(String),
    /// The request was cancelled before it completed.
    RequestCancelled,
    /// The request did not complete in time.
    RequestTimeout,
    /// A channel receive failed; the text is that failure's description.
    CrossBeamError(String),
    /// An HTTP failure; the text is that failure's description.
    HTTPError(String),
    /// A JSON parse or serialisation failure; the text is that failure's
    /// description.
    JSONError(String),
}

/// An error, with the chain of errors that caused it, the nearest cause
/// first. Each cause is kept as its description.
#[derive(Debug)]
pub struct Error {
    pub kind: ErrorKind,
    pub causes: Vec<String>,
}

/// The one-line description of an error kind.
pub open spec fn kind_description(kind: ErrorKind) -> Seq<char> {
    match kind {
        ErrorKind::Msg(s) => s@,
        ErrorKind::FFIError(t) => "FFI Error: "@ + t@,
        ErrorKind::RequestCancelled => "Request was cancelled"@,
        ErrorKind::RequestTimeout => "Request timeout"@,
        ErrorKind::CrossBeamError(s) => s@,
        ErrorKind::HTTPError(s) => s@,
        ErrorKind::JSONError(s) => s@,
    }
}

/// The lines that name the causes, one `Caused by: ` line each, in order.
pub open spec fn causes_text(causes: Seq<Seq<char>>) -> Seq<char>
    decreases causes.len(),
{
    if causes.len() == 0 {
        Seq::empty()
    } else {
        causes_text(causes.drop_last()) + "Caused by: "@ + causes.last() + "\n"@
    }
}

/// The text that describes an error with its whole chain of causes: an
/// `Error: ` line with the error's own description, then one `Caused by: `
/// line per cause.
pub open spec fn display_chain(e: Error) -> Seq<char> {
    "Error: "@ + kind_description(e.kind) + "\n"@ + causes_text(e.causes@.map_values(|c: String| c@))
}

/// `e` is an `FFIError` with message `msg` and no cause, as `ffi_error`
/// makes it.
pub open spec fn is_ffi_error(e: Error, msg: Seq<char>) -> bool {
    &&& e.causes@.len() == 0
    &&& e.kind matches ErrorKind::FFIError(m) && m@ == msg
}

/// `r` failed with an `FFIError` whose message is `msg`.
pub open spec fn fails_with<T>(r: Result<T, Error>, msg: Seq<char>) -> bool {
    r matches Err(e) && is_ffi_error(e, msg)
}

impl ErrorKind {
    /// The one-line description of this kind.
    pub fn description(&self) -> (r: String)
        ensures
            r@ == kind_description(*self),
    {
        match self {
            ErrorKind::Msg(s) => s.clone(),
            ErrorKind::FFIError(t) => {
                let mut r = String::from_str("FFI Error: ");
                r.append(t.as_str());
                r
            },
            ErrorKind::RequestCancelled => String::from_str("Request was cancelled"),
            ErrorKind::RequestTimeout => String::from_str("Request timeout"),
            ErrorKind::CrossBeamError(s) => s.clone(),
            ErrorKind::HTTPError(s) => s.clone(),
            ErrorKind::JSONError(s) => s.clone(),
        }
    }
}

impl Error {
    /// An error of the given kind, with no cause.
    pub fn from_kind(kind: ErrorKind) -> (e: Error)
        ensures
            e.kind == kind,
            e.causes@.len() == 0,
    {
        Error { kind, causes: Vec::new() }
    }

    /// A new error of the given kind, caused by `self`: its causes are
    /// `self`'s description followed by `self`'s own causes.
    pub fn chain(self, kind: ErrorKind) -> (e: Error)
        ensures
            e.kind == kind,
            e.causes@.map_values(|c: String| c@) == seq![kind_description(self.kind)]
                + self.causes@.map_values(|c: String| c@),
    {
        let mut causes: Vec<String> = Vec::new();
        causes.push(self.kind.description());
        let n = self.causes.len();
        let mut i: usize = 0;
        while i < n
            invariant
                n == self.causes@.len(),
                0 <= i <= n,
                causes@.len() == i + 1,
                causes@[0]@ == kind_description(self.kind),
                forall|j: int| 0 <= j < i ==> #[trigger] causes@[j + 1]@ == self.causes@[j]@,
            decreases n - i,
        {
            causes.push(self.causes[i].clone());
            i = i + 1;
        }
        let e = Error { kind, causes };
        assert forall|k: int| 1 <= k <= n implies e.causes@[k]@ == self.causes@[k - 1]@ by {
            assert(causes@[(k - 1) + 1]@ == self.causes@[k - 1]@);
        }
        assert(e.causes@.map_values(|c: String| c@) =~= seq![kind_description(self.kind)]
            + self.causes@.map_values(|c: String| c@));
        e
    }

    /// The text that describes this error with its whole chain of causes.
    pub fn display_chain(&self) -> (r: String)
        ensures
            r@ == display_chain(*self),
    {
        let mut r = String::from_str("Error: ");
        let d = self.kind.description();
        r.append(d.as_str());
        r.append("\n");
        let n = self.causes.len();
        let mut i: usize = 0;
        let ghost causes = self.causes@.map_values(|c: String| c@);
        let ghost head = "Error: "@ + kind_description(self.kind) + "\n"@;
        while i < n
            invariant
                n == self.causes@.len(),
                causes == self.causes@.map_values(|c: String| c@),
                0 <= i <= n,
                r@ == head + causes_text(causes.take(i as int)),
            decreases n - i,
        {
            r.append("Caused by: ");
            r.append(self.causes[i].as_str());
            r.append("\n");
            assert(causes.take(i + 1).drop_last() =~= causes.take(i as int));
            i = i + 1;
        }
        assert(causes.take(n as int) =~= causes);
        r
    }
}

/// An `FFIError` whose message is the text `t`.
pub fn ffi_error(t: &str) -> (e: Error)
    ensures
        e.kind matches ErrorKind::FFIError(m) && m@ == t@,
        e.causes@.len() == 0,
        is_ffi_error(e, t@),
{
    Error::from_kind(ErrorKind::FFIError(t.to_owned()))
}

} // verus!
