//! The host bridge: the request and response that cross the sandbox boundary
//! when a plugin reaches the network, and how a request is built.
use crate::wire::{
    decode_request, decode_response, parse_request, parse_response, HeaderView, RequestView,
    ResponseView,
};
use vstd::string::*;
use vstd::utf8::*;
use vstd::prelude::*;

verus! {

/// The status that marks a failure inside the bridge itself (network or
/// encoding); no HTTP status has this value.
pub const BRIDGE_ERROR_STATUS: i32 = 9999;

/// A header name with its values, in the order they were added.
pub struct Header {
    pub name: String,
    pub values: Vec<String>,
}

pub open spec fn texts_view(v: Seq<String>) -> Seq<Seq<char>> {
    v.map_values(|s: String| s@)
}

pub open spec fn headers_view(v: Seq<Header>) -> Seq<HeaderView> {
    v.map_values(|h: Header| h@)
}

impl View for Header {
    type V = HeaderView;

    open spec fn view(&self) -> HeaderView {
        HeaderView { name: self.name@, values: texts_view(self.values@) }
    }
}

/// Header names are unique: each name has one entry holding all its values.
pub open spec fn names_unique(h: Seq<HeaderView>) -> bool {
    forall|i: int, j: int|
        0 <= i < h.len() && 0 <= j < h.len() && i != j ==> #[trigger] h[i].name != #[trigger] h[j].name
}

/// `after` is `before` with `value` added under `name`: appended to the
/// values of the entry with that name, or as a new last entry when none has it.
pub open spec fn adds_header(
    before: Seq<HeaderView>,
    name: Seq<char>,
    value: Seq<char>,
    after: Seq<HeaderView>,
) -> bool {
    if exists|i: int| 0 <= i < before.len() && before[i].name == name {
        exists|i: int|
            0 <= i < before.len() && before[i].name == name && after == before.update(
                i,
                HeaderView { name, values: before[i].values.push(value) },
            )
    } else {
        after == before.push(HeaderView { name, values: seq![value] })
    }
}

/// Whether byte `c` may stand in an HTTP method, as the `http` crate's
/// method parser accepts it: `!`, `*`, `+`, `-`, `.`, `^`, `_`, a backtick,
/// `|`, `~`, digits and ASCII letters.
pub open spec fn is_method_byte(c: u8) -> bool {
    c == 33 || (42 <= c <= 43) || (45 <= c <= 46) || (48 <= c <= 57) || (65 <= c <= 90) || (94
        <= c <= 122) || c == 124 || c == 126
}

/// Whether `b` is a valid HTTP method: non-empty, made of token bytes.
pub open spec fn is_method_token(b: Seq<u8>) -> bool {
    b.len() > 0 && forall|i: int| 0 <= i < b.len() ==> is_method_byte(#[trigger] b[i])
}

/// An outbound HTTP request made on behalf of a plugin.
pub struct Request {
    pub method: String,
    pub url: String,
    pub headers: Vec<Header>,
    pub body: Option<Vec<u8>>,
}

impl Request {
    /// A GET request for `url`, with no headers and no body.
    pub fn get(url: &str) -> (r: Request)
        ensures
            r@.method == "GET"@,
            r@.url == url@,
            r@.headers.len() == 0,
            r@.body is None,
    {
        Request { method: "GET".to_owned(), url: url.to_owned(), headers: Vec::new(), body: None }
    }

    /// The same request carrying `body`.
    pub fn body(self, body: &str) -> (r: Request)
        ensures
            r@ == (RequestView { body: Some(body.spec_bytes()), ..self@ }),
    {
        let mut b: Vec<u8> = Vec::new();
        let bytes = body.as_bytes();
        let mut i: usize = 0;
        while i < bytes.len()
            invariant
                i <= bytes@.len(),
                b@ == bytes@.subrange(0, i as int),
            decreases bytes@.len() - i,
        {
            b.push(bytes[i]);
            i = i + 1;
            assert(b@ =~= bytes@.subrange(0, i as int));
        }
        assert(bytes@.subrange(0, bytes@.len() as int) =~= bytes@);
        Request { method: self.method, url: self.url, headers: self.headers, body: Some(b) }
    }

    /// The same request with `value` added to the values of header `name`.
    pub fn set(self, name: &str, value: &str) -> (r: Request)
        ensures
            r@.method == self@.method,
            r@.url == self@.url,
            r@.body == self@.body,
            adds_header(self@.headers, name@, value@, r@.headers),
            names_unique(self@.headers) ==> names_unique(r@.headers),
    {
        let key = name.to_owned();
        let mut headers = self.headers;
        let ghost before = headers_view(headers@);
        let mut i: usize = 0;
        while i < headers.len()
            invariant
                i <= headers@.len(),
                before == headers_view(headers@),
                before == self@.headers,
                key@ == name@,
                forall|j: int| 0 <= j < i ==> before[j].name != name@,
            decreases headers@.len() - i,
        {
            if headers[i].name == key {
                let mut entry = headers.remove(i);
                entry.values.push(value.to_owned());
                headers.insert(i, entry);
                proof {
                    assert(texts_view(entry.values@) =~= before[i as int].values.push(value@));
                    assert(headers_view(headers@) =~= before.update(
                        i as int,
                        HeaderView { name: name@, values: before[i as int].values.push(value@) },
                    ));
                    let after = headers_view(headers@);
                    assert(before[i as int].name == name@);
                    assert(adds_header(before, name@, value@, after));
                    assert forall|a: int, c: int|
                        names_unique(before) && 0 <= a < after.len() && 0 <= c < after.len() && a
                            != c implies #[trigger] after[a].name != #[trigger] after[c].name by {
                        assert(after[a].name == before[a].name);
                        assert(after[c].name == before[c].name);
                    }
                }
                return Request { method: self.method, url: self.url, headers, body: self.body };
            }
            i = i + 1;
        }
        let mut values: Vec<String> = Vec::new();
        values.push(value.to_owned());
        headers.push(Header { name: key, values });
        proof {
            let after = headers_view(headers@);
            assert(texts_view(values@) =~= seq![value@]);
            assert(after =~= before.push(HeaderView { name: name@, values: seq![value@] }));
            assert(!exists|j: int| 0 <= j < before.len() && before[j].name == name@);
            assert forall|a: int, c: int|
                names_unique(before) && 0 <= a < after.len() && 0 <= c < after.len() && a
                    != c implies #[trigger] after[a].name != #[trigger] after[c].name by {
                if a < before.len() && c < before.len() {
                    assert(after[a].name == before[a].name);
                    assert(after[c].name == before[c].name);
                } else if a < before.len() {
                    assert(after[a].name == before[a].name);
                } else {
                    assert(after[c].name == before[c].name);
                }
            }
        }
        Request { method: self.method, url: self.url, headers, body: self.body }
    }
}

impl View for Request {
    type V = RequestView;

    open spec fn view(&self) -> RequestView {
        RequestView {
            method: self.method@,
            url: self.url@,
            headers: headers_view(self.headers@),
            body: match self.body {
                Some(b) => Some(b@),
                None => None,
            },
        }
    }
}

/// The answer to a `Request`.
pub struct Response {
    pub status: i32,
    pub headers: Vec<Header>,
    pub body: Vec<u8>,
}

impl Response {
    /// The response that reports a failure inside the bridge: the sentinel
    /// status, no headers, and `message` as the body.
    pub fn bridge_error(message: &str) -> (r: Response)
        ensures
            r@.status == BRIDGE_ERROR_STATUS,
            r@.headers.len() == 0,
            r@.body == message.spec_bytes(),
    {
        let bytes = message.as_bytes();
        let mut b: Vec<u8> = Vec::new();
        let mut i: usize = 0;
        while i < bytes.len()
            invariant
                i <= bytes@.len(),
                b@ == bytes@.subrange(0, i as int),
            decreases bytes@.len() - i,
        {
            b.push(bytes[i]);
            i = i + 1;
            assert(b@ =~= bytes@.subrange(0, i as int));
        }
        assert(bytes@.subrange(0, bytes@.len() as int) =~= bytes@);
        Response { status: BRIDGE_ERROR_STATUS, headers: Vec::new(), body: b }
    }

    /// Whether this response reports a failure inside the bridge.
    pub fn is_bridge_error(&self) -> (r: bool)
        ensures
            r == (self.status == BRIDGE_ERROR_STATUS),
    {
        self.status == BRIDGE_ERROR_STATUS
    }
}

impl View for Response {
    type V = ResponseView;

    open spec fn view(&self) -> ResponseView {
        ResponseView { status: self.status, headers: headers_view(self.headers@), body: self.body@ }
    }
}

/// Relies on `reqwest::Method::from_str` (the `http` crate's method parser):
/// it accepts a method exactly when the text is non-empty and every byte is
/// an HTTP token character; its error, `InvalidMethod`, displays as
/// `invalid HTTP method`.
#[verifier::external_body]
fn parse_method(m: &str) -> (r: Result<(), String>)
    ensures
        r is Ok <==> is_method_token(m.spec_bytes()),
        r matches Err(t) ==> t@ == "invalid HTTP method"@,
{
    match <reqwest::Method as std::str::FromStr>::from_str(m) {
        Ok(_) => Ok(()),
        Err(e) => Err(e.to_string()),
    }
}

/// Host side of a bridge call: the request a guest wrote, ready to be sent,
/// or the bridge-error response to hand back instead when the bytes are not
/// one well-formed request, or its method is not a valid HTTP method (then
/// the body names the method and the parser's reason).
pub fn host_accept(b: &Vec<u8>) -> (r: Result<Request, Response>)
    ensures
        match parse_request(b@) {
            None => r matches Err(e) && e@.status == BRIDGE_ERROR_STATUS && e@.headers.len() == 0
                && e@.body == "malformed request".spec_bytes(),
            Some(q) => if is_method_token(encode_utf8(q.method)) {
                r matches Ok(x) && x@ == q
            } else {
                r matches Err(e) && e@.status == BRIDGE_ERROR_STATUS && e@.headers.len() == 0
                    && e@.body == encode_utf8(
                    q.method + " requests are not valid: "@ + "invalid HTTP method"@,
                )
            },
        },
{
    match decode_request(b) {
        None => Err(Response::bridge_error("malformed request")),
        Some(q) => {
            match parse_method(q.method.as_str()) {
                Ok(()) => Ok(q),
                Err(reason) => {
                    let mut message = q.method.clone();
                    message.append(" requests are not valid: ");
                    message.append(reason.as_str());
                    Err(Response::bridge_error(message.as_str()))
                },
            }
        },
    }
}

/// Guest side of a bridge call: the response the host wrote, or a
/// bridge-error response when the bytes are not one well-formed response.
pub fn guest_receive(b: &Vec<u8>) -> (r: Response)
    ensures
        match parse_response(b@) {
            Some(v) => r@ == v,
            None => r@.status == BRIDGE_ERROR_STATUS && r@.headers.len() == 0 && r@.body
                == "malformed response".spec_bytes(),
        },
{
    match decode_response(b) {
        Some(v) => v,
        None => Response::bridge_error("malformed response"),
    }
}

} // verus!
