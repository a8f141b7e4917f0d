//! The byte format of the host bridge. Every value is a run of fields:
//! an integer is eight little-endian bytes, a byte string is its length
//! followed by its bytes, text is its UTF-8 bytes as a byte string, and a
//! list is its length followed by its items.
use crate::abi::{call_capability, CallView, Capability, CapabilityCall};
use crate::bridge::{headers_view, texts_view, Header, Request, Response};
use vstd::bytes::*;
use vstd::prelude::*;
use vstd::utf8::*;

verus! {

broadcast use {encode_utf8_valid_utf8, encode_utf8_decode_utf8};

/// One header name with its values, in order.
pub struct HeaderView {
    pub name: Seq<char>,
    pub values: Seq<Seq<char>>,
}

/// A request as the bridge carries it.
pub struct RequestView {
    pub method: Seq<char>,
    pub url: Seq<char>,
    pub headers: Seq<HeaderView>,
    pub body: Option<Seq<u8>>,
}

/// A response as the bridge carries it.
pub struct ResponseView {
    pub status: i32,
    pub headers: Seq<HeaderView>,
    pub body: Seq<u8>,
}

/// The bytes of `b` from `pos` on.
pub open spec fn tail(b: Seq<u8>, pos: int) -> Seq<u8> {
    b.subrange(pos, b.len() as int)
}

/// Prepends `v` to the value of a successful parse.
pub open spec fn prepend<T>(v: Seq<T>, r: Option<(Seq<T>, Seq<u8>)>) -> Option<(Seq<T>, Seq<u8>)> {
    match r {
        Some((vs, rest)) => Some((v + vs, rest)),
        None => None,
    }
}

pub open spec fn u64_field(n: u64) -> Seq<u8> {
    spec_u64_to_le_bytes(n)
}

pub open spec fn parse_u64(s: Seq<u8>) -> Option<(u64, Seq<u8>)> {
    if s.len() < 8 {
        None
    } else {
        Some((spec_u64_from_le_bytes(s.subrange(0, 8)), s.subrange(8, s.len() as int)))
    }
}

pub open spec fn bytes_field(b: Seq<u8>) -> Seq<u8> {
    u64_field(b.len() as u64) + b
}

pub open spec fn parse_bytes(s: Seq<u8>) -> Option<(Seq<u8>, Seq<u8>)> {
    match parse_u64(s) {
        Some((n, r)) => if n <= r.len() {
            Some((r.subrange(0, n as int), r.subrange(n as int, r.len() as int)))
        } else {
            None
        },
        None => None,
    }
}

pub open spec fn text_field(t: Seq<char>) -> Seq<u8> {
    bytes_field(encode_utf8(t))
}

pub open spec fn parse_text(s: Seq<u8>) -> Option<(Seq<char>, Seq<u8>)> {
    match parse_bytes(s) {
        Some((b, r)) => if valid_utf8(b) {
            Some((decode_utf8(b), r))
        } else {
            None
        },
        None => None,
    }
}

pub open spec fn text_items(v: Seq<Seq<char>>) -> Seq<u8>
    decreases v.len(),
{
    if v.len() == 0 {
        Seq::empty()
    } else {
        text_field(v[0]) + text_items(v.drop_first())
    }
}

pub open spec fn text_list(v: Seq<Seq<char>>) -> Seq<u8> {
    u64_field(v.len() as u64) + text_items(v)
}

pub open spec fn parse_text_items(n: nat, s: Seq<u8>) -> Option<(Seq<Seq<char>>, Seq<u8>)>
    decreases n,
{
    if n == 0 {
        Some((Seq::empty(), s))
    } else {
        match parse_text(s) {
            Some((t, r)) => prepend(seq![t], parse_text_items((n - 1) as nat, r)),
            None => None,
        }
    }
}

pub open spec fn parse_text_list(s: Seq<u8>) -> Option<(Seq<Seq<char>>, Seq<u8>)> {
    match parse_u64(s) {
        Some((n, r)) => parse_text_items(n as nat, r),
        None => None,
    }
}

pub open spec fn header_field(h: HeaderView) -> Seq<u8> {
    text_field(h.name) + text_list(h.values)
}

pub open spec fn parse_header(s: Seq<u8>) -> Option<(HeaderView, Seq<u8>)> {
    match parse_text(s) {
        Some((name, r)) => match parse_text_list(r) {
            Some((values, r2)) => Some((HeaderView { name, values }, r2)),
            None => None,
        },
        None => None,
    }
}

pub open spec fn header_items(v: Seq<HeaderView>) -> Seq<u8>
    decreases v.len(),
{
    if v.len() == 0 {
        Seq::empty()
    } else {
        header_field(v[0]) + header_items(v.drop_first())
    }
}

pub open spec fn header_list(v: Seq<HeaderView>) -> Seq<u8> {
    u64_field(v.len() as u64) + header_items(v)
}

pub open spec fn parse_header_items(n: nat, s: Seq<u8>) -> Option<(Seq<HeaderView>, Seq<u8>)>
    decreases n,
{
    if n == 0 {
        Some((Seq::empty(), s))
    } else {
        match parse_header(s) {
            Some((h, r)) => prepend(seq![h], parse_header_items((n - 1) as nat, r)),
            None => None,
        }
    }
}

pub open spec fn parse_header_list(s: Seq<u8>) -> Option<(Seq<HeaderView>, Seq<u8>)> {
    match parse_u64(s) {
        Some((n, r)) => parse_header_items(n as nat, r),
        None => None,
    }
}

/// An optional byte string: a tag byte, 0 for none and 1 for some, then the bytes.
pub open spec fn optional_bytes_field(b: Option<Seq<u8>>) -> Seq<u8> {
    match b {
        None => seq![0u8],
        Some(b) => seq![1u8] + bytes_field(b),
    }
}

pub open spec fn parse_optional_bytes(s: Seq<u8>) -> Option<(Option<Seq<u8>>, Seq<u8>)> {
    if s.len() == 0 {
        None
    } else if s[0] == 0 {
        Some((None, s.drop_first()))
    } else if s[0] == 1 {
        match parse_bytes(s.drop_first()) {
            Some((b, r)) => Some((Some(b), r)),
            None => None,
        }
    } else {
        None
    }
}

pub open spec fn i64_field(n: i64) -> Seq<u8> {
    u64_field(n as u64)
}

pub open spec fn parse_i64(s: Seq<u8>) -> Option<(i64, Seq<u8>)> {
    match parse_u64(s) {
        Some((n, r)) => Some((n as i64, r)),
        None => None,
    }
}

/// Optional text: a tag byte, 0 for none and 1 for some, then the text.
pub open spec fn optional_text_field(t: Option<Seq<char>>) -> Seq<u8> {
    match t {
        None => seq![0u8],
        Some(t) => seq![1u8] + text_field(t),
    }
}

pub open spec fn parse_optional_text(s: Seq<u8>) -> Option<(Option<Seq<char>>, Seq<u8>)> {
    if s.len() == 0 {
        None
    } else if s[0] == 0 {
        Some((None, s.drop_first()))
    } else if s[0] == 1 {
        match parse_text(s.drop_first()) {
            Some((t, r)) => Some((Some(t), r)),
            None => None,
        }
    } else {
        None
    }
}

/// The argument bytes handed to a capability's export; the export itself
/// tells which capability is called.
pub open spec fn call_args(c: CallView) -> Seq<u8> {
    match c {
        CallView::Popular(p) => i64_field(p),
        CallView::Latest(p) => i64_field(p),
        CallView::Search(p, q, f) => i64_field(p) + optional_text_field(q) + optional_bytes_field(
            f,
        ),
        CallView::Detail(t) => text_field(t),
        CallView::Chapters(t) => text_field(t),
        CallView::Pages(t) => text_field(t),
        _ => Seq::empty(),
    }
}

/// The call that `s` holds as the arguments of capability `cap`, if `s` is
/// exactly one well-formed argument list.
pub open spec fn parse_call_args(cap: Capability, s: Seq<u8>) -> Option<CallView> {
    match cap {
        Capability::SourceInfo => if s.len() == 0 {
            Some(CallView::SourceInfo)
        } else {
            None
        },
        Capability::FilterList => if s.len() == 0 {
            Some(CallView::FilterList)
        } else {
            None
        },
        Capability::Preferences => if s.len() == 0 {
            Some(CallView::Preferences)
        } else {
            None
        },
        Capability::Popular => match parse_i64(s) {
            Some((p, r)) => if r.len() == 0 {
                Some(CallView::Popular(p))
            } else {
                None
            },
            None => None,
        },
        Capability::Latest => match parse_i64(s) {
            Some((p, r)) => if r.len() == 0 {
                Some(CallView::Latest(p))
            } else {
                None
            },
            None => None,
        },
        Capability::Search => match parse_i64(s) {
            Some((p, r1)) => match parse_optional_text(r1) {
                Some((q, r2)) => match parse_optional_bytes(r2) {
                    Some((f, r3)) => if r3.len() == 0 {
                        Some(CallView::Search(p, q, f))
                    } else {
                        None
                    },
                    None => None,
                },
                None => None,
            },
            None => None,
        },
        Capability::Detail => match parse_text(s) {
            Some((t, r)) => if r.len() == 0 {
                Some(CallView::Detail(t))
            } else {
                None
            },
            None => None,
        },
        Capability::Chapters => match parse_text(s) {
            Some((t, r)) => if r.len() == 0 {
                Some(CallView::Chapters(t))
            } else {
                None
            },
            None => None,
        },
        Capability::Pages => match parse_text(s) {
            Some((t, r)) => if r.len() == 0 {
                Some(CallView::Pages(t))
            } else {
                None
            },
            None => None,
        },
    }
}

pub open spec fn call_fits(c: CallView) -> bool {
    match c {
        CallView::Search(_, q, f) => (q matches Some(t) ==> text_fits(t)) && (f matches Some(b)
            ==> b.len() <= u64::MAX),
        CallView::Detail(t) => text_fits(t),
        CallView::Chapters(t) => text_fits(t),
        CallView::Pages(t) => text_fits(t),
        _ => true,
    }
}

/// Whether every length in these values fits the eight-byte length field.
pub open spec fn text_fits(t: Seq<char>) -> bool {
    encode_utf8(t).len() <= u64::MAX
}

pub open spec fn texts_fit(v: Seq<Seq<char>>) -> bool {
    v.len() <= u64::MAX && forall|i: int| 0 <= i < v.len() ==> text_fits(#[trigger] v[i])
}

pub open spec fn header_fits(h: HeaderView) -> bool {
    text_fits(h.name) && texts_fit(h.values)
}

pub open spec fn headers_fit(v: Seq<HeaderView>) -> bool {
    v.len() <= u64::MAX && forall|i: int| 0 <= i < v.len() ==> header_fits(#[trigger] v[i])
}

pub proof fn lemma_parse_u64(n: u64, rest: Seq<u8>)
    ensures
        parse_u64(u64_field(n) + rest) == Some((n, rest)),
        u64_field(n).len() == 8,
{
    lemma_auto_spec_u64_to_from_le_bytes();
    let s = u64_field(n) + rest;
    assert(s.subrange(0, 8) =~= u64_field(n));
    assert(s.subrange(8, s.len() as int) =~= rest);
}

pub proof fn lemma_parse_bytes(b: Seq<u8>, rest: Seq<u8>)
    requires
        b.len() <= u64::MAX,
    ensures
        parse_bytes(bytes_field(b) + rest) == Some((b, rest)),
{
    lemma_parse_u64(b.len() as u64, b + rest);
    assert(bytes_field(b) + rest =~= u64_field(b.len() as u64) + (b + rest));
    assert((b + rest).subrange(0, b.len() as int) =~= b);
    assert((b + rest).subrange(b.len() as int, (b + rest).len() as int) =~= rest);
}

pub proof fn lemma_parse_text(t: Seq<char>, rest: Seq<u8>)
    requires
        text_fits(t),
    ensures
        parse_text(text_field(t) + rest) == Some((t, rest)),
{
    lemma_parse_bytes(encode_utf8(t), rest);
}

pub proof fn lemma_parse_text_items(v: Seq<Seq<char>>, rest: Seq<u8>)
    requires
        forall|i: int| 0 <= i < v.len() ==> text_fits(#[trigger] v[i]),
    ensures
        parse_text_items(v.len(), text_items(v) + rest) == Some((v, rest)),
    decreases v.len(),
{
    if v.len() == 0 {
        assert(text_items(v) + rest =~= rest);
        assert(v =~= Seq::<Seq<char>>::empty());
    } else {
        let d = v.drop_first();
        assert forall|i: int| 0 <= i < d.len() implies text_fits(#[trigger] d[i]) by {
            assert(d[i] == v[i + 1]);
        }
        lemma_parse_text_items(d, rest);
        assert(text_items(v) + rest =~= text_field(v[0]) + (text_items(d) + rest));
        assert(text_fits(v[0]));
        lemma_parse_text(v[0], text_items(d) + rest);
        assert(seq![v[0]] + d =~= v);
    }
}

pub proof fn lemma_parse_text_list(v: Seq<Seq<char>>, rest: Seq<u8>)
    requires
        texts_fit(v),
    ensures
        parse_text_list(text_list(v) + rest) == Some((v, rest)),
{
    lemma_parse_u64(v.len() as u64, text_items(v) + rest);
    assert(text_list(v) + rest =~= u64_field(v.len() as u64) + (text_items(v) + rest));
    lemma_parse_text_items(v, rest);
}

pub proof fn lemma_parse_header(h: HeaderView, rest: Seq<u8>)
    requires
        header_fits(h),
    ensures
        parse_header(header_field(h) + rest) == Some((h, rest)),
{
    assert(header_field(h) + rest =~= text_field(h.name) + (text_list(h.values) + rest));
    lemma_parse_text(h.name, text_list(h.values) + rest);
    lemma_parse_text_list(h.values, rest);
}

pub proof fn lemma_parse_header_items(v: Seq<HeaderView>, rest: Seq<u8>)
    requires
        forall|i: int| 0 <= i < v.len() ==> header_fits(#[trigger] v[i]),
    ensures
        parse_header_items(v.len(), header_items(v) + rest) == Some((v, rest)),
    decreases v.len(),
{
    if v.len() == 0 {
        assert(header_items(v) + rest =~= rest);
        assert(v =~= Seq::<HeaderView>::empty());
    } else {
        let d = v.drop_first();
        assert forall|i: int| 0 <= i < d.len() implies header_fits(#[trigger] d[i]) by {
            assert(d[i] == v[i + 1]);
        }
        lemma_parse_header_items(d, rest);
        assert(header_items(v) + rest =~= header_field(v[0]) + (header_items(d) + rest));
        assert(header_fits(v[0]));
        lemma_parse_header(v[0], header_items(d) + rest);
        assert(seq![v[0]] + d =~= v);
    }
}

pub proof fn lemma_parse_header_list(v: Seq<HeaderView>, rest: Seq<u8>)
    requires
        headers_fit(v),
    ensures
        parse_header_list(header_list(v) + rest) == Some((v, rest)),
{
    lemma_parse_u64(v.len() as u64, header_items(v) + rest);
    assert(header_list(v) + rest =~= u64_field(v.len() as u64) + (header_items(v) + rest));
    lemma_parse_header_items(v, rest);
}

pub proof fn lemma_parse_optional_bytes(b: Option<Seq<u8>>, rest: Seq<u8>)
    requires
        b matches Some(x) ==> x.len() <= u64::MAX,
    ensures
        parse_optional_bytes(optional_bytes_field(b) + rest) == Some((b, rest)),
{
    let s = optional_bytes_field(b) + rest;
    match b {
        None => {
            assert(s.drop_first() =~= rest);
        },
        Some(x) => {
            assert(s.drop_first() =~= bytes_field(x) + rest);
            lemma_parse_bytes(x, rest);
        },
    }
}

/// A request: method, url, headers, then the optional body.
pub open spec fn request_bytes(r: RequestView) -> Seq<u8> {
    text_field(r.method) + text_field(r.url) + header_list(r.headers) + optional_bytes_field(r.body)
}

/// The request that `s` holds, if `s` is exactly one well-formed request.
pub open spec fn parse_request(s: Seq<u8>) -> Option<RequestView> {
    match parse_text(s) {
        Some((method, r1)) => match parse_text(r1) {
            Some((url, r2)) => match parse_header_list(r2) {
                Some((headers, r3)) => match parse_optional_bytes(r3) {
                    Some((body, r4)) => if r4.len() == 0 {
                        Some(RequestView { method, url, headers, body })
                    } else {
                        None
                    },
                    None => None,
                },
                None => None,
            },
            None => None,
        },
        None => None,
    }
}

/// A response: the status as an unsigned 32-bit value in a 64-bit field,
/// headers, then the body.
pub open spec fn response_bytes(r: ResponseView) -> Seq<u8> {
    u64_field(r.status as u32 as u64) + header_list(r.headers) + bytes_field(r.body)
}

/// The response that `s` holds, if `s` is exactly one well-formed response.
pub open spec fn parse_response(s: Seq<u8>) -> Option<ResponseView> {
    match parse_u64(s) {
        Some((n, r1)) => if n > u32::MAX {
            None
        } else {
            match parse_header_list(r1) {
                Some((headers, r2)) => match parse_bytes(r2) {
                    Some((body, r3)) => if r3.len() == 0 {
                        Some(ResponseView { status: n as u32 as i32, headers, body })
                    } else {
                        None
                    },
                    None => None,
                },
                None => None,
            }
        },
        None => None,
    }
}

pub open spec fn request_fits(r: RequestView) -> bool {
    &&& text_fits(r.method)
    &&& text_fits(r.url)
    &&& headers_fit(r.headers)
    &&& r.body matches Some(b) ==> b.len() <= u64::MAX
}

pub open spec fn response_fits(r: ResponseView) -> bool {
    headers_fit(r.headers) && r.body.len() <= u64::MAX
}

/// Decoding the encoding of a request gives back that same request.
pub proof fn lemma_request_round_trip(r: RequestView)
    requires
        request_fits(r),
    ensures
        parse_request(request_bytes(r)) == Some(r),
{
    let e: Seq<u8> = Seq::empty();
    let tail4 = optional_bytes_field(r.body);
    let tail3 = header_list(r.headers) + tail4;
    let tail2 = text_field(r.url) + tail3;
    assert(request_bytes(r) =~= text_field(r.method) + tail2);
    lemma_parse_text(r.method, tail2);
    lemma_parse_text(r.url, tail3);
    lemma_parse_header_list(r.headers, tail4);
    lemma_parse_optional_bytes(r.body, e);
    assert(tail4 + e =~= tail4);
}

proof fn lemma_parse_i64(n: i64, rest: Seq<u8>)
    ensures
        parse_i64(i64_field(n) + rest) == Some((n, rest)),
{
    lemma_parse_u64(n as u64, rest);
    assert((n as u64) as i64 == n) by (bit_vector);
}

proof fn lemma_parse_optional_text(t: Option<Seq<char>>, rest: Seq<u8>)
    requires
        t matches Some(x) ==> text_fits(x),
    ensures
        parse_optional_text(optional_text_field(t) + rest) == Some((t, rest)),
{
    let s = optional_text_field(t) + rest;
    match t {
        None => {
            assert(s.drop_first() =~= rest);
        },
        Some(x) => {
            assert(s.drop_first() =~= text_field(x) + rest);
            lemma_parse_text(x, rest);
        },
    }
}

/// Decoding the arguments of a call, under the capability it goes to,
/// gives back that same call.
pub proof fn lemma_call_round_trip(c: CallView)
    requires
        call_fits(c),
    ensures
        parse_call_args(call_capability(c), call_args(c)) == Some(c),
{
    let e: Seq<u8> = Seq::empty();
    match c {
        CallView::Popular(p) => {
            lemma_parse_i64(p, e);
            assert(i64_field(p) + e =~= i64_field(p));
        },
        CallView::Latest(p) => {
            lemma_parse_i64(p, e);
            assert(i64_field(p) + e =~= i64_field(p));
        },
        CallView::Search(p, q, f) => {
            let t2 = optional_bytes_field(f);
            let t1 = optional_text_field(q) + t2;
            assert(call_args(c) =~= i64_field(p) + t1);
            lemma_parse_i64(p, t1);
            lemma_parse_optional_text(q, t2);
            lemma_parse_optional_bytes(f, e);
            assert(t2 + e =~= t2);
        },
        CallView::Detail(t) => {
            lemma_parse_text(t, e);
            assert(text_field(t) + e =~= text_field(t));
        },
        CallView::Chapters(t) => {
            lemma_parse_text(t, e);
            assert(text_field(t) + e =~= text_field(t));
        },
        CallView::Pages(t) => {
            lemma_parse_text(t, e);
            assert(text_field(t) + e =~= text_field(t));
        },
        _ => {},
    }
}

/// Decoding the encoding of a response gives back that same response.
pub proof fn lemma_response_round_trip(r: ResponseView)
    requires
        response_fits(r),
    ensures
        parse_response(response_bytes(r)) == Some(r),
{
    let e: Seq<u8> = Seq::empty();
    let tail2 = bytes_field(r.body);
    let tail1 = header_list(r.headers) + tail2;
    assert(response_bytes(r) =~= u64_field(r.status as u32 as u64) + tail1);
    lemma_parse_u64(r.status as u32 as u64, tail1);
    lemma_parse_header_list(r.headers, tail2);
    lemma_parse_bytes(r.body, e);
    assert(tail2 + e =~= tail2);
    let s = r.status;
    assert(((s as u32) as u64) as u32 as i32 == s) by (bit_vector);
}

proof fn lemma_text_items_push(v: Seq<Seq<char>>, t: Seq<char>)
    ensures
        text_items(v.push(t)) == text_items(v) + text_field(t),
    decreases v.len(),
{
    if v.len() == 0 {
        let w = v.push(t);
        assert(w.drop_first() =~= Seq::<Seq<char>>::empty());
        assert(text_items(w.drop_first()) == Seq::<u8>::empty());
        assert(w[0] == t);
        assert(text_items(w) == text_field(t) + text_items(w.drop_first()));
        assert(text_items(w) =~= text_items(v) + text_field(t));
    } else {
        assert(v.push(t).drop_first() =~= v.drop_first().push(t));
        assert(v.push(t)[0] == v[0]);
        lemma_text_items_push(v.drop_first(), t);
        assert(text_field(v[0]) + (text_items(v.drop_first()) + text_field(t)) =~= (text_field(v[0])
            + text_items(v.drop_first())) + text_field(t));
        assert(text_items(v.push(t)) =~= text_items(v) + text_field(t));
    }
}

proof fn lemma_header_items_push(v: Seq<HeaderView>, h: HeaderView)
    ensures
        header_items(v.push(h)) == header_items(v) + header_field(h),
    decreases v.len(),
{
    if v.len() == 0 {
        let w = v.push(h);
        assert(w.drop_first() =~= Seq::<HeaderView>::empty());
        assert(header_items(w.drop_first()) == Seq::<u8>::empty());
        assert(w[0] == h);
        assert(header_items(w) == header_field(h) + header_items(w.drop_first()));
        assert(header_items(w) =~= header_items(v) + header_field(h));
    } else {
        assert(v.push(h).drop_first() =~= v.drop_first().push(h));
        assert(v.push(h)[0] == v[0]);
        lemma_header_items_push(v.drop_first(), h);
        assert(header_field(v[0]) + (header_items(v.drop_first()) + header_field(h)) =~= (
        header_field(v[0]) + header_items(v.drop_first())) + header_field(h));
        assert(header_items(v.push(h)) =~= header_items(v) + header_field(h));
    }
}

proof fn lemma_prepend_push<T>(a: Seq<T>, t: T, x: Option<(Seq<T>, Seq<u8>)>)
    ensures
        prepend(a, prepend(seq![t], x)) == prepend(a.push(t), x),
{
    match x {
        Some((vs, rest)) => {
            assert(a + (seq![t] + vs) =~= a.push(t) + vs);
        },
        None => {},
    }
}

fn put_u64(out: &mut Vec<u8>, n: u64)
    ensures
        final(out)@ == old(out)@ + u64_field(n),
{
    let mut b = u64_to_le_bytes(n);
    out.append(&mut b);
}

fn put_bytes(out: &mut Vec<u8>, b: &[u8])
    ensures
        final(out)@ == old(out)@ + bytes_field(b@),
        b@.len() <= u64::MAX,
{
    put_u64(out, b.len() as u64);
    let ghost start = out@;
    let mut i: usize = 0;
    while i < b.len()
        invariant
            i <= b@.len(),
            out@ == start + b@.subrange(0, i as int),
        decreases b@.len() - i,
    {
        out.push(b[i]);
        i = i + 1;
        assert(out@ =~= start + b@.subrange(0, i as int));
    }
    assert(b@.subrange(0, b@.len() as int) =~= b@);
    assert(start + b@ =~= old(out)@ + bytes_field(b@));
}

fn put_text(out: &mut Vec<u8>, s: &String)
    ensures
        final(out)@ == old(out)@ + text_field(s@),
        text_fits(s@),
{
    put_bytes(out, s.as_str().as_bytes());
}

fn put_text_list(out: &mut Vec<u8>, v: &Vec<String>)
    ensures
        final(out)@ == old(out)@ + text_list(texts_view(v@)),
        texts_fit(texts_view(v@)),
{
    let ghost tv = texts_view(v@);
    put_u64(out, v.len() as u64);
    let ghost start = out@;
    let mut i: usize = 0;
    while i < v.len()
        invariant
            i <= v@.len(),
            tv == texts_view(v@),
            out@ == start + text_items(tv.take(i as int)),
            forall|j: int| 0 <= j < i ==> text_fits(#[trigger] tv[j]),
        decreases v@.len() - i,
    {
        put_text(out, &v[i]);
        proof {
            lemma_text_items_push(tv.take(i as int), tv[i as int]);
            assert(tv.take(i + 1) =~= tv.take(i as int).push(tv[i as int]));
        }
        i = i + 1;
    }
    assert(tv.take(v@.len() as int) =~= tv);
    assert(start + text_items(tv) =~= old(out)@ + text_list(tv));
}

fn put_header(out: &mut Vec<u8>, h: &Header)
    ensures
        final(out)@ == old(out)@ + header_field(h@),
        header_fits(h@),
{
    put_text(out, &h.name);
    put_text_list(out, &h.values);
    assert(final(out)@ =~= old(out)@ + header_field(h@));
}

fn put_header_list(out: &mut Vec<u8>, v: &Vec<Header>)
    ensures
        final(out)@ == old(out)@ + header_list(headers_view(v@)),
        headers_fit(headers_view(v@)),
{
    let ghost hv = headers_view(v@);
    put_u64(out, v.len() as u64);
    let ghost start = out@;
    let mut i: usize = 0;
    while i < v.len()
        invariant
            i <= v@.len(),
            hv == headers_view(v@),
            out@ == start + header_items(hv.take(i as int)),
            forall|j: int| 0 <= j < i ==> header_fits(#[trigger] hv[j]),
        decreases v@.len() - i,
    {
        put_header(out, &v[i]);
        proof {
            lemma_header_items_push(hv.take(i as int), hv[i as int]);
            assert(hv.take(i + 1) =~= hv.take(i as int).push(hv[i as int]));
        }
        i = i + 1;
    }
    assert(hv.take(v@.len() as int) =~= hv);
    assert(start + header_items(hv) =~= old(out)@ + header_list(hv));
}

/// The bytes that carry `r` across the sandbox boundary.
pub fn encode_request(r: &Request) -> (out: Vec<u8>)
    ensures
        out@ == request_bytes(r@),
        request_fits(r@),
{
    let mut out: Vec<u8> = Vec::new();
    put_text(&mut out, &r.method);
    put_text(&mut out, &r.url);
    put_header_list(&mut out, &r.headers);
    match &r.body {
        None => {
            out.push(0u8);
        },
        Some(b) => {
            out.push(1u8);
            put_bytes(&mut out, b.as_slice());
        },
    }
    assert(out@ =~= request_bytes(r@));
    out
}

/// The bytes that carry `r` back into the sandbox.
pub fn encode_response(r: &Response) -> (out: Vec<u8>)
    ensures
        out@ == response_bytes(r@),
        response_fits(r@),
{
    let mut out: Vec<u8> = Vec::new();
    put_u64(&mut out, r.status as u32 as u64);
    put_header_list(&mut out, &r.headers);
    put_bytes(&mut out, r.body.as_slice());
    assert(out@ =~= response_bytes(r@));
    out
}

/// Relies on `String::from_utf8`: it accepts exactly the byte strings that
/// are valid UTF-8, and the text it returns has the characters they encode.
#[verifier::external_body]
fn text_from_utf8(b: Vec<u8>) -> (r: Option<String>)
    ensures
        r is Some <==> valid_utf8(b@),
        r matches Some(s) ==> s@ == decode_utf8(b@),
{
    String::from_utf8(b).ok()
}

fn read_run(b: &Vec<u8>, pos: usize, n: usize) -> (w: Vec<u8>)
    requires
        pos + n <= b@.len(),
    ensures
        w@ == b@.subrange(pos as int, pos + n),
{
    let total = b.len();
    let mut w: Vec<u8> = Vec::new();
    let mut i: usize = 0;
    while i < n
        invariant
            i <= n,
            pos + n <= b@.len(),
            total == b@.len(),
            w@ == b@.subrange(pos as int, pos + i),
        decreases n - i,
    {
        w.push(b[pos + i]);
        i = i + 1;
        assert(w@ =~= b@.subrange(pos as int, pos + i));
    }
    w
}

fn read_u64(b: &Vec<u8>, pos: usize) -> (r: Option<(u64, usize)>)
    requires
        pos <= b@.len(),
    ensures
        match r {
            Some((n, p)) => p <= b@.len() && parse_u64(tail(b@, pos as int)) == Some(
                (n, tail(b@, p as int)),
            ),
            None => parse_u64(tail(b@, pos as int)) is None,
        },
{
    if b.len() - pos < 8 {
        return None;
    }
    let w = read_run(b, pos, 8);
    let n = u64_from_le_bytes(w.as_slice());
    assert(tail(b@, pos as int).subrange(0, 8) =~= w@);
    assert(tail(b@, pos as int).subrange(8, tail(b@, pos as int).len() as int) =~= tail(
        b@,
        pos + 8,
    ));
    Some((n, pos + 8))
}

fn read_bytes(b: &Vec<u8>, pos: usize) -> (r: Option<(Vec<u8>, usize)>)
    requires
        pos <= b@.len(),
    ensures
        match r {
            Some((w, p)) => p <= b@.len() && parse_bytes(tail(b@, pos as int)) == Some(
                (w@, tail(b@, p as int)),
            ),
            None => parse_bytes(tail(b@, pos as int)) is None,
        },
{
    let (n, p) = match read_u64(b, pos) {
        Some(x) => x,
        None => {
            return None;
        },
    };
    if n > (b.len() - p) as u64 {
        return None;
    }
    let n = n as usize;
    let w = read_run(b, p, n);
    assert(tail(b@, p as int).subrange(0, n as int) =~= w@);
    assert(tail(b@, p as int).subrange(n as int, tail(b@, p as int).len() as int) =~= tail(
        b@,
        p + n,
    ));
    Some((w, p + n))
}

fn read_text(b: &Vec<u8>, pos: usize) -> (r: Option<(String, usize)>)
    requires
        pos <= b@.len(),
    ensures
        match r {
            Some((s, p)) => p <= b@.len() && parse_text(tail(b@, pos as int)) == Some(
                (s@, tail(b@, p as int)),
            ),
            None => parse_text(tail(b@, pos as int)) is None,
        },
{
    match read_bytes(b, pos) {
        Some((w, p)) => match text_from_utf8(w) {
            Some(s) => Some((s, p)),
            None => None,
        },
        None => None,
    }
}

fn read_text_list(b: &Vec<u8>, pos: usize) -> (r: Option<(Vec<String>, usize)>)
    requires
        pos <= b@.len(),
    ensures
        match r {
            Some((v, p)) => p <= b@.len() && parse_text_list(tail(b@, pos as int)) == Some(
                (texts_view(v@), tail(b@, p as int)),
            ),
            None => parse_text_list(tail(b@, pos as int)) is None,
        },
{
    let (n, mut p) = match read_u64(b, pos) {
        Some(x) => x,
        None => {
            return None;
        },
    };
    let mut v: Vec<String> = Vec::new();
    let mut k: u64 = 0;
    while k < n
        invariant
            k <= n,
            p <= b@.len(),
            parse_text_list(tail(b@, pos as int)) == prepend(
                texts_view(v@),
                parse_text_items((n - k) as nat, tail(b@, p as int)),
            ),
        decreases n - k,
    {
        match read_text(b, p) {
            Some((t, q)) => {
                proof {
                    lemma_prepend_push(
                        texts_view(v@),
                        t@,
                        parse_text_items((n - k - 1) as nat, tail(b@, q as int)),
                    );
                    assert(texts_view(v@).push(t@) =~= texts_view(v@.push(t)));
                }
                v.push(t);
                p = q;
                k = k + 1;
            },
            None => {
                return None;
            },
        }
    }
    assert(texts_view(v@) + Seq::empty() =~= texts_view(v@));
    Some((v, p))
}

fn read_header(b: &Vec<u8>, pos: usize) -> (r: Option<(Header, usize)>)
    requires
        pos <= b@.len(),
    ensures
        match r {
            Some((h, p)) => p <= b@.len() && parse_header(tail(b@, pos as int)) == Some(
                (h@, tail(b@, p as int)),
            ),
            None => parse_header(tail(b@, pos as int)) is None,
        },
{
    let (name, p) = match read_text(b, pos) {
        Some(x) => x,
        None => {
            return None;
        },
    };
    match read_text_list(b, p) {
        Some((values, q)) => Some((Header { name, values }, q)),
        None => None,
    }
}

fn read_header_list(b: &Vec<u8>, pos: usize) -> (r: Option<(Vec<Header>, usize)>)
    requires
        pos <= b@.len(),
    ensures
        match r {
            Some((v, p)) => p <= b@.len() && parse_header_list(tail(b@, pos as int)) == Some(
                (headers_view(v@), tail(b@, p as int)),
            ),
            None => parse_header_list(tail(b@, pos as int)) is None,
        },
{
    let (n, mut p) = match read_u64(b, pos) {
        Some(x) => x,
        None => {
            return None;
        },
    };
    let mut v: Vec<Header> = Vec::new();
    let mut k: u64 = 0;
    while k < n
        invariant
            k <= n,
            p <= b@.len(),
            parse_header_list(tail(b@, pos as int)) == prepend(
                headers_view(v@),
                parse_header_items((n - k) as nat, tail(b@, p as int)),
            ),
        decreases n - k,
    {
        match read_header(b, p) {
            Some((h, q)) => {
                proof {
                    lemma_prepend_push(
                        headers_view(v@),
                        h@,
                        parse_header_items((n - k - 1) as nat, tail(b@, q as int)),
                    );
                    assert(headers_view(v@).push(h@) =~= headers_view(v@.push(h)));
                }
                v.push(h);
                p = q;
                k = k + 1;
            },
            None => {
                return None;
            },
        }
    }
    assert(headers_view(v@) + Seq::empty() =~= headers_view(v@));
    Some((v, p))
}

fn read_optional_bytes(b: &Vec<u8>, pos: usize) -> (r: Option<(Option<Vec<u8>>, usize)>)
    requires
        pos <= b@.len(),
    ensures
        match r {
            Some((o, p)) => p <= b@.len() && parse_optional_bytes(tail(b@, pos as int)) == Some(
                (
                    match o {
                        Some(w) => Some(w@),
                        None => None,
                    },
                    tail(b@, p as int),
                ),
            ),
            None => parse_optional_bytes(tail(b@, pos as int)) is None,
        },
{
    if pos == b.len() {
        return None;
    }
    assert(tail(b@, pos as int).drop_first() =~= tail(b@, pos + 1));
    let tag = b[pos];
    if tag == 0 {
        Some((None, pos + 1))
    } else if tag == 1 {
        match read_bytes(b, pos + 1) {
            Some((w, p)) => Some((Some(w), p)),
            None => None,
        }
    } else {
        None
    }
}

/// The request that `b` holds; none when `b` is not exactly one encoded request.
pub fn decode_request(b: &Vec<u8>) -> (r: Option<Request>)
    ensures
        match r {
            Some(q) => parse_request(b@) == Some(q@),
            None => parse_request(b@) is None,
        },
{
    assert(tail(b@, 0) =~= b@);
    let (method, at1) = match read_text(b, 0) {
        Some(x) => x,
        None => {
            return None;
        },
    };
    let (url, at2) = match read_text(b, at1) {
        Some(x) => x,
        None => {
            return None;
        },
    };
    let (headers, at3) = match read_header_list(b, at2) {
        Some(x) => x,
        None => {
            return None;
        },
    };
    let (body, at4) = match read_optional_bytes(b, at3) {
        Some(x) => x,
        None => {
            return None;
        },
    };
    if at4 != b.len() {
        return None;
    }
    Some(Request { method, url, headers, body })
}

/// The response that `b` holds; none when `b` is not exactly one encoded response.
pub fn decode_response(b: &Vec<u8>) -> (r: Option<Response>)
    ensures
        match r {
            Some(q) => parse_response(b@) == Some(q@),
            None => parse_response(b@) is None,
        },
{
    assert(tail(b@, 0) =~= b@);
    let (n, at1) = match read_u64(b, 0) {
        Some(x) => x,
        None => {
            return None;
        },
    };
    if n > 0xffff_ffff {
        return None;
    }
    let (headers, at2) = match read_header_list(b, at1) {
        Some(x) => x,
        None => {
            return None;
        },
    };
    let (body, at3) = match read_bytes(b, at2) {
        Some(x) => x,
        None => {
            return None;
        },
    };
    if at3 != b.len() {
        return None;
    }
    Some(Response { status: n as u32 as i32, headers, body })
}

proof fn lemma_parse_u64_sound(s: Seq<u8>)
    ensures
        parse_u64(s) matches Some((n, r)) ==> s == u64_field(n) + r,
{
    if s.len() >= 8 {
        lemma_auto_spec_u64_to_from_le_bytes();
        let head = s.subrange(0, 8);
        assert(spec_u64_to_le_bytes(spec_u64_from_le_bytes(head)) == head);
        assert(s =~= head + s.subrange(8, s.len() as int));
    }
}

proof fn lemma_parse_bytes_sound(s: Seq<u8>)
    ensures
        parse_bytes(s) matches Some((b, r)) ==> s == bytes_field(b) + r && b.len() <= u64::MAX,
{
    lemma_parse_u64_sound(s);
    if let Some((n, r)) = parse_u64(s) {
        if n <= r.len() {
            let b = r.subrange(0, n as int);
            assert(b.len() as u64 == n);
            assert(r =~= b + r.subrange(n as int, r.len() as int));
            assert(s =~= bytes_field(b) + r.subrange(n as int, r.len() as int));
        }
    }
}

proof fn lemma_parse_text_sound(s: Seq<u8>)
    ensures
        parse_text(s) matches Some((t, r)) ==> s == text_field(t) + r && text_fits(t),
{
    lemma_parse_bytes_sound(s);
    if let Some((b, r)) = parse_bytes(s) {
        if valid_utf8(b) {
            decode_utf8_encode_utf8(b);
        }
    }
}

proof fn lemma_parse_text_items_sound(n: nat, s: Seq<u8>)
    ensures
        parse_text_items(n, s) matches Some((v, r)) ==> s == text_items(v) + r && v.len() == n
            && forall|i: int| 0 <= i < v.len() ==> text_fits(#[trigger] v[i]),
    decreases n,
{
    if n == 0 {
        assert(text_items(Seq::<Seq<char>>::empty()) + s =~= s);
    } else {
        lemma_parse_text_sound(s);
        if let Some((t, r)) = parse_text(s) {
            lemma_parse_text_items_sound((n - 1) as nat, r);
            if let Some((vs, r2)) = parse_text_items((n - 1) as nat, r) {
                let v = seq![t] + vs;
                assert(v.drop_first() =~= vs);
                assert(v[0] == t);
                assert(s =~= text_items(v) + r2);
                assert forall|i: int| 0 <= i < v.len() implies text_fits(#[trigger] v[i]) by {
                    if i > 0 {
                        assert(v[i] == vs[i - 1]);
                    }
                }
            }
        }
    }
}

proof fn lemma_parse_text_list_sound(s: Seq<u8>)
    ensures
        parse_text_list(s) matches Some((v, r)) ==> s == text_list(v) + r && texts_fit(v),
{
    lemma_parse_u64_sound(s);
    if let Some((n, r)) = parse_u64(s) {
        lemma_parse_text_items_sound(n as nat, r);
        if let Some((v, r2)) = parse_text_items(n as nat, r) {
            assert(v.len() as u64 == n);
            assert(s =~= text_list(v) + r2);
        }
    }
}

proof fn lemma_parse_header_sound(s: Seq<u8>)
    ensures
        parse_header(s) matches Some((h, r)) ==> s == header_field(h) + r && header_fits(h),
{
    lemma_parse_text_sound(s);
    if let Some((name, r)) = parse_text(s) {
        lemma_parse_text_list_sound(r);
        if let Some((values, r2)) = parse_text_list(r) {
            assert(s =~= header_field(HeaderView { name, values }) + r2);
        }
    }
}

proof fn lemma_parse_header_items_sound(n: nat, s: Seq<u8>)
    ensures
        parse_header_items(n, s) matches Some((v, r)) ==> s == header_items(v) + r && v.len() == n
            && forall|i: int| 0 <= i < v.len() ==> header_fits(#[trigger] v[i]),
    decreases n,
{
    if n == 0 {
        assert(header_items(Seq::<HeaderView>::empty()) + s =~= s);
    } else {
        lemma_parse_header_sound(s);
        if let Some((h, r)) = parse_header(s) {
            lemma_parse_header_items_sound((n - 1) as nat, r);
            if let Some((vs, r2)) = parse_header_items((n - 1) as nat, r) {
                let v = seq![h] + vs;
                assert(v.drop_first() =~= vs);
                assert(v[0] == h);
                assert(s =~= header_items(v) + r2);
                assert forall|i: int| 0 <= i < v.len() implies header_fits(#[trigger] v[i]) by {
                    if i > 0 {
                        assert(v[i] == vs[i - 1]);
                    }
                }
            }
        }
    }
}

proof fn lemma_parse_header_list_sound(s: Seq<u8>)
    ensures
        parse_header_list(s) matches Some((v, r)) ==> s == header_list(v) + r && headers_fit(v),
{
    lemma_parse_u64_sound(s);
    if let Some((n, r)) = parse_u64(s) {
        lemma_parse_header_items_sound(n as nat, r);
        if let Some((v, r2)) = parse_header_items(n as nat, r) {
            assert(v.len() as u64 == n);
            assert(s =~= header_list(v) + r2);
        }
    }
}

proof fn lemma_parse_optional_bytes_sound(s: Seq<u8>)
    ensures
        parse_optional_bytes(s) matches Some((b, r)) ==> s == optional_bytes_field(b) + r && (
        b matches Some(x) ==> x.len() <= u64::MAX),
{
    if s.len() > 0 {
        assert(s =~= seq![s[0]] + s.drop_first());
        lemma_parse_bytes_sound(s.drop_first());
        if s[0] == 1 {
            if let Some((b, r)) = parse_bytes(s.drop_first()) {
                assert(s =~= optional_bytes_field(Some(b)) + r);
            }
        }
    }
}

/// A byte string decodes to a request exactly when it is that request's
/// encoding: decoding accepts nothing else, and gives back what was encoded.
pub proof fn lemma_request_codec_exact(s: Seq<u8>, v: RequestView)
    ensures
        parse_request(s) == Some(v) <==> request_fits(v) && request_bytes(v) == s,
{
    if request_fits(v) && request_bytes(v) == s {
        lemma_request_round_trip(v);
    }
    if parse_request(s) == Some(v) {
        lemma_parse_text_sound(s);
        let (m, r1) = parse_text(s).unwrap();
        lemma_parse_text_sound(r1);
        let (u, r2) = parse_text(r1).unwrap();
        lemma_parse_header_list_sound(r2);
        let (h, r3) = parse_header_list(r2).unwrap();
        lemma_parse_optional_bytes_sound(r3);
        let (b, r4) = parse_optional_bytes(r3).unwrap();
        assert(r4 =~= Seq::<u8>::empty());
        assert(s =~= request_bytes(v));
    }
}

/// A byte string decodes to a response exactly when it is that response's
/// encoding: decoding accepts nothing else, and gives back what was encoded.
pub proof fn lemma_response_codec_exact(s: Seq<u8>, v: ResponseView)
    ensures
        parse_response(s) == Some(v) <==> response_fits(v) && response_bytes(v) == s,
{
    if response_fits(v) && response_bytes(v) == s {
        lemma_response_round_trip(v);
    }
    if parse_response(s) == Some(v) {
        lemma_parse_u64_sound(s);
        let (n, r1) = parse_u64(s).unwrap();
        lemma_parse_header_list_sound(r1);
        let (h, r2) = parse_header_list(r1).unwrap();
        lemma_parse_bytes_sound(r2);
        let (b, r3) = parse_bytes(r2).unwrap();
        assert(r3 =~= Seq::<u8>::empty());
        assert(n <= u32::MAX);
        assert((n as u32 as i32) as u32 as u64 == n) by (bit_vector)
            requires
                n <= 0xffff_ffffu64,
        ;
        assert(s =~= response_bytes(v));
    }
}

proof fn lemma_parse_optional_text_sound(s: Seq<u8>)
    ensures
        parse_optional_text(s) matches Some((t, r)) ==> s == optional_text_field(t) + r && (
        t matches Some(x) ==> text_fits(x)),
{
    if s.len() > 0 {
        assert(s =~= seq![s[0]] + s.drop_first());
        lemma_parse_text_sound(s.drop_first());
        if s[0] == 1 {
            if let Some((t, r)) = parse_text(s.drop_first()) {
                assert(s =~= optional_text_field(Some(t)) + r);
            }
        }
    }
}

/// Argument bytes decode, under a capability, to a call exactly when they
/// are that call's encoding and the call goes to that capability.
pub proof fn lemma_call_codec_exact(cap: Capability, s: Seq<u8>, c: CallView)
    ensures
        parse_call_args(cap, s) == Some(c) <==> call_capability(c) == cap && call_fits(c)
            && call_args(c) == s,
{
    if call_capability(c) == cap && call_fits(c) && call_args(c) == s {
        lemma_call_round_trip(c);
    }
    if parse_call_args(cap, s) == Some(c) {
        lemma_parse_u64_sound(s);
        lemma_parse_text_sound(s);
        match cap {
            Capability::Popular | Capability::Latest => {
                let (n, r) = parse_u64(s).unwrap();
                assert(r =~= Seq::<u8>::empty());
                assert((n as i64) as u64 == n) by (bit_vector);
                assert(s =~= call_args(c));
            },
            Capability::Search => {
                let (n, r1) = parse_u64(s).unwrap();
                lemma_parse_optional_text_sound(r1);
                let (q, r2) = parse_optional_text(r1).unwrap();
                lemma_parse_optional_bytes_sound(r2);
                let (f, r3) = parse_optional_bytes(r2).unwrap();
                assert(r3 =~= Seq::<u8>::empty());
                assert((n as i64) as u64 == n) by (bit_vector);
                assert(s =~= call_args(c));
            },
            Capability::Detail | Capability::Chapters | Capability::Pages => {
                let (t, r) = parse_text(s).unwrap();
                assert(r =~= Seq::<u8>::empty());
                assert(s =~= call_args(c));
            },
            _ => {
                assert(s =~= call_args(c));
            },
        }
    }
}

/// The argument bytes for `c`'s export.
pub fn encode_call_args(c: &CapabilityCall) -> (out: Vec<u8>)
    ensures
        out@ == call_args(c@),
        call_fits(c@),
{
    let mut out: Vec<u8> = Vec::new();
    match c {
        CapabilityCall::Popular { page } => {
            put_u64(&mut out, *page as u64);
        },
        CapabilityCall::Latest { page } => {
            put_u64(&mut out, *page as u64);
        },
        CapabilityCall::Search { page, query, filters } => {
            put_u64(&mut out, *page as u64);
            match query {
                None => {
                    out.push(0u8);
                },
                Some(q) => {
                    out.push(1u8);
                    put_text(&mut out, q);
                },
            }
            match filters {
                None => {
                    out.push(0u8);
                },
                Some(f) => {
                    out.push(1u8);
                    put_bytes(&mut out, f.as_slice());
                },
            }
        },
        CapabilityCall::Detail { path } => {
            put_text(&mut out, path);
        },
        CapabilityCall::Chapters { path } => {
            put_text(&mut out, path);
        },
        CapabilityCall::Pages { path } => {
            put_text(&mut out, path);
        },
        _ => {},
    }
    assert(out@ =~= call_args(c@));
    out
}

fn read_optional_text(b: &Vec<u8>, pos: usize) -> (r: Option<(Option<String>, usize)>)
    requires
        pos <= b@.len(),
    ensures
        match r {
            Some((o, p)) => p <= b@.len() && parse_optional_text(tail(b@, pos as int)) == Some(
                (
                    match o {
                        Some(t) => Some(t@),
                        None => None,
                    },
                    tail(b@, p as int),
                ),
            ),
            None => parse_optional_text(tail(b@, pos as int)) is None,
        },
{
    if pos == b.len() {
        return None;
    }
    assert(tail(b@, pos as int).drop_first() =~= tail(b@, pos + 1));
    let tag = b[pos];
    if tag == 0 {
        Some((None, pos + 1))
    } else if tag == 1 {
        match read_text(b, pos + 1) {
            Some((t, p)) => Some((Some(t), p)),
            None => None,
        }
    } else {
        None
    }
}

/// The call that `b` holds as the arguments of capability `cap`; none when
/// `b` is not exactly one well-formed argument list for it.
pub fn decode_call_args(cap: Capability, b: &Vec<u8>) -> (r: Option<CapabilityCall>)
    ensures
        match r {
            Some(c) => parse_call_args(cap, b@) == Some(c@),
            None => parse_call_args(cap, b@) is None,
        },
{
    assert(tail(b@, 0) =~= b@);
    match cap {
        Capability::SourceInfo => if b.len() == 0 {
            Some(CapabilityCall::SourceInfo)
        } else {
            None
        },
        Capability::FilterList => if b.len() == 0 {
            Some(CapabilityCall::FilterList)
        } else {
            None
        },
        Capability::Preferences => if b.len() == 0 {
            Some(CapabilityCall::Preferences)
        } else {
            None
        },
        Capability::Popular => match read_u64(b, 0) {
            Some((n, p)) => if p == b.len() {
                Some(CapabilityCall::Popular { page: n as i64 })
            } else {
                None
            },
            None => None,
        },
        Capability::Latest => match read_u64(b, 0) {
            Some((n, p)) => if p == b.len() {
                Some(CapabilityCall::Latest { page: n as i64 })
            } else {
                None
            },
            None => None,
        },
        Capability::Search => {
            let (n, at1) = match read_u64(b, 0) {
                Some(x) => x,
                None => {
                    return None;
                },
            };
            let (query, at2) = match read_optional_text(b, at1) {
                Some(x) => x,
                None => {
                    return None;
                },
            };
            let (filters, at3) = match read_optional_bytes(b, at2) {
                Some(x) => x,
                None => {
                    return None;
                },
            };
            if at3 != b.len() {
                return None;
            }
            Some(CapabilityCall::Search { page: n as i64, query, filters })
        },
        Capability::Detail => match read_text(b, 0) {
            Some((t, p)) => if p == b.len() {
                Some(CapabilityCall::Detail { path: t })
            } else {
                None
            },
            None => None,
        },
        Capability::Chapters => match read_text(b, 0) {
            Some((t, p)) => if p == b.len() {
                Some(CapabilityCall::Chapters { path: t })
            } else {
                None
            },
            None => None,
        },
        Capability::Pages => match read_text(b, 0) {
            Some((t, p)) => if p == b.len() {
                Some(CapabilityCall::Pages { path: t })
            } else {
                None
            },
            None => None,
        },
    }
}

} // verus!
