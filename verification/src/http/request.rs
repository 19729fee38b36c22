//! Parsing raw request bytes into a `Request` that borrows from them.
//!
//! An HTTP/1.1 request looks like:
//! ```text
//! GET /search?q=rust&lang=en HTTP/1.1\r\n
//! Host: example.com\r\n
//! Content-Type: application/json\r\n
//! \r\n
//! {"key": "value"}
//! ```
use vstd::prelude::*;
use vstd::string::*;
use vstd::utf8::*;

use std::str::Utf8Error;

use crate::http::method::{
    body_expected, lemma_method_name_bytes, lemma_method_name_roundtrip, method_from_name,
    method_name, Method, MethodError,
};
use crate::http::query_string::{all_slices_of, lemma_query_slices, query_map, QueryString};
use crate::text::{
    bytes_equal, find_byte, find_first_of, find_last_byte, first_index, first_of, is_first_of,
    is_last_of, is_slice_of, last_index, lemma_boundary_after_ascii, lemma_boundary_at_ascii,
    lemma_first_of_is, lemma_slice_subrange, lemma_slice_trans, lemma_str_bytes, split_around,
    substring,
};

verus! {

broadcast use vstd::utf8::group_utf8_lib;

#[verifier::external_type_specification]
#[verifier::external_body]
pub struct ExUtf8Error(Utf8Error);

/// `std::str::from_utf8`: per its documentation it succeeds exactly when the
/// bytes are valid UTF-8, and then the text it returns consists of those
/// bytes. Nothing is stated of the error value.
#[verifier::external_body]
fn str_from_utf8<'a>(bytes: &'a [u8]) -> (res: Result<&'a str, Utf8Error>)
    ensures
        res is Ok <==> valid_utf8(bytes@),
        res matches Ok(text) ==> text.spec_bytes() == bytes@,
{
    std::str::from_utf8(bytes)
}

/// The byte ` `.
pub const SPACE: u8 = 0x20;

/// The byte `\r`.
pub const CARRIAGE_RETURN: u8 = 0x0d;

/// The byte `?`, which starts the query part of a request target.
pub const QUESTION_MARK: u8 = 0x3f;

/// The byte `{`.
pub const OPEN_BRACE: u8 = 0x7b;

/// The byte `}`.
pub const CLOSE_BRACE: u8 = 0x7d;

/// Everything that can go wrong when parsing an HTTP request.
#[derive(Clone, Copy, Debug, PartialEq, Eq, Structural)]
pub enum ParseError {
    Request,
    Encoding,
    Protocol,
    Method,
}

/// The message of each parse error.
pub open spec fn error_message(e: ParseError) -> Seq<char> {
    match e {
        ParseError::Request => "Invalid Request"@,
        ParseError::Encoding => "Invalid Encoding"@,
        ParseError::Protocol => "Invalid Protocol"@,
        ParseError::Method => "Invalid Method"@,
    }
}

impl ParseError {
    /// A human-readable description of the error.
    pub fn message(&self) -> (res: &'static str)
        ensures
            res@ == error_message(*self),
    {
        match self {
            ParseError::Request => "Invalid Request",
            ParseError::Encoding => "Invalid Encoding",
            ParseError::Protocol => "Invalid Protocol",
            ParseError::Method => "Invalid Method",
        }
    }
}

/// Bytes that are not UTF-8 are an encoding error.
impl From<Utf8Error> for ParseError {
    fn from(_error: Utf8Error) -> (res: Self) {
        ParseError::Encoding
    }
}

impl vstd::std_specs::convert::FromSpecImpl<Utf8Error> for ParseError {
    open spec fn obeys_from_spec() -> bool {
        true
    }

    open spec fn from_spec(v: Utf8Error) -> Self {
        ParseError::Encoding
    }
}

/// An unknown method name is a method error.
impl From<MethodError> for ParseError {
    fn from(_error: MethodError) -> (res: Self) {
        ParseError::Method
    }
}

impl vstd::std_specs::convert::FromSpecImpl<MethodError> for ParseError {
    open spec fn obeys_from_spec() -> bool {
        true
    }

    open spec fn from_spec(v: MethodError) -> Self {
        ParseError::Method
    }
}

// ---------------------------------------------------------------------------
// The grammar, stated over bytes
// ---------------------------------------------------------------------------

/// The text before the first space or carriage return, and the text after it.
pub open spec fn next_token(s: Seq<u8>) -> Option<(Seq<u8>, Seq<u8>)> {
    match first_of(s, SPACE, CARRIAGE_RETURN) {
        Some(i) => Some((s.take(i), s.skip(i + 1))),
        None => None,
    }
}

/// The headers and the body: the body is the outermost `{...}` pair, from
/// the first `{` through the last `}`, and the headers are everything before
/// it. There is no body when there is no `{`, no `}`, or when the last `}`
/// comes before the first `{`.
pub open spec fn headers_and_body(c: Seq<u8>) -> Option<(Seq<u8>, Seq<u8>)> {
    match (first_index(c, OPEN_BRACE), last_index(c, CLOSE_BRACE)) {
        (Some(start), Some(end)) => if end > start {
            Some((c.take(start), c.subrange(start, end + 1)))
        } else {
            None
        },
        _ => None,
    }
}

/// The path of a request target: the part before the first `?`.
pub open spec fn target_path(t: Seq<u8>) -> Seq<u8> {
    match first_index(t, QUESTION_MARK) {
        Some(i) => t.take(i),
        None => t,
    }
}

/// The parsed query of a request target: the part after the first `?`.
pub open spec fn target_query(t: Seq<u8>) -> Option<Map<Seq<u8>, Seq<Seq<u8>>>> {
    match first_index(t, QUESTION_MARK) {
        Some(i) => Some(query_map(t.skip(i + 1))),
        None => None,
    }
}

/// The headers and body of a request with method `m` whose request line is
/// followed by `rest`: empty for methods that carry no body, and empty too when
/// no body is found.
pub open spec fn headers_and_body_for(m: Method, rest: Seq<u8>) -> (Seq<u8>, Seq<u8>) {
    if body_expected(m) {
        match headers_and_body(rest) {
            Some(hb) => hb,
            None => (Seq::empty(), Seq::empty()),
        }
    } else {
        (Seq::empty(), Seq::empty())
    }
}

/// The only protocol accepted.
pub open spec fn http_version() -> Seq<u8> {
    encode_utf8("HTTP/1.1"@)
}

/// What a parsed request is.
pub struct RequestView {
    pub path: Seq<u8>,
    pub query: Option<Map<Seq<u8>, Seq<Seq<u8>>>>,
    pub method: Method,
    pub headers: Seq<u8>,
    pub body: Seq<u8>,
}

/// The outcome of parsing the raw bytes of a request: the request or the
/// error.
pub open spec fn spec_parse_request(raw: Seq<u8>) -> Result<RequestView, ParseError> {
    if !valid_utf8(raw) {
        Err(ParseError::Encoding)
    } else {
        match next_token(raw) {
            None => Err(ParseError::Request),
            Some((method_word, after_method)) => match next_token(after_method) {
                None => Err(ParseError::Request),
                Some((target, after_target)) => match next_token(after_target) {
                    None => Err(ParseError::Request),
                    Some((protocol, rest)) => {
                        if protocol != http_version() {
                            Err(ParseError::Protocol)
                        } else {
                            match method_from_name(method_word) {
                                None => Err(ParseError::Method),
                                Some(method) => {
                                    let (headers, body) = headers_and_body_for(method, rest);
                                    Ok(
                                        RequestView {
                                            path: target_path(target),
                                            query: target_query(target),
                                            method,
                                            headers,
                                            body,
                                        },
                                    )
                                },
                            }
                        }
                    },
                },
            },
        }
    }
}

// ---------------------------------------------------------------------------
// The parser
// ---------------------------------------------------------------------------

/// Extracts the next token: the text before the first space or carriage
/// return, and the rest after that delimiter.
pub fn extract_next_token(input: &str) -> (res: Option<(&str, &str)>)
    ensures
        match res {
            Some((token, rest)) => next_token(input.spec_bytes()) == Some(
                (token.spec_bytes(), rest.spec_bytes()),
            ),
            None => next_token(input.spec_bytes()) is None,
        },
{
    match find_first_of(input.as_bytes(), SPACE, CARRIAGE_RETURN) {
        Some(byte_index) => {
            proof {
                crate::text::lemma_first_of_bounds(input.spec_bytes(), SPACE, CARRIAGE_RETURN);
            }
            let (token, remaining) = split_around(input, byte_index);
            Some((token, remaining))
        },
        None => None,
    }
}

/// Splits the content after the request line into headers and body: the
/// body is the outermost `{...}` pair, found from the first `{` through the
/// last `}`; the headers are everything before it.
pub fn split_headers_and_body(raw_content: &str) -> (res: Option<(&str, &str)>)
    ensures
        match res {
            Some((headers, body)) => headers_and_body(raw_content.spec_bytes()) == Some(
                (headers.spec_bytes(), body.spec_bytes()),
            ),
            None => headers_and_body(raw_content.spec_bytes()) is None,
        },
{
    let ghost c = raw_content.spec_bytes();
    let bytes = raw_content.as_bytes();
    let content_len = bytes.len();
    let body_start_index = match find_byte(bytes, OPEN_BRACE) {
        Some(i) => i,
        None => {
            return None;
        },
    };
    let body_end_index = match find_last_byte(bytes, CLOSE_BRACE) {
        Some(i) => i,
        None => {
            return None;
        },
    };
    if body_end_index <= body_start_index {
        return None;
    }
    proof {
        lemma_str_bytes(raw_content);
        crate::text::lemma_first_of_bounds(c, OPEN_BRACE, OPEN_BRACE);
        assert(is_last_of(c, CLOSE_BRACE, body_end_index as int)) by {
            let k = choose|k: int| is_last_of(c, CLOSE_BRACE, k);
            assert(is_last_of(c, CLOSE_BRACE, k));
        }
        lemma_boundary_at_ascii(c, body_start_index as int);
        lemma_boundary_after_ascii(c, body_end_index as int);
    }
    let headers = substring(raw_content, 0, body_start_index);
    let body = substring(raw_content, body_start_index, body_end_index + 1);
    assert(headers.spec_bytes() =~= c.take(body_start_index as int));
    Some((headers, body))
}

/// A parsed HTTP request, borrowing its parts from the raw request bytes.
#[derive(Debug)]
pub struct Request<'buf> {
    path: &'buf str,
    query_string: Option<QueryString<'buf>>,
    method: Method,
    headers: &'buf str,
    body: &'buf str,
}

/// The view of a parse outcome.
pub open spec fn outcome_view(res: Result<Request, ParseError>) -> Result<RequestView, ParseError> {
    match res {
        Ok(request) => Ok(request@),
        Err(e) => Err(e),
    }
}

impl<'buf> Request<'buf> {
    pub closed spec fn spec_view(&self) -> RequestView {
        RequestView {
            path: self.path.spec_bytes(),
            query: match self.query_string {
                Some(q) => Some(q@),
                None => None,
            },
            method: self.method,
            headers: self.headers.spec_bytes(),
            body: self.body.spec_bytes(),
        }
    }

    /// Parses raw request bytes into a `Request`.
    pub fn try_from(raw_bytes: &'buf [u8]) -> (res: Result<Request<'buf>, ParseError>)
        ensures
            outcome_view(res) == spec_parse_request(raw_bytes@),
    {
        let raw_request = match str_from_utf8(raw_bytes) {
            Ok(text) => text,
            Err(error) => {
                return Err(ParseError::from(error));
            },
        };
        let (method_str, after_method) = match extract_next_token(raw_request) {
            Some(token) => token,
            None => {
                return Err(ParseError::Request);
            },
        };
        let (target, after_target) = match extract_next_token(after_method) {
            Some(token) => token,
            None => {
                return Err(ParseError::Request);
            },
        };
        let (protocol, remaining) = match extract_next_token(after_target) {
            Some(token) => token,
            None => {
                return Err(ParseError::Request);
            },
        };
        if !bytes_equal(protocol.as_bytes(), "HTTP/1.1".as_bytes()) {
            return Err(ParseError::Protocol);
        }
        let method = match Method::from_str(method_str) {
            Ok(m) => m,
            Err(error) => {
                return Err(ParseError::from(error));
            },
        };
        let empty: &'buf str = "";
        proof {
            reveal_strlit("");
            assert(empty.spec_bytes() =~= Seq::<u8>::empty());
        }
        let (headers, body) = if method.expects_body() {
            match split_headers_and_body(remaining) {
                Some(parts) => parts,
                None => (empty, empty),
            }
        } else {
            (empty, empty)
        };
        let mut path = target;
        let mut query_string = None;
        if let Some(query_separator_index) = find_byte(target.as_bytes(), QUESTION_MARK) {
            proof {
                crate::text::lemma_first_of_bounds(
                    target.spec_bytes(),
                    QUESTION_MARK,
                    QUESTION_MARK,
                );
            }
            let (before, raw_query) = split_around(target, query_separator_index);
            query_string = Some(QueryString::from(raw_query));
            path = before;
        }
        let request = Request { path, query_string, method, headers, body };
        assert(request@ == (RequestView {
            path: target_path(target.spec_bytes()),
            query: target_query(target.spec_bytes()),
            method,
            headers: headers.spec_bytes(),
            body: body.spec_bytes(),
        }));
        Ok(request)
    }

    pub fn path(&self) -> (res: &str)
        ensures
            res.spec_bytes() == self@.path,
    {
        self.path
    }

    pub fn method(&self) -> (res: &Method)
        ensures
            *res == self@.method,
    {
        &self.method
    }

    pub fn query_string(&self) -> (res: Option<&QueryString<'buf>>)
        ensures
            match res {
                Some(q) => self@.query == Some(q@),
                None => self@.query is None,
            },
    {
        match &self.query_string {
            Some(q) => Some(q),
            None => None,
        }
    }

    pub fn headers(&self) -> (res: &str)
        ensures
            res.spec_bytes() == self@.headers,
    {
        self.headers
    }

    pub fn body(&self) -> (res: &str)
        ensures
            res.spec_bytes() == self@.body,
    {
        self.body
    }
}

impl<'buf> View for Request<'buf> {
    type V = RequestView;

    open spec fn view(&self) -> RequestView {
        self.spec_view()
    }
}

// ---------------------------------------------------------------------------
// Laws
// ---------------------------------------------------------------------------

/// `s` holds neither a space nor a carriage return.
pub open spec fn free_of_delimiters(s: Seq<u8>) -> bool {
    forall|j: int| 0 <= j < s.len() ==> #[trigger] s[j] != SPACE && s[j] != CARRIAGE_RETURN
}

/// Cutting `a d b` at its first delimiter `d` gives `a` and `b`.
proof fn lemma_next_token_of(a: Seq<u8>, d: u8, b: Seq<u8>)
    requires
        free_of_delimiters(a),
        d == SPACE || d == CARRIAGE_RETURN,
    ensures
        next_token(a + seq![d] + b) == Some((a, b)),
{
    let s = a + seq![d] + b;
    assert(is_first_of(s, SPACE, CARRIAGE_RETURN, a.len() as int)) by {
        assert forall|j: int| 0 <= j < a.len() implies #[trigger] s[j] != SPACE && s[j]
            != CARRIAGE_RETURN by {
            assert(s[j] == a[j]);
        }
    }
    lemma_first_of_is(s, SPACE, CARRIAGE_RETURN, a.len() as int);
    assert(s.take(a.len() as int) =~= a);
    assert(s.skip(a.len() as int + 1) =~= b);
}

/// A single ASCII byte is valid UTF-8.
proof fn lemma_ascii_byte_valid(c: u8)
    requires
        c < 128,
    ensures
        valid_utf8(seq![c]),
{
    reveal_with_fuel(valid_utf8, 2);
    assert(seq![c].subrange(1, 1) =~= Seq::<u8>::empty());
}

/// The bytes of `HTTP/1.1`.
proof fn lemma_http_version_bytes()
    ensures
        http_version() == seq![72u8, 84, 84, 80, 47, 49, 46, 49],
{
    reveal_strlit("HTTP/1.1");
    assert(is_ascii_chars("HTTP/1.1"@));
    assert(http_version() =~= seq![72u8, 84, 84, 80, 47, 49, 46, 49]);
}

/// Method names hold no delimiter.
proof fn lemma_method_name_free(m: Method)
    ensures
        free_of_delimiters(method_name(m)),
        valid_utf8(method_name(m)),
{
    lemma_method_name_bytes();
}

/// A request line built from a method name, a target without spaces or
/// carriage returns, and `HTTP/1.1`, followed by any further text, parses
/// back to that method and to the target's path and query, with the headers
/// and body that the further text holds for that method (none for methods
/// without a body).
pub proof fn lemma_request_line_roundtrip(m: Method, target: Seq<u8>, rest: Seq<u8>)
    requires
        free_of_delimiters(target),
        valid_utf8(target),
        valid_utf8(rest),
    ensures
        ({
            let raw = method_name(m) + seq![SPACE] + target + seq![SPACE] + http_version()
                + seq![CARRIAGE_RETURN] + rest;
            spec_parse_request(raw) == Ok::<RequestView, ParseError>(
                RequestView {
                    path: target_path(target),
                    query: target_query(target),
                    method: m,
                    headers: headers_and_body_for(m, rest).0,
                    body: headers_and_body_for(m, rest).1,
                },
            )
        }),
{
    let name = method_name(m);
    let version = http_version();
    let raw = name + seq![SPACE] + target + seq![SPACE] + version + seq![CARRIAGE_RETURN] + rest;
    lemma_method_name_free(m);
    lemma_http_version_bytes();
    lemma_ascii_byte_valid(SPACE);
    lemma_ascii_byte_valid(CARRIAGE_RETURN);
    assert(free_of_delimiters(version));
    assert(valid_utf8(version)) by {
        reveal_strlit("HTTP/1.1");
    }
    let after_target = version + seq![CARRIAGE_RETURN] + rest;
    let after_method = target + seq![SPACE] + after_target;
    assert(raw =~= name + seq![SPACE] + after_method);
    valid_utf8_concat(name, seq![SPACE]);
    valid_utf8_concat(version, seq![CARRIAGE_RETURN]);
    valid_utf8_concat(version + seq![CARRIAGE_RETURN], rest);
    valid_utf8_concat(target, seq![SPACE]);
    valid_utf8_concat(target + seq![SPACE], after_target);
    valid_utf8_concat(name + seq![SPACE], after_method);
    assert(valid_utf8(raw));
    lemma_next_token_of(name, SPACE, after_method);
    lemma_next_token_of(target, SPACE, after_target);
    lemma_next_token_of(version, CARRIAGE_RETURN, rest);
    lemma_method_name_roundtrip(m);
}

/// Cutting at the first delimiter gives pieces of the input.
proof fn lemma_token_slices(s: Seq<u8>)
    ensures
        next_token(s) matches Some((token, rest)) ==> is_slice_of(token, s) && is_slice_of(
            rest,
            s,
        ),
{
    crate::text::lemma_first_of_bounds(s, SPACE, CARRIAGE_RETURN);
    if let Some(i) = first_of(s, SPACE, CARRIAGE_RETURN) {
        lemma_slice_subrange(s, 0, i);
        lemma_slice_subrange(s, i + 1, s.len() as int);
        assert(s.take(i) =~= s.subrange(0, i));
        assert(s.skip(i + 1) =~= s.subrange(i + 1, s.len() as int));
    }
}

/// A parsed request borrows from the raw bytes: its path, headers and body,
/// and every key and value of its query, are each a contiguous piece of them.
pub proof fn lemma_parts_are_slices(raw: Seq<u8>)
    ensures
        spec_parse_request(raw) matches Ok(v) ==> {
            &&& is_slice_of(v.path, raw)
            &&& is_slice_of(v.headers, raw)
            &&& is_slice_of(v.body, raw)
            &&& v.query matches Some(m) ==> all_slices_of(m, raw)
        },
{
    if let Ok(v) = spec_parse_request(raw) {
        let (method_word, after_method) = next_token(raw).unwrap();
        let (target, after_target) = next_token(after_method).unwrap();
        let (protocol, rest) = next_token(after_target).unwrap();
        lemma_token_slices(raw);
        lemma_token_slices(after_method);
        lemma_token_slices(after_target);
        lemma_slice_trans(target, after_method, raw);
        lemma_slice_trans(after_target, after_method, raw);
        lemma_slice_trans(rest, after_target, raw);
        crate::text::lemma_first_of_bounds(target, QUESTION_MARK, QUESTION_MARK);
        if let Some(i) = first_index(target, QUESTION_MARK) {
            lemma_slice_subrange(target, 0, i);
            assert(target.take(i) =~= target.subrange(0, i));
            let raw_query = target.skip(i + 1);
            lemma_slice_subrange(target, i + 1, target.len() as int);
            assert(raw_query =~= target.subrange(i + 1, target.len() as int));
            lemma_slice_trans(raw_query, target, raw);
            lemma_query_slices(raw_query);
            let m = query_map(raw_query);
            assert forall|k: Seq<u8>| #[trigger] m.contains_key(k) implies is_slice_of(k, raw) by {
                lemma_slice_trans(k, raw_query, raw);
            }
            assert forall|k: Seq<u8>, j: int|
                m.contains_key(k) && 0 <= j < m[k].len() implies is_slice_of(
                #[trigger] m[k][j],
                raw,
            ) by {
                lemma_slice_trans(m[k][j], raw_query, raw);
            }
        } else {
            lemma_slice_subrange(target, 0, target.len() as int);
            assert(target.subrange(0, target.len() as int) =~= target);
        }
        lemma_slice_trans(v.path, target, raw);
        let empty = Seq::<u8>::empty();
        lemma_slice_subrange(raw, 0, 0);
        assert(raw.subrange(0, 0) =~= empty);
        let method = v.method;
        if body_expected(method) && headers_and_body(rest) is Some {
            let c = rest;
            crate::text::lemma_first_of_bounds(c, OPEN_BRACE, OPEN_BRACE);
            let start = first_index(c, OPEN_BRACE).unwrap();
            let end = last_index(c, CLOSE_BRACE).unwrap();
            assert(is_last_of(c, CLOSE_BRACE, end));
            lemma_slice_subrange(c, 0, start);
            assert(c.take(start) =~= c.subrange(0, start));
            lemma_slice_subrange(c, start, end + 1);
            lemma_slice_trans(v.headers, rest, raw);
            lemma_slice_trans(v.body, rest, raw);
        }
    }
}

/// In `h {mid} tail`, where `h` holds no `{` and `tail` holds no `}`, the
/// headers are `h` and the body is `{mid}`.
pub proof fn lemma_outermost_braces(h: Seq<u8>, mid: Seq<u8>, tail: Seq<u8>)
    requires
        forall|j: int| 0 <= j < h.len() ==> #[trigger] h[j] != OPEN_BRACE,
        forall|j: int| 0 <= j < tail.len() ==> #[trigger] tail[j] != CLOSE_BRACE,
    ensures
        headers_and_body(h + seq![OPEN_BRACE] + mid + seq![CLOSE_BRACE] + tail) == Some(
            (h, seq![OPEN_BRACE] + mid + seq![CLOSE_BRACE]),
        ),
{
    let c = h + seq![OPEN_BRACE] + mid + seq![CLOSE_BRACE] + tail;
    let start = h.len() as int;
    let end = h.len() + 1 + mid.len() as int;
    assert(is_first_of(c, OPEN_BRACE, OPEN_BRACE, start)) by {
        assert forall|j: int| 0 <= j < start implies #[trigger] c[j] != OPEN_BRACE && c[j]
            != OPEN_BRACE by {
            assert(c[j] == h[j]);
        }
    }
    lemma_first_of_is(c, OPEN_BRACE, OPEN_BRACE, start);
    assert(is_last_of(c, CLOSE_BRACE, end)) by {
        assert forall|j: int| end < j < c.len() implies #[trigger] c[j] != CLOSE_BRACE by {
            assert(c[j] == tail[j - end - 1]);
        }
    }
    crate::text::lemma_last_index_is(c, CLOSE_BRACE, end);
    assert(c.take(start) =~= h);
    assert(c.subrange(start, end + 1) =~= seq![OPEN_BRACE] + mid + seq![CLOSE_BRACE]);
}

/// POST, PUT and PATCH keep the body: a request line for one of them,
/// followed by text `h {mid} tail` (no `{` in `h`, no `}` in `tail`), parses
/// to headers `h` and body `{mid}`.
pub proof fn lemma_body_methods_keep_body(
    m: Method,
    target: Seq<u8>,
    h: Seq<u8>,
    mid: Seq<u8>,
    tail: Seq<u8>,
)
    requires
        m == Method::Post || m == Method::Put || m == Method::Patch,
        free_of_delimiters(target),
        valid_utf8(target),
        valid_utf8(h + seq![OPEN_BRACE] + mid + seq![CLOSE_BRACE] + tail),
        forall|j: int| 0 <= j < h.len() ==> #[trigger] h[j] != OPEN_BRACE,
        forall|j: int| 0 <= j < tail.len() ==> #[trigger] tail[j] != CLOSE_BRACE,
    ensures
        ({
            let rest = h + seq![OPEN_BRACE] + mid + seq![CLOSE_BRACE] + tail;
            let raw = method_name(m) + seq![SPACE] + target + seq![SPACE] + http_version()
                + seq![CARRIAGE_RETURN] + rest;
            spec_parse_request(raw) == Ok::<RequestView, ParseError>(
                RequestView {
                    path: target_path(target),
                    query: target_query(target),
                    method: m,
                    headers: h,
                    body: seq![OPEN_BRACE] + mid + seq![CLOSE_BRACE],
                },
            )
        }),
{
    let rest = h + seq![OPEN_BRACE] + mid + seq![CLOSE_BRACE] + tail;
    lemma_request_line_roundtrip(m, target, rest);
    lemma_outermost_braces(h, mid, tail);
}

/// The other six methods carry no body: whatever follows their request line,
/// the headers and body are empty.
pub proof fn lemma_other_methods_drop_body(m: Method, target: Seq<u8>, rest: Seq<u8>)
    requires
        m != Method::Post && m != Method::Put && m != Method::Patch,
        free_of_delimiters(target),
        valid_utf8(target),
        valid_utf8(rest),
    ensures
        ({
            let raw = method_name(m) + seq![SPACE] + target + seq![SPACE] + http_version()
                + seq![CARRIAGE_RETURN] + rest;
            spec_parse_request(raw) == Ok::<RequestView, ParseError>(
                RequestView {
                    path: target_path(target),
                    query: target_query(target),
                    method: m,
                    headers: Seq::empty(),
                    body: Seq::empty(),
                },
            )
        }),
{
    lemma_request_line_roundtrip(m, target, rest);
}

} // verus!
