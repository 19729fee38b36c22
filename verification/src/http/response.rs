//! HTTP responses and their wire form.
use vstd::prelude::*;
use vstd::string::*;
use vstd::utf8::*;

use crate::http::status_code::{reason_text, status_number, StatusCode};
use crate::text::{
    all_digits, append_bytes, decimal, decimal_text, digits_value, lemma_decimal_roundtrip,
    string_bytes, string_text,
};

verus! {

/// What a response is: its status and the UTF-8 bytes of its body, if any.
pub struct ResponseView {
    pub status_code: StatusCode,
    pub body: Option<Seq<u8>>,
}

/// An HTTP response: a status code and an optional body.
#[derive(Debug)]
pub struct Response {
    status_code: StatusCode,
    body: Option<String>,
}

/// The body bytes of an optional owned string.
pub open spec fn optional_text_bytes(body: Option<String>) -> Option<Seq<u8>> {
    match body {
        Some(b) => Some(string_bytes(&b)),
        None => None,
    }
}

/// The bytes that are sent for a body: nothing when there is none.
pub open spec fn body_or_empty(body: Option<Seq<u8>>) -> Seq<u8> {
    match body {
        Some(b) => b,
        None => Seq::empty(),
    }
}

/// `HTTP/1.1 <code> <reason>`
pub open spec fn status_line(s: StatusCode) -> Seq<u8> {
    encode_utf8("HTTP/1.1 "@) + decimal(status_number(s) as nat) + encode_utf8(" "@)
        + encode_utf8(reason_text(s))
}

/// The full message: status line, a `Content-Length` header giving the byte
/// length of the body, a blank line, then the body.
pub open spec fn response_message(r: ResponseView) -> Seq<u8> {
    let body = body_or_empty(r.body);
    status_line(r.status_code) + encode_utf8("\r\nContent-Length: "@) + decimal(body.len())
        + encode_utf8("\r\n\r\n"@) + body
}

impl Response {
    pub closed spec fn spec_view(&self) -> ResponseView {
        ResponseView { status_code: self.status_code, body: optional_text_bytes(self.body) }
    }

    pub fn new(status_code: StatusCode, body: Option<String>) -> (res: Self)
        ensures
            res@ == (ResponseView { status_code, body: optional_text_bytes(body) }),
    {
        Response { status_code, body }
    }

    /// The answer to a request that could not be parsed: 400 Bad Request,
    /// without a body.
    pub fn bad_request() -> (res: Self)
        ensures
            res@ == (ResponseView { status_code: StatusCode::BadRequest, body: None }),
    {
        Response::new(StatusCode::BadRequest, None)
    }

    pub fn status_code(&self) -> (res: StatusCode)
        ensures
            res == self@.status_code,
    {
        self.status_code
    }

    pub fn body(&self) -> (res: Option<&str>)
        ensures
            match res {
                Some(b) => self@.body == Some(b.spec_bytes()),
                None => self@.body is None,
            },
    {
        match &self.body {
            Some(content) => Some(string_text(content)),
            None => None,
        }
    }

    /// The bytes of the full HTTP/1.1 message for this response.
    pub fn to_bytes(&self) -> (res: Vec<u8>)
        ensures
            res@ == response_message(self@),
    {
        let body_content: &str = match &self.body {
            Some(content) => string_text(content),
            None => "",
        };
        proof {
            reveal_strlit("");
            assert(body_content.spec_bytes() =~= body_or_empty(self@.body));
        }
        let body_bytes = body_content.as_bytes();
        let code_text = decimal_text(self.status_code.code() as u64);
        let length_text = decimal_text(body_bytes.len() as u64);
        let mut out: Vec<u8> = Vec::new();
        append_bytes(&mut out, "HTTP/1.1 ".as_bytes());
        append_bytes(&mut out, string_text(&code_text).as_bytes());
        append_bytes(&mut out, " ".as_bytes());
        append_bytes(&mut out, self.status_code.reason_phrase().as_bytes());
        append_bytes(&mut out, "\r\nContent-Length: ".as_bytes());
        append_bytes(&mut out, string_text(&length_text).as_bytes());
        append_bytes(&mut out, "\r\n\r\n".as_bytes());
        append_bytes(&mut out, body_bytes);
        assert(out@ =~= response_message(self@));
        out
    }
}

impl View for Response {
    type V = ResponseView;

    open spec fn view(&self) -> ResponseView {
        self.spec_view()
    }
}

/// The `Content-Length` header of every response message is all digits and
/// denotes exactly the number of body bytes that follow the blank line.
pub proof fn lemma_content_length_is_body_length(r: ResponseView)
    ensures
        ({
            let body = body_or_empty(r.body);
            let length_text = decimal(body.len());
            &&& response_message(r) == status_line(r.status_code) + encode_utf8(
                "\r\nContent-Length: "@,
            ) + length_text + encode_utf8("\r\n\r\n"@) + body
            &&& all_digits(length_text)
            &&& digits_value(length_text) == body.len()
        }),
{
    lemma_decimal_roundtrip(body_or_empty(r.body).len());
}

/// The message ends with the whole body, and the `Content-Length` before it
/// denotes the body's byte length: a body `b` is sent as
/// `<status line>\r\nContent-Length: <b.len()>\r\n\r\n` followed by all of `b`.
/// A response without a body is sent with `Content-Length: 0` and nothing after
/// the blank line.
pub proof fn lemma_message_carries_whole_body(r: ResponseView)
    ensures
        r.body matches Some(b) ==> {
            &&& response_message(r) == status_line(r.status_code) + encode_utf8(
                "\r\nContent-Length: "@,
            ) + decimal(b.len()) + encode_utf8("\r\n\r\n"@) + b
            &&& response_message(r).skip(response_message(r).len() - b.len()) == b
            &&& digits_value(decimal(b.len())) == b.len()
        },
        r.body is None ==> response_message(r) == status_line(r.status_code) + encode_utf8(
            "\r\nContent-Length: "@,
        ) + seq![48u8] + encode_utf8("\r\n\r\n"@),
{
    if let Some(b) = r.body {
        lemma_decimal_roundtrip(b.len());
        let head = status_line(r.status_code) + encode_utf8("\r\nContent-Length: "@) + decimal(
            b.len(),
        ) + encode_utf8("\r\n\r\n"@);
        assert(response_message(r) == head + b);
        assert((head + b).skip(head.len() as int) =~= b);
    } else {
        let head = status_line(r.status_code) + encode_utf8("\r\nContent-Length: "@) + seq![48u8]
            + encode_utf8("\r\n\r\n"@);
        assert(decimal(0) == seq![48u8]);
        assert(response_message(r) =~= head);
    }
}

} // verus!
