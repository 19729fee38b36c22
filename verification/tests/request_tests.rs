use http_server::http::method::{Method, MethodError};
use http_server::http::query_string::{QueryString, Value};
use http_server::http::request::{
    extract_next_token, split_headers_and_body, ParseError, Request,
};

fn single<'a>(q: &'a QueryString, key: &str) -> &'a str {
    match q.get(key) {
        Some(Value::Single(v)) => v,
        other => panic!("expected a single value for {key}, got {:?}", other),
    }
}

fn multiple(q: &QueryString, key: &str) -> Vec<String> {
    match q.get(key) {
        Some(Value::Multiple(vs)) => vs.iter().map(|v| v.to_string()).collect(),
        other => panic!("expected several values for {key}, got {:?}", other),
    }
}

#[test]
fn parses_get_request_with_query() {
    let raw = b"GET /search?q=rust&lang=en HTTP/1.1\r\nHost: example.com\r\n\r\n";
    let request = Request::try_from(&raw[..]).unwrap();
    assert_eq!(request.path(), "/search");
    assert_eq!(*request.method(), Method::Get);
    let query = request.query_string().unwrap();
    assert_eq!(single(query, "q"), "rust");
    assert_eq!(single(query, "lang"), "en");
    assert!(query.get("host").is_none());
    assert_eq!(request.headers(), "");
    assert_eq!(request.body(), "");
}

#[test]
fn parses_post_request_with_json_body() {
    let raw = b"POST /api HTTP/1.1\r\nContent-Type: application/json\r\n\r\n{\"key\": \"value\"}";
    let request = Request::try_from(&raw[..]).unwrap();
    assert_eq!(request.path(), "/api");
    assert_eq!(*request.method(), Method::Post);
    assert!(request.query_string().is_none());
    assert_eq!(request.headers(), "\nContent-Type: application/json\r\n\r\n");
    assert_eq!(request.body(), "{\"key\": \"value\"}");
}

#[test]
fn post_without_braces_has_empty_headers_and_body() {
    let raw = b"PUT /x HTTP/1.1\r\nHost: a\r\n\r\nplain text";
    let request = Request::try_from(&raw[..]).unwrap();
    assert_eq!(*request.method(), Method::Put);
    assert_eq!(request.headers(), "");
    assert_eq!(request.body(), "");
}

#[test]
fn get_ignores_body() {
    let raw = b"GET / HTTP/1.1\r\n\r\n{\"a\": 1}";
    let request = Request::try_from(&raw[..]).unwrap();
    assert_eq!(request.body(), "");
    assert_eq!(request.headers(), "");
}

#[test]
fn parses_zero_padded_buffer() {
    let mut buffer = [0u8; 1024];
    let line = b"GET /index.html HTTP/1.1\r\nHost: localhost\r\n\r\n";
    buffer[..line.len()].copy_from_slice(line);
    let request = Request::try_from(&buffer[..]).unwrap();
    assert_eq!(request.path(), "/index.html");
    assert_eq!(*request.method(), Method::Get);
}

#[test]
fn invalid_utf8_is_an_encoding_error() {
    let raw = b"GET /\xff HTTP/1.1\r\n";
    assert_eq!(Request::try_from(&raw[..]).unwrap_err(), ParseError::Encoding);
}

#[test]
fn missing_tokens_are_request_errors() {
    assert_eq!(Request::try_from(&b"GET"[..]).unwrap_err(), ParseError::Request);
    assert_eq!(Request::try_from(&b"GET /"[..]).unwrap_err(), ParseError::Request);
    assert_eq!(Request::try_from(&b"GET / HTTP/1.1"[..]).unwrap_err(), ParseError::Request);
    assert_eq!(Request::try_from(&b""[..]).unwrap_err(), ParseError::Request);
}

#[test]
fn wrong_protocol_is_a_protocol_error() {
    let raw = b"GET / HTTP/1.0\r\n";
    assert_eq!(Request::try_from(&raw[..]).unwrap_err(), ParseError::Protocol);
    // The protocol is checked before the method.
    let raw = b"FETCH / HTTP/2\r\n";
    assert_eq!(Request::try_from(&raw[..]).unwrap_err(), ParseError::Protocol);
}

#[test]
fn unknown_method_is_a_method_error() {
    let raw = b"FETCH / HTTP/1.1\r\n";
    assert_eq!(Request::try_from(&raw[..]).unwrap_err(), ParseError::Method);
    let raw = b"get / HTTP/1.1\r\n";
    assert_eq!(Request::try_from(&raw[..]).unwrap_err(), ParseError::Method);
}

#[test]
fn unclosed_or_reversed_braces_give_empty_body() {
    for raw in [
        &b"POST / HTTP/1.1\r\nX: {abc"[..],
        &b"POST / HTTP/1.1\r\nA: {\r\n\r\n"[..],
        &b"PATCH / HTTP/1.1\r\n} then {"[..],
    ] {
        let request = Request::try_from(raw).unwrap();
        assert_eq!(request.headers(), "");
        assert_eq!(request.body(), "");
    }
    let raw = b"GET / HTTP/1.1\r\nX: {abc";
    assert_eq!(Request::try_from(&raw[..]).unwrap().body(), "");
}

#[test]
fn body_may_start_right_after_the_request_line() {
    let raw = b"POST /p HTTP/1.1\r{\"a\": 1}";
    let request = Request::try_from(&raw[..]).unwrap();
    assert_eq!(request.headers(), "");
    assert_eq!(request.body(), "{\"a\": 1}");
}

#[test]
fn parse_outcome_does_not_depend_on_trailing_zeros() {
    let raw = b"DELETE /item?id=7 HTTP/1.1\r\n";
    let mut padded = raw.to_vec();
    padded.extend_from_slice(&[0u8; 100]);
    let plain = Request::try_from(&raw[..]).unwrap();
    let with_zeros = Request::try_from(&padded[..]).unwrap();
    assert_eq!(plain.path(), with_zeros.path());
    assert_eq!(plain.method(), with_zeros.method());
    assert_eq!(single(with_zeros.query_string().unwrap(), "id"), "7");
}

#[test]
fn extract_next_token_splits_at_space_or_carriage_return() {
    assert_eq!(extract_next_token("GET / HTTP/1.1"), Some(("GET", "/ HTTP/1.1")));
    assert_eq!(extract_next_token("HTTP/1.1\r\nHost"), Some(("HTTP/1.1", "\nHost")));
    assert_eq!(extract_next_token(" lead"), Some(("", "lead")));
    assert_eq!(extract_next_token("héllo wörld"), Some(("héllo", "wörld")));
    assert_eq!(extract_next_token("nodelimiter"), None);
    assert_eq!(extract_next_token(""), None);
}

#[test]
fn split_headers_and_body_cases() {
    assert_eq!(split_headers_and_body("\nA: b\r\n\r\n{x}"), Some(("\nA: b\r\n\r\n", "{x}")));
    assert_eq!(split_headers_and_body("{a:1}"), Some(("", "{a:1}")));
    assert_eq!(split_headers_and_body("{a}{b}"), Some(("", "{a}{b}")));
    assert_eq!(split_headers_and_body("x{a}}"), Some(("x", "{a}}")));
    assert_eq!(split_headers_and_body("x{}"), Some(("x", "{}")));
    assert_eq!(split_headers_and_body("é{ü}"), Some(("é", "{ü}")));
    assert_eq!(split_headers_and_body("no body"), None);
    assert_eq!(split_headers_and_body("{only first"), None);
    assert_eq!(split_headers_and_body("x{abc"), None);
    assert_eq!(split_headers_and_body("ab{"), None);
    assert_eq!(split_headers_and_body("}ab{"), None);
    assert_eq!(split_headers_and_body("only}"), None);
    assert_eq!(split_headers_and_body(""), None);
}

#[test]
fn parse_error_messages() {
    assert_eq!(ParseError::Request.message(), "Invalid Request");
    assert_eq!(ParseError::Encoding.message(), "Invalid Encoding");
    assert_eq!(ParseError::Protocol.message(), "Invalid Protocol");
    assert_eq!(ParseError::Method.message(), "Invalid Method");
}

#[test]
fn parse_error_conversions() {
    assert_eq!(ParseError::from(MethodError), ParseError::Method);
    let bad: &[u8] = &[0xff, 0xfe];
    let utf8_error = std::str::from_utf8(bad).unwrap_err();
    assert_eq!(ParseError::from(utf8_error), ParseError::Encoding);
}

#[test]
fn request_line_roundtrip_for_every_method() {
    let methods = [
        Method::Get,
        Method::Post,
        Method::Put,
        Method::Delete,
        Method::Patch,
        Method::Head,
        Method::Options,
        Method::Connect,
        Method::Trace,
    ];
    for m in methods {
        let raw = format!("{} /a/b?k=v&k=w HTTP/1.1\r\nHost: h\r\n\r\n", m.name());
        let request = Request::try_from(raw.as_bytes()).unwrap();
        assert_eq!(*request.method(), m);
        assert_eq!(request.path(), "/a/b");
        assert_eq!(multiple(request.query_string().unwrap(), "k"), vec!["v", "w"]);
        assert_eq!(request.headers(), "");
        assert_eq!(request.body(), "");
    }
}

#[test]
fn parts_are_pieces_of_the_raw_text() {
    let text = "POST /p?x=1 HTTP/1.1\r\nH: v\r\n\r\n{\"b\": 2}";
    let request = Request::try_from(text.as_bytes()).unwrap();
    for part in [request.path(), request.headers(), request.body()] {
        assert!(!part.is_empty());
        assert!(text.contains(part));
    }
}

#[test]
fn query_repeated_keys_become_multiple() {
    let q = QueryString::from("color=red&color=blue");
    assert_eq!(multiple(&q, "color"), vec!["red", "blue"]);
}

#[test]
fn query_single_and_multiple_mixed() {
    let q = QueryString::from("name=jhulian&lang=rust&lang=elixir&lang=go");
    assert_eq!(single(&q, "name"), "jhulian");
    assert_eq!(multiple(&q, "lang"), vec!["rust", "elixir", "go"]);
    assert!(q.get("missing").is_none());
}

#[test]
fn query_key_without_value_is_empty() {
    let q = QueryString::from("debug&verbose=1");
    assert_eq!(single(&q, "debug"), "");
    assert_eq!(single(&q, "verbose"), "1");
}

#[test]
fn query_value_keeps_later_equals_signs() {
    let q = QueryString::from("a=b=c");
    assert_eq!(single(&q, "a"), "b=c");
}

#[test]
fn query_empty_pieces() {
    let q = QueryString::from("");
    assert_eq!(single(&q, ""), "");
    let q = QueryString::from("a=1&&b=2&");
    assert_eq!(single(&q, "a"), "1");
    assert_eq!(single(&q, "b"), "2");
    assert_eq!(multiple(&q, ""), vec!["", ""]);
}

#[test]
fn query_append_adds_one_value() {
    let before = QueryString::from("x=1&y=2");
    assert_eq!(single(&before, "x"), "1");
    let after = QueryString::from("x=1&y=2&x=3");
    assert_eq!(multiple(&after, "x"), vec!["1", "3"]);
    assert_eq!(single(&after, "y"), "2");
    let new_key = QueryString::from("x=1&y=2&z=4");
    assert_eq!(single(&new_key, "z"), "4");
    assert_eq!(single(&new_key, "x"), "1");
}

#[test]
fn query_with_unicode() {
    let q = QueryString::from("ciudad=méxico&ñ=sí");
    assert_eq!(single(&q, "ciudad"), "méxico");
    assert_eq!(single(&q, "ñ"), "sí");
}
