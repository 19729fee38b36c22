use http_server::http::method::{Method, MethodError};
use http_server::http::request::Request;
use http_server::http::response::Response;
use http_server::http::status_code::StatusCode;
use http_server::server::{Server, MAX_REQUEST_SIZE};
use http_server::text::{decimal_text, find_byte, find_last_byte, split_around, substring};
use http_server::website_handler::WebsiteHandler;

#[test]
fn method_from_str_accepts_the_nine_names() {
    let cases = [
        ("GET", Method::Get),
        ("POST", Method::Post),
        ("PUT", Method::Put),
        ("DELETE", Method::Delete),
        ("PATCH", Method::Patch),
        ("HEAD", Method::Head),
        ("OPTIONS", Method::Options),
        ("CONNECT", Method::Connect),
        ("TRACE", Method::Trace),
    ];
    for (name, method) in cases {
        assert_eq!(Method::from_str(name), Ok(method));
        assert_eq!(name.parse::<Method>(), Ok(method));
        assert_eq!(method.name(), name);
        assert_eq!(Method::from_str(method.name()), Ok(method));
    }
}

#[test]
fn method_from_str_rejects_other_words() {
    assert_eq!(Method::from_str("get"), Err(MethodError));
    assert_eq!(Method::from_str("GETS"), Err(MethodError));
    assert_eq!(Method::from_str("GE"), Err(MethodError));
    assert_eq!(Method::from_str(""), Err(MethodError));
    assert_eq!(Method::from_str(" GET"), Err(MethodError));
}

#[test]
fn only_post_put_patch_expect_a_body() {
    assert!(Method::Post.expects_body());
    assert!(Method::Put.expects_body());
    assert!(Method::Patch.expects_body());
    assert!(!Method::Get.expects_body());
    assert!(!Method::Delete.expects_body());
    assert!(!Method::Head.expects_body());
    assert!(!Method::Options.expects_body());
    assert!(!Method::Connect.expects_body());
    assert!(!Method::Trace.expects_body());
}

#[test]
fn status_codes_and_phrases() {
    assert_eq!(StatusCode::OK.code(), 200);
    assert_eq!(StatusCode::BadRequest.code(), 400);
    assert_eq!(StatusCode::NotFound.code(), 404);
    assert_eq!(StatusCode::InternalServerError.code(), 500);
    assert_eq!(StatusCode::OK.reason_phrase(), "OK");
    assert_eq!(StatusCode::BadRequest.reason_phrase(), "Bad Request");
    assert_eq!(StatusCode::NotFound.reason_phrase(), "Not Found");
    assert_eq!(StatusCode::InternalServerError.reason_phrase(), "Internal Server Error");
}

#[test]
fn response_message_with_body() {
    let response = Response::new(StatusCode::OK, Some("hello".to_string()));
    assert_eq!(response.to_bytes(), b"HTTP/1.1 200 OK\r\nContent-Length: 5\r\n\r\nhello".to_vec());
    assert_eq!(response.status_code(), StatusCode::OK);
    assert_eq!(response.body(), Some("hello"));
}

#[test]
fn response_message_without_body() {
    let response = Response::new(StatusCode::NotFound, None);
    assert_eq!(response.to_bytes(), b"HTTP/1.1 404 Not Found\r\nContent-Length: 0\r\n\r\n".to_vec());
    assert_eq!(response.body(), None);
    let response = Response::new(StatusCode::BadRequest, None);
    assert_eq!(response.to_bytes(), b"HTTP/1.1 400 Bad Request\r\nContent-Length: 0\r\n\r\n".to_vec());
    let response = Response::new(StatusCode::InternalServerError, Some(String::new()));
    assert_eq!(
        response.to_bytes(),
        b"HTTP/1.1 500 Internal Server Error\r\nContent-Length: 0\r\n\r\n".to_vec()
    );
}

#[test]
fn content_length_counts_bytes() {
    let response = Response::new(StatusCode::OK, Some("héllo".to_string()));
    let expected = "HTTP/1.1 200 OK\r\nContent-Length: 6\r\n\r\nhéllo";
    assert_eq!(response.to_bytes(), expected.as_bytes().to_vec());
    let body = "x".repeat(1234);
    let message = Response::new(StatusCode::OK, Some(body.clone())).to_bytes();
    let text = String::from_utf8(message).unwrap();
    let header_end = text.find("\r\n\r\n").unwrap();
    let length_line = text[..header_end].split("\r\n").nth(1).unwrap();
    assert_eq!(length_line, "Content-Length: 1234");
    assert_eq!(&text[header_end + 4..], body);
}

#[test]
fn decimal_text_values() {
    assert_eq!(decimal_text(0), "0");
    assert_eq!(decimal_text(7), "7");
    assert_eq!(decimal_text(10), "10");
    assert_eq!(decimal_text(8080), "8080");
    assert_eq!(decimal_text(u64::MAX), u64::MAX.to_string());
}

#[test]
fn byte_search_and_cutting() {
    assert_eq!(find_byte(b"a&b&c", b'&'), Some(1));
    assert_eq!(find_byte(b"abc", b'&'), None);
    assert_eq!(find_last_byte(b"}a}b", b'}'), Some(2));
    assert_eq!(find_last_byte(b"", b'}'), None);
    assert_eq!(split_around("ké=vä", 3), ("ké", "vä"));
    assert_eq!(substring("añb", 1, 3), "ñ");
}

#[test]
fn server_address() {
    let server = Server::new("127.0.0.1".to_string(), 8080);
    assert_eq!(server.address(), "127.0.0.1:8080");
    let server = Server::new("localhost".to_string(), 0);
    assert_eq!(server.address(), "localhost:0");
    assert_eq!(MAX_REQUEST_SIZE, 1024);
}

#[test]
fn render_template_replaces_placeholder() {
    assert_eq!(WebsiteHandler::render_template("<pre>{-}</pre>", "{\"a\": 1}"), "<pre>{\"a\": 1}</pre>");
    assert_eq!(WebsiteHandler::render_template("{-}{-}", "ab"), "abab");
    assert_eq!(WebsiteHandler::render_template("", "ab"), "");
    assert_eq!(WebsiteHandler::render_template("{-", "ab"), "{-");
}

#[test]
fn render_template_without_placeholder_is_unchanged() {
    for template in ["plain", "{", "-}", "{ - }", "<p>é</p>"] {
        assert_eq!(WebsiteHandler::render_template(template, "ZZZ"), template);
    }
}

#[test]
fn render_template_matches_str_replace() {
    for template in ["{-{-}}", "{-}}{-}", "a{-}b{-}c", "{{-}-}", "ü{-}ö"] {
        assert_eq!(WebsiteHandler::render_template(template, "X"), template.replace("{-}", "X"));
    }
}

#[test]
fn full_path_joins_with_slash() {
    let handler = WebsiteHandler::new("/srv/public".to_string());
    assert_eq!(handler.public_path(), "/srv/public");
    assert_eq!(handler.full_path("index.html"), "/srv/public/index.html");
    assert_eq!(handler.full_path("/css/styles.css"), "/srv/public//css/styles.css");
}

fn request(raw: &[u8]) -> Request<'_> {
    Request::try_from(raw).unwrap()
}

#[test]
fn files_requested_by_route() {
    let handler = WebsiteHandler::new("/srv".to_string());
    let raw = b"GET / HTTP/1.1\r\n";
    assert_eq!(handler.file_to_read(&request(raw)), Some("index.html"));
    let raw = b"GET /css/styles.css HTTP/1.1\r\n";
    assert_eq!(handler.file_to_read(&request(raw)), Some("/css/styles.css"));
    let raw = b"GET /?x=1 HTTP/1.1\r\n";
    assert_eq!(handler.file_to_read(&request(raw)), Some("index.html"));
    let raw = b"POST / HTTP/1.1\r\n";
    assert_eq!(handler.file_to_read(&request(raw)), Some("post.html"));
    let raw = b"POST /other HTTP/1.1\r\n";
    assert_eq!(handler.file_to_read(&request(raw)), None);
    let raw = b"DELETE / HTTP/1.1\r\n";
    assert_eq!(handler.file_to_read(&request(raw)), None);
}

#[test]
fn get_responses() {
    let handler = WebsiteHandler::new("/srv".to_string());
    let raw = b"GET / HTTP/1.1\r\n";
    let r = handler.respond(&request(raw), Some("<h1>home</h1>".to_string()));
    assert_eq!((r.status_code(), r.body()), (StatusCode::OK, Some("<h1>home</h1>")));
    let r = handler.respond(&request(raw), None);
    assert_eq!((r.status_code(), r.body()), (StatusCode::OK, None));
    let raw = b"GET /missing.html HTTP/1.1\r\n";
    let r = handler.respond(&request(raw), None);
    assert_eq!((r.status_code(), r.body()), (StatusCode::NotFound, None));
    let r = handler.respond(&request(raw), Some("found".to_string()));
    assert_eq!((r.status_code(), r.body()), (StatusCode::OK, Some("found")));
}

#[test]
fn post_responses() {
    let handler = WebsiteHandler::new("/srv".to_string());
    let raw = b"POST / HTTP/1.1\r\nH: v\r\n\r\n{\"m\": \"hi\"}";
    let r = handler.respond(&request(raw), Some("<div>{-}</div>".to_string()));
    assert_eq!((r.status_code(), r.body()), (StatusCode::OK, Some("<div>{\"m\": \"hi\"}</div>")));
    let r = handler.respond(&request(raw), None);
    assert_eq!(r.body(), Some("<pre>{\"m\": \"hi\"}</pre>"));
    let raw = b"POST /echo HTTP/1.1\r\nH: v\r\n\r\n{\"m\": 1}";
    let r = handler.respond(&request(raw), None);
    assert_eq!(
        (r.status_code(), r.body()),
        (StatusCode::OK, Some("POST /echo received with body: {\"m\": 1}"))
    );
}

#[test]
fn other_methods_are_not_found() {
    let handler = WebsiteHandler::new("/srv".to_string());
    for raw in [&b"PUT / HTTP/1.1\r\n"[..], &b"HEAD / HTTP/1.1\r\n"[..], &b"TRACE /x HTTP/1.1\r\n"[..]] {
        let r = handler.respond(&request(raw), Some("ignored".to_string()));
        assert_eq!((r.status_code(), r.body()), (StatusCode::NotFound, None));
    }
}

#[test]
fn bad_request_response() {
    let r = Response::bad_request();
    assert_eq!((r.status_code(), r.body()), (StatusCode::BadRequest, None));
    assert_eq!(r.to_bytes(), b"HTTP/1.1 400 Bad Request\r\nContent-Length: 0\r\n\r\n".to_vec());
}

#[test]
fn serves_below_public_directory() {
    let handler = WebsiteHandler::new("/srv/public".to_string());
    assert!(handler.serves_below("/srv/public/index.html"));
    assert!(handler.serves_below("/srv/public/css/styles.css"));
    assert!(handler.serves_below("/srv/public"));
    assert!(!handler.serves_below("/etc/passwd"));
    assert!(!handler.serves_below("/srv/publicity/x"));
    assert!(!handler.serves_below("/srv"));
    assert!(!handler.serves_below("srv/public/x"));
}

#[test]
fn serves_below_agrees_with_path_starts_with() {
    let bases = ["/srv/public", "/srv/public/", "/", "srv", "./srv", ".", "/srv//public", "/a/./b", ""];
    let paths = [
        "/srv/public/index.html",
        "/srv/public",
        "/srv",
        "/srv/publicity",
        "/a/b/c",
        "srv/x",
        "./srv/x",
        "x",
        "/",
        ".",
        "",
        "/srv/../srv/public/x",
    ];
    for base in bases {
        let handler = WebsiteHandler::new(base.to_string());
        for path in paths {
            let expected = std::path::Path::new(path).starts_with(base);
            assert_eq!(handler.serves_below(path), expected, "base {base:?} path {path:?}");
        }
    }
}
