use glasscannon::http::{HttpHeader, HttpMethod, HttpRequest, HttpResponse, HttpStatus};

#[test]
fn header_new() {
    let header = HttpHeader::new("X-Powered-By", "red bull and skittles");
    assert_eq!(header.name, "X-Powered-By");
    assert_eq!(header.value, "red bull and skittles");
}

#[test]
fn header_parse() {
    let reference = HttpHeader::new("X-Powered-By", "red bull and skittles");
    let correct = "X-Powered-By: red bull and skittles\r\n";
    assert_eq!(Ok(("", reference)), HttpHeader::parse(correct));
    let incorrect_name = "X-Powe red-By: red bull and skittles\r\n";
    assert!(HttpHeader::parse(incorrect_name).is_err());
    let incorrect_colon = "X-Powered-By red bull and skittles\r\n";
    assert!(HttpHeader::parse(incorrect_colon).is_err());
    let incorrect_newline = "X-Powered-By: red bull and skittles";
    assert!(HttpHeader::parse(incorrect_newline).is_err());
}

#[test]
fn method_parse() {
    let correct1 = "GET";
    assert_eq!(Ok(("", HttpMethod::Get)), HttpMethod::parse(correct1));
    let correct2 = "post";
    assert_eq!(Ok(("", HttpMethod::Post)), HttpMethod::parse(correct2));
    let correct3 = "puttest";
    assert_eq!(Ok(("test", HttpMethod::Put)), HttpMethod::parse(correct3));
}

#[test]
fn request_parse() {
    let correct =
        "GET / HTTP/1.1\r\nX-Powered-By: red bull and skittles\r\nserver: GlassCannon\r\n\r\n";
    assert!(HttpMethod::parse(correct).is_ok());
}

#[test]
fn unknown_method_is_rejected() {
    assert!(HttpMethod::new("FOO").is_err());
    assert!(HttpMethod::parse("FOO / HTTP/1.1\r\n\r\n").is_err());
    assert!(HttpRequest::parse("FOO / HTTP/1.1\r\n\r\n").is_err());
}

#[test]
fn request_parse_full() {
    let input = "GET /a/b.html HTTP/1.1\r\nHost: x\r\n\r\n";
    let (rest, req) = HttpRequest::parse(input).expect("parses");
    assert_eq!(rest, "");
    assert_eq!(req.method, HttpMethod::Get);
    assert_eq!(req.path, "/a/b.html");
    assert_eq!(req.version, "1.1");
    assert_eq!(req.headers.len(), 1);
    assert_eq!(req.headers[0].name, "Host");
    assert_eq!(req.headers[0].value, "x");
}

#[test]
fn request_target_is_normalized() {
    // The target is resolved against the fixed authority: dot segments are
    // removed, so an implementation that handed the raw target back would
    // fail this test.
    let input = "GET /a/../b.html HTTP/1.1\r\n\r\n";
    let (_rest, req) = HttpRequest::parse(input).expect("parses");
    assert_eq!(req.path, "/b.html");
    // A query is not part of the normalized path.
    let input2 = "GET /page?x=1 HTTP/1.1\r\n\r\n";
    let (_rest2, req2) = HttpRequest::parse(input2).expect("parses");
    assert_eq!(req2.path, "/page");
}

#[test]
fn request_missing_blank_line_fails() {
    let input = "GET / HTTP/1.1\r\nHost: x\r\n";
    assert!(HttpRequest::parse(input).is_err());
}

#[test]
fn request_round_trip() {
    let input = "GET /index.html HTTP/1.1\r\nHost: x\r\nX-Powered-By: red bull and skittles\r\n\r\n";
    let (rest, req) = HttpRequest::parse(input).expect("parses");
    assert_eq!(rest, "");
    let wire = req.emit();
    assert_eq!(wire, input.as_bytes());
    let (rest2, req2) = HttpRequest::parse(std::str::from_utf8(&wire).unwrap()).expect("reparses");
    assert_eq!(rest2, "");
    assert_eq!(req2.method, req.method);
    assert_eq!(req2.path, req.path);
    assert_eq!(req2.version, req.version);
    assert_eq!(req2.headers, req.headers);
}

#[test]
fn status_registry() {
    assert!(HttpStatus::new(200).is_ok());
    assert!(HttpStatus::new(301).is_ok());
    assert!(HttpStatus::new(400).is_ok());
    assert!(HttpStatus::new(404).is_ok());
    assert!(HttpStatus::new(123).is_err());
    assert!(HttpStatus::new(500).is_err());
    let ok = HttpStatus::new(200).unwrap();
    assert_eq!(ok.emit(), b"200 Ok".to_vec());
}

#[test]
fn method_emit_round_trip() {
    let methods = [
        HttpMethod::Get,
        HttpMethod::Head,
        HttpMethod::Post,
        HttpMethod::Put,
        HttpMethod::Delete,
        HttpMethod::Connect,
        HttpMethod::Options,
        HttpMethod::Trace,
        HttpMethod::Patch,
    ];
    for m in methods {
        let wire = m.emit();
        let text = String::from_utf8(wire).unwrap();
        let (rest, parsed) = HttpMethod::parse(&text).expect("parses");
        assert_eq!(rest, "");
        assert_eq!(parsed, m);
    }
}

#[test]
fn build_sets_content_length() {
    let mut b = HttpResponse::new();
    b.status(200);
    b.body(b"hello".to_vec());
    let resp = b.build();
    assert_eq!(resp.header_value("Content-Length"), Some("5".to_string()));
    // A body is not required: the empty body has length zero.
    let mut b2 = HttpResponse::new();
    b2.status(200);
    let resp2 = b2.build();
    assert_eq!(resp2.header_value("Content-Length"), Some("0".to_string()));
    assert_eq!(
        resp2.header_value("Content-Type"),
        Some("application/octet-stream".to_string())
    );
}

#[test]
fn build_keeps_explicit_content_type() {
    let mut b = HttpResponse::new();
    b.status(404);
    b.header("Content-Type", "text/html");
    b.body(b"gone".to_vec());
    let resp = b.build();
    assert_eq!(resp.header_value("Content-Type"), Some("text/html".to_string()));
    assert_eq!(resp.header_value("Content-Length"), Some("4".to_string()));
}

#[test]
fn response_emit_exact_bytes() {
    let mut b = HttpResponse::new();
    b.status(200);
    b.header("Content-Type", "text/html");
    b.body(b"hi".to_vec());
    let mut resp = b.build();
    resp.set_header("server", "GlassCannon");
    let wire = resp.emit();
    let expected = b"HTTP/1.1 200 Ok\r\nContent-Type: text/html\r\nContent-Length: 2\r\nserver: GlassCannon\r\n\r\nhi".to_vec();
    assert_eq!(wire, expected);
}

#[test]
fn header_emit_exact_bytes() {
    let h = HttpHeader::new("X-Powered-By", "red bull and skittles");
    assert_eq!(h.emit(), b"X-Powered-By: red bull and skittles\r\n".to_vec());
}

#[test]
fn builder_version_is_emitted() {
    let mut b = HttpResponse::new();
    b.version("1.0");
    b.status(301);
    b.header("Content-Type", "text/html");
    let resp = b.build();
    let wire = resp.emit();
    let text = String::from_utf8(wire).unwrap();
    assert!(text.starts_with("HTTP/1.0 301 Moved Permanently\r\n"));
}

#[test]
fn request_new_discards_trailing_input() {
    let req = HttpRequest::new("GET / HTTP/1.1\r\n\r\nleftover").expect("parses");
    assert_eq!(req.path, "/");
    assert!(HttpRequest::new("GET / HTTP/1.1\r\n").is_err());
}

#[test]
fn request_emit_writes_request_line_and_headers() {
    // The method keyword is matched case-insensitively and serialized in
    // upper case; the ` HTTP/` marker is matched exactly.
    let (_rest, req) = HttpRequest::parse("GeT /x.png HTTP/1.0\r\na: b\r\n\r\n").expect("parses");
    let wire = req.emit();
    assert_eq!(wire, b"GET /x.png HTTP/1.0\r\na: b\r\n\r\n".to_vec());
}

#[test]
fn request_line_takes_exactly_one_space() {
    assert!(HttpRequest::parse("GET / HTTP/1.1\r\n\r\n").is_ok());
    // A missing separator fails; an extra space belongs to the opaque
    // target, and resolution against the authority strips it.
    assert!(HttpRequest::parse("GET/ HTTP/1.1\r\n\r\n").is_err());
    let (_rest, req) = HttpRequest::parse("GET  / HTTP/1.1\r\n\r\n").expect("parses");
    assert_eq!(req.path, "/");
}

#[test]
fn duplicate_headers_are_kept_in_order() {
    let input = "GET / HTTP/1.1\r\nAccept: a\r\nAccept: b\r\n\r\n";
    let (_rest, req) = HttpRequest::parse(input).expect("parses");
    assert_eq!(req.headers.len(), 2);
    assert_eq!(req.headers[0].value, "a");
    assert_eq!(req.headers[1].value, "b");
}

#[test]
fn opaque_scheme_targets_are_rejected() {
    // A target carrying its own scheme replaces the authority whole and
    // yields a path that is not a wire-safe absolute path; the grammar
    // rejects it rather than serve from an empty or relative key.
    assert!(HttpRequest::parse("GET mailto: HTTP/1.1\r\n\r\n").is_err());
    assert!(HttpRequest::parse("GET mailto:a HTTP/1.1\r\n\r\n").is_err());
}
