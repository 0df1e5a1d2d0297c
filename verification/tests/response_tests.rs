use lib::{HttpError, HttpResponse};

#[test]
fn reason_phrase_keeps_spaces() {
    let resp = HttpResponse::parse(b"HTTP/1.1 404 Not Found\r\nContent-Length: 0\r\n\r\n").unwrap();
    assert_eq!(resp.status, 404);
    assert_eq!(resp.reason, "Not Found");
    assert!(resp.body.is_empty());
}

#[test]
fn missing_reason_is_empty() {
    let resp = HttpResponse::parse(b"HTTP/1.1 204\r\n\r\n").unwrap();
    assert_eq!(resp.status, 204);
    assert_eq!(resp.reason, "");
}

#[test]
fn status_with_plus_sign() {
    let resp = HttpResponse::parse(b"HTTP/1.1 +200 OK\r\n\r\n").unwrap();
    assert_eq!(resp.status, 200);
}

#[test]
fn invalid_status_lines() {
    for raw in [
        &b"HTTP/1.1 abc OK\r\n\r\n"[..],
        &b"HTTP/1.1\r\n\r\n"[..],
        &b"HTTP/1.1 70000 Big\r\n\r\n"[..],
        &b"HTTP/1.1  200 OK\r\n\r\n"[..],
        &b"HTTP/1.1 -1 OK\r\n\r\n"[..],
        &b"HTTP/1.1 \xff OK\r\n\r\n"[..],
    ] {
        assert!(matches!(HttpResponse::parse(raw), Err(HttpError::InvalidStatusLine)));
    }
}

#[test]
fn invalid_header_lines() {
    assert!(matches!(
        HttpResponse::parse(b"HTTP/1.1 200 OK\r\nNoColonHere\r\n\r\n"),
        Err(HttpError::InvalidHeader)
    ));
    assert!(matches!(
        HttpResponse::parse(b"HTTP/1.1 200 OK\r\nX-Bad: \xc3\x28\r\n\r\n"),
        Err(HttpError::InvalidHeader)
    ));
}

#[test]
fn missing_header_end_is_incomplete() {
    assert!(matches!(
        HttpResponse::parse(b"HTTP/1.1 200 OK\r\nContent-Length: 2\r\n"),
        Err(HttpError::Incomplete)
    ));
    assert!(matches!(HttpResponse::parse(b""), Err(HttpError::Incomplete)));
}

#[test]
fn without_content_length_body_is_rest() {
    let resp = HttpResponse::parse(b"HTTP/1.1 200 OK\r\nConnection: close\r\n\r\nall of this").unwrap();
    assert_eq!(resp.body, b"all of this");
}

#[test]
fn content_length_is_trimmed_and_extra_bytes_ignored() {
    let resp = HttpResponse::parse(b"HTTP/1.1 200 OK\r\nContent-Length:  3 \r\n\r\nabcdef").unwrap();
    assert_eq!(resp.body, b"abc");
}

#[test]
fn unparsable_content_length_is_an_error() {
    assert!(matches!(
        HttpResponse::parse(b"HTTP/1.1 200 OK\r\nContent-Length: ten\r\n\r\nabcdef"),
        Err(HttpError::InvalidContentLength)
    ));
    assert!(matches!(
        HttpResponse::parse(b"HTTP/1.1 200 OK\r\nContent-Length: abc\r\n\r\nhi"),
        Err(HttpError::InvalidContentLength)
    ));
    let (_, _, _, headers) = HttpResponse::parse_headers(b"HTTP/1.1 200 OK\r\nContent-Length: ten\r\n\r\n").unwrap();
    assert_eq!(HttpResponse::content_length_from_headers(&headers), None);
}

#[test]
fn header_values_lose_leading_whitespace_only() {
    let resp = HttpResponse::parse(b"HTTP/1.1 200 OK\r\nX-A:   spaced value  \r\nX-B:\tx\r\n\r\n").unwrap();
    assert_eq!(resp.headers[0], ("X-A".to_string(), "spaced value  ".to_string()));
    assert_eq!(resp.headers[1], ("X-B".to_string(), "x".to_string()));
}

#[test]
fn empty_lines_in_header_block_are_skipped() {
    let resp = HttpResponse::parse(b"HTTP/1.1 200 OK\r\nA: b\n\nC: d\r\n\r\n").unwrap();
    assert_eq!(resp.headers.len(), 2);
    assert_eq!(resp.header("c"), Some("d"));
}

#[test]
fn parse_headers_reports_body_offset() {
    let data = b"HTTP/1.1 201 Created\r\nContent-Length: 4\r\n\r\nbody";
    let (offset, status, reason, headers) = HttpResponse::parse_headers(data).unwrap();
    assert_eq!(offset, data.len() - 4);
    assert_eq!(status, 201);
    assert_eq!(reason, "Created");
    assert_eq!(headers, vec![("Content-Length".to_string(), "4".to_string())]);
    let resp = HttpResponse::from_parts(status, reason, headers, data[offset..].to_vec());
    assert_eq!(resp.body, b"body");
    assert_eq!(resp.status, 201);
}

#[test]
fn parse_headers_incomplete() {
    assert!(matches!(HttpResponse::parse_headers(b"HTTP/1.1 200 OK\r\n"), Err(HttpError::Incomplete)));
}

#[test]
fn content_length_from_headers_takes_first_match() {
    let headers = vec![
        ("X".to_string(), "1".to_string()),
        ("CONTENT-length".to_string(), " 42".to_string()),
        ("content-length".to_string(), "7".to_string()),
    ];
    assert_eq!(HttpResponse::content_length_from_headers(&headers), Some(42));
    assert_eq!(HttpResponse::content_length_from_headers(&[]), None);
    let headers = vec![("Content-Length".to_string(), "+5".to_string())];
    assert_eq!(HttpResponse::content_length_from_headers(&headers), Some(5));
}

#[test]
fn header_lookup_first_match_and_missing() {
    let resp = HttpResponse::from_parts(
        200,
        "OK".to_string(),
        vec![("X-A".to_string(), "1".to_string()), ("x-a".to_string(), "2".to_string())],
        Vec::new(),
    );
    assert_eq!(resp.header("X-A"), Some("1"));
    assert_eq!(resp.header("x-A"), Some("1"));
    assert_eq!(resp.header("X-B"), None);
}

#[test]
fn is_chunked_variants() {
    let mk = |te: &str| {
        HttpResponse::from_parts(200, String::new(), vec![("Transfer-Encoding".to_string(), te.to_string())], Vec::new())
    };
    assert!(mk("Chunked").is_chunked());
    assert!(mk("gzip, CHUNKED").is_chunked());
    assert!(!mk("gzip").is_chunked());
    let none = HttpResponse::from_parts(200, String::new(), Vec::new(), Vec::new());
    assert!(!none.is_chunked());
}

#[test]
fn body_as_str_valid_and_invalid() {
    let ok = HttpResponse::from_parts(200, String::new(), Vec::new(), "héllo".as_bytes().to_vec());
    assert_eq!(ok.body_as_str(), "héllo");
    let bad = HttpResponse::from_parts(200, String::new(), Vec::new(), vec![0xff, 0xfe]);
    assert_eq!(bad.body_as_str(), "<non-utf8 body>");
}

#[test]
fn parse_is_stable_when_more_bytes_arrive() {
    let first = HttpResponse::parse(b"HTTP/1.1 200 OK\r\nContent-Length: 2\r\n\r\nhi").unwrap();
    let later = HttpResponse::parse(b"HTTP/1.1 200 OK\r\nContent-Length: 2\r\n\r\nhiHTTP/1.1 500 X\r\n").unwrap();
    assert_eq!(first.body, later.body);
    assert_eq!(first.status, later.status);
    assert_eq!(first.headers, later.headers);
}

#[test]
fn parse_headers_is_stable_when_more_bytes_arrive() {
    let a = HttpResponse::parse_headers(b"HTTP/1.1 200 OK\r\nA: 1\r\n\r\n").unwrap();
    let b = HttpResponse::parse_headers(b"HTTP/1.1 200 OK\r\nA: 1\r\n\r\nmore\r\n\r\n").unwrap();
    assert_eq!(a, b);
}

#[test]
fn header_lookup_case_law() {
    let resp = HttpResponse::parse(b"HTTP/1.1 200 OK\r\nETag: abc\r\n\r\n").unwrap();
    assert_eq!(resp.header("etag"), resp.header("ETAG"));
    assert_eq!(resp.header("eTaG"), Some("abc"));
}
