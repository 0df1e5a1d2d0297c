use lib::{decode_chunked, find_subsequence, parse_sse_events, parse_url, HttpError, HttpRequest, HttpResponse};

#[test]
fn test_request_serialization() {
    let req = HttpRequest::post("example.com", "/api", b"hello".to_vec())
        .header("Content-Type", "text/plain");
    let bytes = req.to_bytes();
    let text = core::str::from_utf8(&bytes).unwrap();

    assert!(text.starts_with("POST /api HTTP/1.1\r\n"));
    assert!(text.contains("Host: example.com\r\n"));
    assert!(text.contains("Content-Length: 5\r\n"));
    assert!(text.contains("Content-Type: text/plain\r\n"));
    assert!(text.ends_with("\r\n\r\nhello"));
}

#[test]
fn test_response_parsing() {
    let raw = b"HTTP/1.1 200 OK\r\nContent-Length: 2\r\n\r\nhi";
    let resp = HttpResponse::parse(raw).unwrap();
    assert_eq!(resp.status, 200);
    assert_eq!(resp.reason, "OK");
    assert_eq!(resp.body, b"hi");
    assert_eq!(resp.header("content-length"), Some("2"));
}

#[test]
fn test_incomplete_response() {
    let raw = b"HTTP/1.1 200 OK\r\nContent-Length: 100\r\n\r\nhi";
    let result = HttpResponse::parse(raw);
    assert!(matches!(result, Err(HttpError::Incomplete)));
}

#[test]
fn test_chunked_decode() {
    let data = b"5\r\nhello\r\n6\r\n world\r\n0\r\n\r\n";
    let body = decode_chunked(data).unwrap();
    assert_eq!(&body, b"hello world");
}

#[test]
fn test_sse_parsing() {
    let data = b"event: content_block_delta\ndata: {\"type\":\"text\"}\n\n";
    let (events, consumed) = parse_sse_events(data);
    assert_eq!(events.len(), 1);
    assert_eq!(events[0].event, "content_block_delta");
    assert_eq!(events[0].data, "{\"type\":\"text\"}");
    assert_eq!(consumed, data.len());
}

#[test]
fn test_case_insensitive_header() {
    let raw = b"HTTP/1.1 200 OK\r\nCONTENT-TYPE: text/html\r\nContent-Length: 0\r\n\r\n";
    let resp = HttpResponse::parse(raw).unwrap();
    assert_eq!(resp.header("content-type"), Some("text/html"));
}

#[test]
fn test_get_request() {
    let req = HttpRequest::get("example.com", "/index.html");
    let bytes = req.to_bytes();
    let text = core::str::from_utf8(&bytes).unwrap();
    assert!(text.starts_with("GET /index.html HTTP/1.1\r\n"));
    assert!(text.contains("Host: example.com\r\n"));
    assert!(!text.contains("Content-Length"));
}

#[test]
fn test_url_parsing() {
    let parsed = parse_url("https://example.com/path?q=1").unwrap();
    assert!(parsed.is_https);
    assert_eq!(parsed.host, "example.com");
    assert_eq!(parsed.port, 443);
    assert_eq!(parsed.path, "/path?q=1");

    let parsed = parse_url("http://localhost:8080/api").unwrap();
    assert!(!parsed.is_https);
    assert_eq!(parsed.host, "localhost");
    assert_eq!(parsed.port, 8080);
    assert_eq!(parsed.path, "/api");
}

#[test]
fn test_response_complete_content_length() {
    let raw = b"HTTP/1.1 200 OK\r\nContent-Length: 5\r\n\r\nhello";
    let resp = HttpResponse::parse(raw).unwrap();
    assert_eq!(resp.body, b"hello");
}

#[test]
fn test_is_chunked() {
    let raw = b"HTTP/1.1 200 OK\r\nTransfer-Encoding: chunked\r\n\r\n";
    let resp = HttpResponse::parse(raw).unwrap();
    assert!(resp.is_chunked());
}

#[test]
fn test_find_subsequence() {
    assert_eq!(find_subsequence(b"hello world", b"world"), Some(6));
    assert_eq!(find_subsequence(b"hello", b"xyz"), None);
    assert_eq!(find_subsequence(b"", b"x"), None);
}

#[test]
fn readme_examples() {
    let req = HttpRequest::post("api.example.com", "/v1/data", b"{\"key\":\"value\"}".to_vec())
        .header("Content-Type", "application/json")
        .header("Authorization", "Bearer token123");
    let bytes = req.to_bytes();
    assert!(bytes.starts_with(b"POST /v1/data HTTP/1.1\r\nHost: api.example.com\r\nContent-Length: 15\r\n"));
    assert!(bytes.ends_with(b"Authorization: Bearer token123\r\n\r\n{\"key\":\"value\"}"));

    let raw = b"HTTP/1.1 200 OK\r\nContent-Length: 2\r\n\r\nOK";
    let resp = HttpResponse::parse(raw).unwrap();
    assert_eq!(resp.status, 200);
    assert_eq!(resp.body, b"OK");

    let sse_data = b"event: message\ndata: hello world\n\n";
    let (events, consumed) = parse_sse_events(sse_data);
    assert_eq!(events[0].data, "hello world");
    assert_eq!(events[0].event, "message");
    assert_eq!(consumed, sse_data.len());
}
