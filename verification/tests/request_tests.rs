use lib::HttpRequest;

#[test]
fn post_request_exact_bytes() {
    let req = HttpRequest::post("api.example.com", "/v1/data", b"{\"k\":1}".to_vec())
        .header("Content-Type", "application/json")
        .header("X-Trace", "abc");
    let bytes = req.to_bytes();
    assert_eq!(
        bytes,
        b"POST /v1/data HTTP/1.1\r\nHost: api.example.com\r\nContent-Length: 7\r\nContent-Type: application/json\r\nX-Trace: abc\r\n\r\n{\"k\":1}".to_vec()
    );
}

#[test]
fn get_request_exact_bytes() {
    let req = HttpRequest::get("example.com", "/");
    assert_eq!(req.to_bytes(), b"GET / HTTP/1.1\r\nHost: example.com\r\n\r\n".to_vec());
}

#[test]
fn empty_body_has_zero_content_length() {
    let req = HttpRequest::post("h", "/p", Vec::new());
    assert_eq!(req.to_bytes(), b"POST /p HTTP/1.1\r\nHost: h\r\nContent-Length: 0\r\n\r\n".to_vec());
}

#[test]
fn content_length_of_long_body() {
    let body = vec![b'x'; 12345];
    let req = HttpRequest::post("h", "/", body);
    let bytes = req.to_bytes();
    let text = String::from_utf8(bytes).unwrap();
    assert!(text.contains("\r\nContent-Length: 12345\r\n"));
    assert_eq!(text.len(), "POST / HTTP/1.1\r\nHost: h\r\nContent-Length: 12345\r\n\r\n".len() + 12345);
}

#[test]
fn builder_keeps_headers_in_order_and_fields() {
    let req = HttpRequest::get("h", "/x").header("A", "1").header("B", "2").header("A", "3");
    assert_eq!(req.method, "GET");
    assert_eq!(req.path, "/x");
    assert_eq!(req.host, "h");
    assert!(req.body.is_none());
    let names: Vec<(String, String)> = req.headers.clone();
    assert_eq!(
        names,
        vec![
            ("A".to_string(), "1".to_string()),
            ("B".to_string(), "2".to_string()),
            ("A".to_string(), "3".to_string())
        ]
    );
}

#[test]
fn non_ascii_text_is_sent_as_utf8() {
    let req = HttpRequest::get("bücher.example", "/straße").header("X-Name", "José");
    let bytes = req.to_bytes();
    assert_eq!(
        bytes,
        "GET /straße HTTP/1.1\r\nHost: bücher.example\r\nX-Name: José\r\n\r\n".as_bytes().to_vec()
    );
}
