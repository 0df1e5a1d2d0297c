use lib::{
    build_request, parse_response, parse_url, read_step, response_complete, BackendError,
    HeaderMap, ReadStep, SmoltcpTransportError,
};

#[test]
fn header_map_insert_get_and_order() {
    let mut m = HeaderMap::new();
    assert_eq!(m.len(), 0);
    assert_eq!(m.insert("b".to_string(), "2".to_string()), None);
    assert_eq!(m.insert("B".to_string(), "big".to_string()), None);
    assert_eq!(m.insert("a".to_string(), "1".to_string()), None);
    assert_eq!(m.len(), 3);
    assert_eq!(m.insert("b".to_string(), "two".to_string()), Some("2".to_string()));
    assert_eq!(m.len(), 3);
    assert_eq!(m.get("b"), Some(&"two".to_string()));
    assert_eq!(m.get("B"), Some(&"big".to_string()));
    assert_eq!(m.get("c"), None);
    let keys: Vec<&str> = m.entries().iter().map(|(k, _)| k.as_str()).collect();
    assert_eq!(keys, vec!["B", "a", "b"]);
}

#[test]
fn response_complete_cases() {
    assert!(!response_complete(b"HTTP/1.1 200 OK\r\nContent-Length: 2\r\n"));
    assert!(!response_complete(b"HTTP/1.1 200 OK\r\nContent-Length: 3\r\n\r\nab"));
    assert!(response_complete(b"HTTP/1.1 200 OK\r\ncontent-length:3\r\n\r\nabcd"));
    assert!(response_complete(b"HTTP/1.1 200 OK\r\nContent-Length: 0\r\n\r\n"));
    assert!(!response_complete(b"HTTP/1.1 200 OK\r\nTransfer-Encoding: chunked\r\n\r\n3\r\nabc\r\n"));
    assert!(response_complete(b"HTTP/1.1 200 OK\r\nTRANSFER-ENCODING: Chunked\r\n\r\n0\r\n\r\n"));
    assert!(!response_complete(b"HTTP/1.1 200 OK\r\nX: y\r\n\r\nanything at all"));
}

#[test]
fn read_step_outcomes() {
    let buf = [b'a', b'b', b'c', b'd'];
    let mut response = Vec::new();
    assert!(matches!(read_step(&mut response, Ok(2), &buf), ReadStep::Continue));
    assert_eq!(response, b"ab".to_vec());
    assert!(matches!(read_step(&mut response, Ok(0), &buf), ReadStep::Done));
    assert_eq!(response, b"ab".to_vec());
    assert!(matches!(read_step(&mut response, Err(BackendError::Timeout), &buf), ReadStep::Done));
    assert!(matches!(read_step(&mut response, Err(BackendError::Other("x".to_string())), &buf), ReadStep::Done));
    assert_eq!(response, b"ab".to_vec());

    let mut empty = Vec::new();
    assert!(matches!(
        read_step(&mut empty, Err(BackendError::Timeout), &buf),
        ReadStep::Fail(SmoltcpTransportError::Timeout)
    ));
    assert!(matches!(read_step(&mut empty, Err(BackendError::Eof), &buf), ReadStep::Done));
    match read_step(&mut empty, Err(BackendError::Other("oops".to_string())), &buf) {
        ReadStep::Fail(SmoltcpTransportError::HttpError(m)) => assert_eq!(m, "oops"),
        _ => panic!("expected a failure"),
    }

    let mut whole = b"HTTP/1.1 200 OK\r\nContent-Length: 2\r\n\r\n".to_vec();
    assert!(matches!(read_step(&mut whole, Ok(2), &buf), ReadStep::Done));
    assert!(whole.ends_with(b"\r\n\r\nab"));
}

#[test]
fn build_request_skips_host_and_adds_close() {
    let url = parse_url("http://api.test:81/v1").unwrap();
    let mut headers = HeaderMap::new();
    headers.insert("host".to_string(), "ignored".to_string());
    headers.insert("X-Id".to_string(), "7".to_string());
    let req = build_request("PATCH", &url, &headers, Some(b"{}"));
    assert_eq!(req.method, "POST");
    assert_eq!(req.host, "api.test");
    assert_eq!(req.path, "/v1");
    assert_eq!(req.body, Some(b"{}".to_vec()));
    assert_eq!(
        req.headers,
        vec![("X-Id".to_string(), "7".to_string()), ("Connection".to_string(), "close".to_string())]
    );
    let req = build_request("GET", &url, &headers, Some(b"q"));
    assert_eq!(req.method, "GET");
    assert_eq!(req.body, Some(b"q".to_vec()));
    let req = build_request("POST", &url, &headers, None);
    assert_eq!(req.method, "GET");
    assert_eq!(req.body, None);
}

#[test]
fn parse_response_cases() {
    let resp = parse_response(b"HTTP/1.1 200 OK\r\nB: 2\r\nA: 1\r\n\r\nxyz", "http://h/").unwrap();
    assert_eq!(resp.status, 200);
    assert_eq!(resp.body, b"xyz".to_vec());
    assert_eq!(resp.url, "http://h/");
    assert_eq!(resp.headers.get("A"), Some(&"1".to_string()));
    assert_eq!(resp.headers.get("B"), Some(&"2".to_string()));

    let resp = parse_response(
        b"HTTP/1.1 200 OK\r\nTransfer-Encoding: chunked\r\n\r\n2\r\nok\r\n0\r\n\r\n",
        "u",
    )
    .unwrap();
    assert_eq!(resp.body, b"ok".to_vec());

    match parse_response(b"HTTP/1.1 200 OK\r\n", "u") {
        Err(SmoltcpTransportError::HttpError(m)) => assert_eq!(m, "parse error: Incomplete"),
        _ => panic!("expected an HTTP error"),
    }
    match parse_response(b"HTTP/1.1 abc OK\r\n\r\n", "u") {
        Err(SmoltcpTransportError::HttpError(m)) => assert_eq!(m, "parse error: InvalidStatusLine"),
        _ => panic!("expected an HTTP error"),
    }
    match parse_response(b"HTTP/1.1 200 OK\r\nno colon\r\n\r\n", "u") {
        Err(SmoltcpTransportError::HttpError(m)) => assert_eq!(m, "parse error: InvalidHeader"),
        _ => panic!("expected an HTTP error"),
    }
}

#[test]
fn backend_error_messages() {
    assert_eq!(BackendError::DnsError("a".to_string()).message(), "DNS error: a");
    assert_eq!(BackendError::TcpError("b".to_string()).message(), "TCP error: b");
    assert_eq!(BackendError::TlsError("c".to_string()).message(), "TLS error: c");
    assert_eq!(BackendError::Timeout.message(), "timeout");
    assert_eq!(BackendError::Eof.message(), "connection closed (EOF)");
    assert_eq!(BackendError::NotReady.message(), "network not ready");
    assert_eq!(BackendError::Other("d".to_string()).message(), "d");
}

#[test]
fn transport_error_messages_and_conversion() {
    assert_eq!(SmoltcpTransportError::InvalidUrl("u".to_string()).message(), "invalid URL: u");
    assert_eq!(SmoltcpTransportError::DnsError("a".to_string()).message(), "DNS error: a");
    assert_eq!(SmoltcpTransportError::TcpError("b".to_string()).message(), "TCP error: b");
    assert_eq!(SmoltcpTransportError::TlsError("c".to_string()).message(), "TLS error: c");
    assert_eq!(SmoltcpTransportError::HttpError("d".to_string()).message(), "HTTP error: d");
    assert_eq!(SmoltcpTransportError::Timeout.message(), "request timed out");

    let t = SmoltcpTransportError::from(BackendError::Eof);
    assert_eq!(t.message(), "HTTP error: unexpected EOF");
    let t = SmoltcpTransportError::from(BackendError::DnsError("x".to_string()));
    assert_eq!(t.message(), "DNS error: x");
    let t = SmoltcpTransportError::from(BackendError::Other("y".to_string()));
    assert_eq!(t.message(), "HTTP error: y");
    assert!(matches!(SmoltcpTransportError::from(BackendError::NotReady), SmoltcpTransportError::NoNetwork));
    assert!(matches!(SmoltcpTransportError::from(BackendError::Timeout), SmoltcpTransportError::Timeout));
}
