use std::collections::VecDeque;

use lib::{
    BackendError, CallLog, ConnectionHandle, HeaderMap, NetworkBackend, SmoltcpTransport,
    SmoltcpTransportError,
};

/// A scripted backend: it answers DNS with a fixed result, records what is
/// sent, and hands out the scripted receive results one by one (then EOF).
struct Scripted {
    ready: bool,
    dns: Option<String>,
    connect_error: Option<BackendError>,
    send_error: Option<BackendError>,
    replies: VecDeque<Result<Vec<u8>, BackendError>>,
    resolved: Vec<String>,
    connected: Vec<(bool, [u8; 4], u16, String)>,
    sent: Vec<u8>,
    closed: Vec<bool>,
}

impl Scripted {
    fn new(replies: Vec<Result<Vec<u8>, BackendError>>) -> Self {
        Scripted {
            ready: true,
            dns: None,
            connect_error: None,
            send_error: None,
            replies: replies.into_iter().collect(),
            resolved: Vec::new(),
            connected: Vec::new(),
            sent: Vec::new(),
            closed: Vec::new(),
        }
    }

    fn recv(&mut self, buf: &mut [u8]) -> Result<usize, BackendError> {
        match self.replies.pop_front() {
            None => Ok(0),
            Some(Err(e)) => Err(e),
            Some(Ok(bytes)) => {
                let n = bytes.len().min(buf.len());
                buf[..n].copy_from_slice(&bytes[..n]);
                Ok(n)
            }
        }
    }
}

impl NetworkBackend for Scripted {
    fn ready(&self) -> bool {
        self.ready
    }

    fn log(&self) -> CallLog {
        unreachable!("the call log is a view for proofs; compiled code never asks for it")
    }

    fn is_ready(&self) -> bool {
        self.ready
    }

    fn dns_resolve(&mut self, hostname: &str) -> Result<[u8; 4], BackendError> {
        self.resolved.push(hostname.to_string());
        match &self.dns {
            Some(msg) => Err(BackendError::DnsError(msg.clone())),
            None => Ok([10, 0, 0, 7]),
        }
    }

    fn tcp_connect(&mut self, ip: [u8; 4], port: u16) -> Result<ConnectionHandle, BackendError> {
        self.connected.push((false, ip, port, String::new()));
        match self.connect_error.take() {
            Some(e) => Err(e),
            None => Ok(ConnectionHandle(1)),
        }
    }

    fn tcp_send(&mut self, _handle: ConnectionHandle, data: &[u8]) -> Result<(), BackendError> {
        match self.send_error.take() {
            Some(e) => Err(e),
            None => {
                self.sent.extend_from_slice(data);
                Ok(())
            }
        }
    }

    fn tcp_recv(&mut self, _handle: ConnectionHandle, buf: &mut [u8]) -> Result<usize, BackendError> {
        self.recv(buf)
    }

    fn tcp_close(&mut self, _handle: ConnectionHandle) {
        self.closed.push(false);
    }

    fn tls_connect(
        &mut self,
        ip: [u8; 4],
        port: u16,
        hostname: &str,
    ) -> Result<ConnectionHandle, BackendError> {
        self.connected.push((true, ip, port, hostname.to_string()));
        match self.connect_error.take() {
            Some(e) => Err(e),
            None => Ok(ConnectionHandle(2)),
        }
    }

    fn tls_send(&mut self, _handle: ConnectionHandle, data: &[u8]) -> Result<(), BackendError> {
        match self.send_error.take() {
            Some(e) => Err(e),
            None => {
                self.sent.extend_from_slice(data);
                Ok(())
            }
        }
    }

    fn tls_recv(&mut self, _handle: ConnectionHandle, buf: &mut [u8]) -> Result<usize, BackendError> {
        self.recv(buf)
    }

    fn tls_close(&mut self, _handle: ConnectionHandle) {
        self.closed.push(true);
    }
}

fn ok(bytes: &[u8]) -> Result<Vec<u8>, BackendError> {
    Ok(bytes.to_vec())
}

#[test]
fn http_request_over_tcp() {
    let backend = Scripted::new(vec![
        ok(b"HTTP/1.1 200 OK\r\nContent-Length: 5\r\nX-A: 1\r\n\r\nhe"),
        ok(b"llo"),
        ok(b"never read"),
    ]);
    let mut t = SmoltcpTransport::new(backend);
    let resp = t.execute_sync("GET", "http://example.com:8080/path?q=1", &HeaderMap::new(), None).unwrap();
    assert_eq!(resp.status, 200);
    assert_eq!(resp.body, b"hello".to_vec());
    assert_eq!(resp.url, "http://example.com:8080/path?q=1");
    assert_eq!(resp.headers.get("X-A"), Some(&"1".to_string()));
    assert_eq!(resp.headers.get("Content-Length"), Some(&"5".to_string()));
    assert_eq!(resp.headers.len(), 2);
    let b = t.backend();
    assert_eq!(b.resolved, vec!["example.com".to_string()]);
    assert_eq!(b.connected, vec![(false, [10, 0, 0, 7], 8080, String::new())]);
    assert_eq!(
        b.sent,
        b"GET /path?q=1 HTTP/1.1\r\nHost: example.com\r\nConnection: close\r\n\r\n".to_vec()
    );
    assert_eq!(b.closed, vec![false]);
    assert_eq!(b.replies.len(), 1);
}

#[test]
fn https_request_over_tls() {
    let backend = Scripted::new(vec![ok(b"HTTP/1.1 404 Not Found\r\nContent-Length: 0\r\n\r\n")]);
    let mut t = SmoltcpTransport::new(backend);
    let resp = t.execute_sync("GET", "https://secure.example/", &HeaderMap::new(), None).unwrap();
    assert_eq!(resp.status, 404);
    assert!(resp.body.is_empty());
    let b = t.backend();
    assert_eq!(b.connected, vec![(true, [10, 0, 0, 7], 443, "secure.example".to_string())]);
    assert_eq!(b.closed, vec![true]);
}

#[test]
fn invalid_url_is_reported_before_any_network_use() {
    let mut backend = Scripted::new(Vec::new());
    backend.ready = false;
    let mut t = SmoltcpTransport::new(backend);
    match t.execute_sync("GET", "ftp://x/", &HeaderMap::new(), None) {
        Err(SmoltcpTransportError::InvalidUrl(m)) => assert_eq!(m, "unsupported scheme in: ftp://x/"),
        _ => panic!("expected an invalid URL"),
    }
    assert!(t.backend().resolved.is_empty());
}

#[test]
fn network_not_ready() {
    let mut backend = Scripted::new(Vec::new());
    backend.ready = false;
    let mut t = SmoltcpTransport::new(backend);
    let e = t.execute_sync("GET", "http://h/", &HeaderMap::new(), None).err().unwrap();
    assert!(matches!(e, SmoltcpTransportError::NoNetwork));
    assert_eq!(e.message(), "network stack not ready (no IP)");
    assert!(t.backend().resolved.is_empty());
}

#[test]
fn dns_failure_carries_backend_message() {
    let mut backend = Scripted::new(Vec::new());
    backend.dns = Some("nxdomain".to_string());
    let mut t = SmoltcpTransport::new(backend);
    match t.execute_sync("GET", "http://nowhere.test/", &HeaderMap::new(), None) {
        Err(SmoltcpTransportError::DnsError(m)) => assert_eq!(m, "DNS error: nxdomain"),
        _ => panic!("expected a DNS error"),
    }
    assert!(t.backend().connected.is_empty());
}

#[test]
fn connect_and_send_failures() {
    let mut backend = Scripted::new(Vec::new());
    backend.connect_error = Some(BackendError::TcpError("refused".to_string()));
    let mut t = SmoltcpTransport::new(backend);
    match t.execute_sync("GET", "http://h/", &HeaderMap::new(), None) {
        Err(SmoltcpTransportError::TcpError(m)) => assert_eq!(m, "TCP error: refused"),
        _ => panic!("expected a TCP error"),
    }

    let mut backend = Scripted::new(Vec::new());
    backend.send_error = Some(BackendError::Other("broken pipe".to_string()));
    let mut t = SmoltcpTransport::new(backend);
    match t.execute_sync("GET", "https://h/", &HeaderMap::new(), None) {
        Err(SmoltcpTransportError::TlsError(m)) => assert_eq!(m, "broken pipe"),
        _ => panic!("expected a TLS error"),
    }
}

#[test]
fn timeout_before_any_byte() {
    let backend = Scripted::new(vec![Err(BackendError::Timeout)]);
    let mut t = SmoltcpTransport::new(backend);
    let e = t.execute_sync("GET", "http://h/", &HeaderMap::new(), None).err().unwrap();
    assert!(matches!(e, SmoltcpTransportError::Timeout));
    assert!(t.backend().closed.is_empty());
}

#[test]
fn partial_response_is_used_after_timeout_or_error() {
    let backend = Scripted::new(vec![
        ok(b"HTTP/1.1 200 OK\r\nX: y\r\n\r\npart"),
        Err(BackendError::Timeout),
        ok(b"not read"),
    ]);
    let mut t = SmoltcpTransport::new(backend);
    let resp = t.execute_sync("GET", "http://h/", &HeaderMap::new(), None).unwrap();
    assert_eq!(resp.body, b"part".to_vec());

    let backend = Scripted::new(vec![
        ok(b"HTTP/1.1 201 Created\r\n\r\nab"),
        Err(BackendError::TlsError("reset".to_string())),
    ]);
    let mut t = SmoltcpTransport::new(backend);
    let resp = t.execute_sync("GET", "https://h/", &HeaderMap::new(), None).unwrap();
    assert_eq!(resp.status, 201);
    assert_eq!(resp.body, b"ab".to_vec());
}

#[test]
fn receive_error_before_any_byte() {
    let backend = Scripted::new(vec![Err(BackendError::TlsError("alert".to_string()))]);
    let mut t = SmoltcpTransport::new(backend);
    match t.execute_sync("GET", "https://h/", &HeaderMap::new(), None) {
        Err(SmoltcpTransportError::TlsError(m)) => assert_eq!(m, "alert"),
        _ => panic!("expected a TLS error"),
    }

    let backend = Scripted::new(vec![Err(BackendError::NotReady)]);
    let mut t = SmoltcpTransport::new(backend);
    let e = t.execute_sync("GET", "http://h/", &HeaderMap::new(), None).err().unwrap();
    assert!(matches!(e, SmoltcpTransportError::NoNetwork));
}

#[test]
fn immediate_eof_is_a_parse_error() {
    let backend = Scripted::new(vec![Err(BackendError::Eof)]);
    let mut t = SmoltcpTransport::new(backend);
    let e = t.execute_sync("GET", "http://h/", &HeaderMap::new(), None).err().unwrap();
    match &e {
        SmoltcpTransportError::HttpError(m) => assert_eq!(m, "parse error: Incomplete"),
        _ => panic!("expected an HTTP error"),
    }
    assert_eq!(e.message(), "HTTP error: parse error: Incomplete");
}

#[test]
fn chunked_body_is_decoded() {
    let backend = Scripted::new(vec![
        ok(b"HTTP/1.1 200 OK\r\nTransfer-Encoding: chunked\r\n\r\n5\r\nhel"),
        ok(b"lo\r\n3\r\n!!!\r\n0\r\n\r\n"),
        ok(b"never read"),
    ]);
    let mut t = SmoltcpTransport::new(backend);
    let resp = t.execute_sync("GET", "http://h/", &HeaderMap::new(), None).unwrap();
    assert_eq!(resp.body, b"hello!!!".to_vec());
    assert_eq!(t.backend().replies.len(), 1);
}

#[test]
fn undecodable_chunked_body_is_kept_raw() {
    let backend = Scripted::new(vec![ok(b"HTTP/1.1 200 OK\r\nTransfer-Encoding: chunked\r\n\r\nzz\r\n")]);
    let mut t = SmoltcpTransport::new(backend);
    let resp = t.execute_sync("GET", "http://h/", &HeaderMap::new(), None).unwrap();
    assert_eq!(resp.body, b"zz\r\n".to_vec());
}

#[test]
fn repeated_response_header_keeps_last_value() {
    let backend = Scripted::new(vec![ok(b"HTTP/1.1 200 OK\r\nX-A: 1\r\nX-A: 2\r\nContent-Length: 0\r\n\r\n")]);
    let mut t = SmoltcpTransport::new(backend);
    let resp = t.execute_sync("GET", "http://h/", &HeaderMap::new(), None).unwrap();
    assert_eq!(resp.headers.get("X-A"), Some(&"2".to_string()));
    assert_eq!(resp.headers.len(), 2);
}

#[test]
fn body_turns_request_into_post_unless_get() {
    let reply = || vec![ok(b"HTTP/1.1 200 OK\r\nContent-Length: 0\r\n\r\n")];
    let mut t = SmoltcpTransport::new(Scripted::new(reply()));
    t.execute_sync("PUT", "http://h/up", &HeaderMap::new(), Some(b"abc")).unwrap();
    assert_eq!(
        t.backend().sent,
        b"POST /up HTTP/1.1\r\nHost: h\r\nContent-Length: 3\r\nConnection: close\r\n\r\nabc".to_vec()
    );

    let mut t = SmoltcpTransport::new(Scripted::new(reply()));
    t.execute_sync("GET", "http://h/q", &HeaderMap::new(), Some(b"xy")).unwrap();
    assert_eq!(
        t.backend().sent,
        b"GET /q HTTP/1.1\r\nHost: h\r\nContent-Length: 2\r\nConnection: close\r\n\r\nxy".to_vec()
    );

    let mut t = SmoltcpTransport::new(Scripted::new(reply()));
    t.execute_sync("DELETE", "http://h/d", &HeaderMap::new(), None).unwrap();
    assert_eq!(t.backend().sent, b"GET /d HTTP/1.1\r\nHost: h\r\nConnection: close\r\n\r\n".to_vec());
}

#[test]
fn caller_headers_are_forwarded_without_host() {
    let mut headers = HeaderMap::new();
    headers.insert("X-K".to_string(), "v".to_string());
    headers.insert("HOST".to_string(), "other".to_string());
    headers.insert("connection".to_string(), "keep-alive".to_string());
    headers.insert("Accept".to_string(), "*/*".to_string());
    let reply = vec![ok(b"HTTP/1.1 200 OK\r\nContent-Length: 0\r\n\r\n")];
    let mut t = SmoltcpTransport::new(Scripted::new(reply));
    t.execute_sync("GET", "http://h/", &headers, None).unwrap();
    assert_eq!(
        t.backend().sent,
        b"GET / HTTP/1.1\r\nHost: h\r\nAccept: */*\r\nX-K: v\r\nconnection: keep-alive\r\n\r\n".to_vec()
    );
}

#[test]
fn backend_accessors() {
    let mut t = SmoltcpTransport::new(Scripted::new(Vec::new()));
    assert!(t.backend().ready);
    t.backend_mut().ready = false;
    assert!(!t.backend().ready);
}
