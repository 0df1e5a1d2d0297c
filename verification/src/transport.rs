//! HTTP/HTTPS transport over a pluggable network backend.
//!
//! [`SmoltcpTransport`] performs HTTP and HTTPS requests using a user-provided
//! [`NetworkBackend`] implementation, which keeps the transport logic apart
//! from any specific network stack.

use vstd::prelude::*;
use vstd::utf8::encode_utf8;

use crate::header_map::{pairs_to_map, HeaderMap};
use crate::http::{
    body_view, chunked_from, chunked_model, crlf_crlf, decode_chunked, header_contains_value,
    header_contains_value_model, headers_view, parse_content_length_from_raw,
    raw_content_length_model, request_bytes, response_model, HttpError, HttpRequest, HttpResponse,
};
use crate::text::{
    chars_eq_ignore_ascii_case, chars_of, concat_str, eq_ignore_ascii_case, find_seq,
    find_subsequence,
};
use crate::url::{parse_url, url_model, ParsedUrl};

verus! {

// ---------------------------------------------------------------------------
// Network backend trait
// ---------------------------------------------------------------------------

/// Errors that a [`NetworkBackend`] implementation can return.
#[derive(Debug)]
pub enum BackendError {
    /// DNS resolution failed.
    DnsError(String),
    /// TCP connection failed.
    TcpError(String),
    /// TLS error (handshake, send, recv).
    TlsError(String),
    /// Read timed out.
    Timeout,
    /// Connection closed by peer (EOF).
    Eof,
    /// The network stack is not ready (e.g. DHCP not complete).
    NotReady,
    /// Other error.
    Other(String),
}

/// The human-readable description of a backend error.
pub open spec fn backend_error_message(e: BackendError) -> Seq<char> {
    match e {
        BackendError::DnsError(msg) => "DNS error: "@ + msg@,
        BackendError::TcpError(msg) => "TCP error: "@ + msg@,
        BackendError::TlsError(msg) => "TLS error: "@ + msg@,
        BackendError::Timeout => "timeout"@,
        BackendError::Eof => "connection closed (EOF)"@,
        BackendError::NotReady => "network not ready"@,
        BackendError::Other(msg) => msg@,
    }
}

impl BackendError {
    /// The human-readable description of this error.
    pub fn message(&self) -> (r: String)
        ensures
            r@ == backend_error_message(*self),
    {
        match self {
            BackendError::DnsError(msg) => concat_str("DNS error: ", msg.as_str()),
            BackendError::TcpError(msg) => concat_str("TCP error: ", msg.as_str()),
            BackendError::TlsError(msg) => concat_str("TLS error: ", msg.as_str()),
            BackendError::Timeout => "timeout".to_string(),
            BackendError::Eof => "connection closed (EOF)".to_string(),
            BackendError::NotReady => "network not ready".to_string(),
            BackendError::Other(msg) => msg.clone(),
        }
    }
}

/// Opaque connection handle returned by [`NetworkBackend`].
///
/// The backend assigns meaning to the handle value; the transport treats
/// it as an opaque identifier.
#[derive(Debug, Clone, Copy)]
pub struct ConnectionHandle(pub usize);

/// The network operations needed by [`SmoltcpTransport`].
///
/// Implement this trait for your smoltcp-based (or other) network stack.
/// The transport calls these methods to perform DNS resolution, establish
/// TCP/TLS connections, and send/receive data.
///
/// Each method that changes the backend appends one entry to `log`, holding
/// exactly the arguments it was given and the result it returned; a verified
/// implementation keeps that log as ghost state. The transport's contracts
/// are stated over this log, so what they say of the calls made holds of any
/// implementation that keeps these promises.
pub trait NetworkBackend {
    /// Whether the network stack has an IP address and is ready, as
    /// `is_ready` reports it.
    spec fn ready(&self) -> bool;

    /// The calls made on this backend that change it, oldest first: what each
    /// was handed and what it returned. This view exists for proofs only:
    /// compiled code never calls it.
    spec fn log(&self) -> CallLog;

    /// Returns `true` if the network stack has an IP address and is ready.
    fn is_ready(&self) -> (r: bool)
        ensures
            r == self.ready(),
    ;

    /// Resolve a hostname to an IPv4 address (as 4 bytes).
    fn dns_resolve(&mut self, hostname: &str) -> (r: Result<[u8; 4], BackendError>)
        ensures
            final(self).log() == old(self).log().push(BackendCall::Resolve(hostname@, r)),
    ;

    /// Open a plaintext TCP connection to the given IPv4 address and port.
    ///
    /// Returns a connection handle that can be used with `tcp_send`,
    /// `tcp_recv`, and `tcp_close`.
    fn tcp_connect(&mut self, ip: [u8; 4], port: u16) -> (r: Result<ConnectionHandle, BackendError>)
        ensures
            final(self).log() == old(self).log().push(BackendCall::TcpConnect(ip, port, r)),
    ;

    /// Send data over a plaintext TCP connection.
    fn tcp_send(&mut self, handle: ConnectionHandle, data: &[u8]) -> (r: Result<(), BackendError>)
        ensures
            final(self).log() == old(self).log().push(BackendCall::TcpSend(handle, data@, r)),
    ;

    /// Receive data from a plaintext TCP connection.
    ///
    /// Returns the number of bytes read into `buf`.  Returns `Ok(0)` on EOF.
    fn tcp_recv(&mut self, handle: ConnectionHandle, buf: &mut [u8]) -> (r: Result<usize, BackendError>)
        ensures
            r matches Ok(n) ==> n <= old(buf)@.len(),
            final(self).log() == old(self).log().push(
                BackendCall::TcpRecv(handle, old(buf)@.len(), delivered(r, final(buf)@)),
            ),
    ;

    /// Close a plaintext TCP connection.
    fn tcp_close(&mut self, handle: ConnectionHandle)
        ensures
            final(self).log() == old(self).log().push(BackendCall::TcpClose(handle)),
    ;

    /// Open a TLS connection to the given IPv4 address, port, and hostname.
    ///
    /// The implementation should perform the TLS handshake before returning.
    /// Returns a connection handle for TLS send/recv/close.
    fn tls_connect(&mut self, ip: [u8; 4], port: u16, hostname: &str) -> (r: Result<
        ConnectionHandle,
        BackendError,
    >)
        ensures
            final(self).log() == old(self).log().push(BackendCall::TlsConnect(ip, port, hostname@, r)),
    ;

    /// Send data over a TLS connection.
    fn tls_send(&mut self, handle: ConnectionHandle, data: &[u8]) -> (r: Result<(), BackendError>)
        ensures
            final(self).log() == old(self).log().push(BackendCall::TlsSend(handle, data@, r)),
    ;

    /// Receive data from a TLS connection.
    ///
    /// Returns the number of bytes read into `buf`.  Returns `Ok(0)` on EOF.
    fn tls_recv(&mut self, handle: ConnectionHandle, buf: &mut [u8]) -> (r: Result<usize, BackendError>)
        ensures
            r matches Ok(n) ==> n <= old(buf)@.len(),
            final(self).log() == old(self).log().push(
                BackendCall::TlsRecv(handle, old(buf)@.len(), delivered(r, final(buf)@)),
            ),
    ;

    /// Close a TLS connection.
    fn tls_close(&mut self, handle: ConnectionHandle)
        ensures
            final(self).log() == old(self).log().push(BackendCall::TlsClose(handle)),
    ;
}

// ---------------------------------------------------------------------------
// Error type
// ---------------------------------------------------------------------------

/// Errors from the transport layer.
#[derive(Debug)]
pub enum SmoltcpTransportError {
    /// Failed to parse the request URL.
    InvalidUrl(String),
    /// DNS resolution failed.
    DnsError(String),
    /// TCP connection failed.
    TcpError(String),
    /// TLS error (handshake, send, recv).
    TlsError(String),
    /// HTTP response parsing failed.
    HttpError(String),
    /// The network stack does not have an IP address yet (DHCP incomplete).
    NoNetwork,
    /// Request timed out.
    Timeout,
}

/// The human-readable description of a transport error.
pub open spec fn transport_error_message(e: SmoltcpTransportError) -> Seq<char> {
    match e {
        SmoltcpTransportError::InvalidUrl(msg) => "invalid URL: "@ + msg@,
        SmoltcpTransportError::DnsError(msg) => "DNS error: "@ + msg@,
        SmoltcpTransportError::TcpError(msg) => "TCP error: "@ + msg@,
        SmoltcpTransportError::TlsError(msg) => "TLS error: "@ + msg@,
        SmoltcpTransportError::HttpError(msg) => "HTTP error: "@ + msg@,
        SmoltcpTransportError::NoNetwork => "network stack not ready (no IP)"@,
        SmoltcpTransportError::Timeout => "request timed out"@,
    }
}

/// What a transport error says: its kind and its message.
pub ghost enum TransportFailure {
    InvalidUrl(Seq<char>),
    Dns(Seq<char>),
    Tcp(Seq<char>),
    Tls(Seq<char>),
    Http(Seq<char>),
    NoNetwork,
    Timeout,
}

impl View for SmoltcpTransportError {
    type V = TransportFailure;

    open spec fn view(&self) -> TransportFailure {
        match self {
            SmoltcpTransportError::InvalidUrl(msg) => TransportFailure::InvalidUrl(msg@),
            SmoltcpTransportError::DnsError(msg) => TransportFailure::Dns(msg@),
            SmoltcpTransportError::TcpError(msg) => TransportFailure::Tcp(msg@),
            SmoltcpTransportError::TlsError(msg) => TransportFailure::Tls(msg@),
            SmoltcpTransportError::HttpError(msg) => TransportFailure::Http(msg@),
            SmoltcpTransportError::NoNetwork => TransportFailure::NoNetwork,
            SmoltcpTransportError::Timeout => TransportFailure::Timeout,
        }
    }
}

/// How a backend error becomes a transport error: the same kind of failure
/// with the same message, a timeout stays a timeout, EOF becomes an HTTP error
/// "unexpected EOF", "not ready" becomes "no network", and any other error an
/// HTTP error with its message.
pub open spec fn failure_of(e: BackendError) -> TransportFailure {
    match e {
        BackendError::DnsError(msg) => TransportFailure::Dns(msg@),
        BackendError::TcpError(msg) => TransportFailure::Tcp(msg@),
        BackendError::TlsError(msg) => TransportFailure::Tls(msg@),
        BackendError::Timeout => TransportFailure::Timeout,
        BackendError::Eof => TransportFailure::Http("unexpected EOF"@),
        BackendError::NotReady => TransportFailure::NoNetwork,
        BackendError::Other(msg) => TransportFailure::Http(msg@),
    }
}

impl SmoltcpTransportError {
    /// The human-readable description of this error.
    pub fn message(&self) -> (r: String)
        ensures
            r@ == transport_error_message(*self),
    {
        match self {
            SmoltcpTransportError::InvalidUrl(msg) => concat_str("invalid URL: ", msg.as_str()),
            SmoltcpTransportError::DnsError(msg) => concat_str("DNS error: ", msg.as_str()),
            SmoltcpTransportError::TcpError(msg) => concat_str("TCP error: ", msg.as_str()),
            SmoltcpTransportError::TlsError(msg) => concat_str("TLS error: ", msg.as_str()),
            SmoltcpTransportError::HttpError(msg) => concat_str("HTTP error: ", msg.as_str()),
            SmoltcpTransportError::NoNetwork => "network stack not ready (no IP)".to_string(),
            SmoltcpTransportError::Timeout => "request timed out".to_string(),
        }
    }
}

impl From<BackendError> for SmoltcpTransportError {
    /// The transport error that a backend error stands for.
    fn from(e: BackendError) -> (r: Self)
        ensures
            r@ == failure_of(e),
    {
        match e {
            BackendError::DnsError(msg) => SmoltcpTransportError::DnsError(msg),
            BackendError::TcpError(msg) => SmoltcpTransportError::TcpError(msg),
            BackendError::TlsError(msg) => SmoltcpTransportError::TlsError(msg),
            BackendError::Timeout => SmoltcpTransportError::Timeout,
            BackendError::Eof => SmoltcpTransportError::HttpError("unexpected EOF".to_string()),
            BackendError::NotReady => SmoltcpTransportError::NoNetwork,
            BackendError::Other(msg) => SmoltcpTransportError::HttpError(msg),
        }
    }
}

/// The conversion's result is stated by the `ensures` of `from` above, over
/// the error's view; `from_spec` names a value with that view, and no claim is
/// made that `from` returns that very value.
impl vstd::std_specs::convert::FromSpecImpl<BackendError> for SmoltcpTransportError {
    open spec fn obeys_from_spec() -> bool {
        false
    }

    open spec fn from_spec(e: BackendError) -> SmoltcpTransportError {
        choose|t: SmoltcpTransportError| t@ == failure_of(e)
    }
}

// ---------------------------------------------------------------------------
// Response type
// ---------------------------------------------------------------------------

/// HTTP response from the transport layer.
pub struct SmoltcpResponse {
    /// HTTP status code.
    pub status: u16,
    /// Response headers.
    pub headers: HeaderMap,
    /// Decoded response body.
    pub body: Vec<u8>,
    /// The request URL (no redirect following in this implementation).
    pub url: String,
}

impl SmoltcpResponse {
    /// Status, headers and decoded body.
    pub open spec fn model(&self) -> (u16, Map<Seq<char>, Seq<char>>, Seq<u8>) {
        (self.status, self.headers@, self.body@)
    }
}

/// How `{:?}` prints an [`HttpError`].
pub open spec fn http_error_name(e: HttpError) -> Seq<char> {
    match e {
        HttpError::Incomplete => "Incomplete"@,
        HttpError::InvalidStatusLine => "InvalidStatusLine"@,
        HttpError::InvalidHeader => "InvalidHeader"@,
        HttpError::InvalidContentLength => "InvalidContentLength"@,
        HttpError::TooLarge => "TooLarge"@,
    }
}

fn http_error_name_exec(e: &HttpError) -> (r: &'static str)
    ensures
        r@ == http_error_name(*e),
{
    match e {
        HttpError::Incomplete => "Incomplete",
        HttpError::InvalidStatusLine => "InvalidStatusLine",
        HttpError::InvalidHeader => "InvalidHeader",
        HttpError::InvalidContentLength => "InvalidContentLength",
        HttpError::TooLarge => "TooLarge",
    }
}

/// The body a response delivers: the chunked decoding when the response is
/// chunked and decodes, the raw body otherwise.
pub open spec fn delivered_body(hs: Seq<(Seq<char>, Seq<char>)>, body: Seq<u8>) -> Seq<u8> {
    if chunked_model(hs) {
        match chunked_from(body, 0) {
            Ok(decoded) => decoded,
            Err(_) => body,
        }
    } else {
        body
    }
}

/// What the transport makes of the bytes it received: the status, the headers
/// as a map (a later header replaces an earlier one of the same name) and the
/// delivered body, or the message of an HTTP error when the bytes do not parse
/// as a response.
pub open spec fn transport_response_model(raw: Seq<u8>) -> Result<
    (u16, Map<Seq<char>, Seq<char>>, Seq<u8>),
    Seq<char>,
> {
    match response_model(raw) {
        Err(e) => Err("parse error: "@ + http_error_name(e)),
        Ok((status, _reason, hs, body)) => Ok((status, pairs_to_map(hs), delivered_body(hs, body))),
    }
}

/// Parse raw HTTP response bytes into a transport response for `url`.
pub fn parse_response(raw: &[u8], url: &str) -> (r: Result<SmoltcpResponse, SmoltcpTransportError>)
    ensures
        answers(raw@, url@, r),
{
    let resp = match HttpResponse::parse(raw) {
        Ok(resp) => resp,
        Err(e) => {
            let name = http_error_name_exec(&e);
            return Err(SmoltcpTransportError::HttpError(concat_str("parse error: ", name)));
        },
    };
    let chunked = resp.is_chunked();
    let HttpResponse { status, reason: _, headers, body } = resp;
    let body = if chunked {
        match decode_chunked(body.as_slice()) {
            Ok(decoded) => decoded,
            Err(_) => body,
        }
    } else {
        body
    };
    let ghost hs = headers_view(headers@);
    let mut map = HeaderMap::new();
    let mut i: usize = 0;
    while i < headers.len()
        invariant
            i <= headers@.len(),
            hs == headers_view(headers@),
            map@ == pairs_to_map(hs.take(i as int)),
        decreases headers@.len() - i,
    {
        map.insert(headers[i].0.clone(), headers[i].1.clone());
        assert(hs.take(i + 1).drop_last() =~= hs.take(i as int));
        i = i + 1;
    }
    assert(hs.take(i as int) =~= hs);
    Ok(SmoltcpResponse { status, headers: map, body, url: url.to_string() })
}

// ---------------------------------------------------------------------------
// Reading a response
// ---------------------------------------------------------------------------

/// Whether received bytes hold a complete response: the header block is
/// complete, and either the body has reached the `Content-Length`, or the
/// response is chunked and the body holds the terminating `0\r\n\r\n`.
/// Without either framing the response ends when the peer closes.
pub open spec fn response_complete_model(data: Seq<u8>) -> bool {
    match find_seq(data, crlf_crlf()) {
        None => false,
        Some(he) => {
            let headers = data.take(he);
            let body = data.skip(he + 4);
            match raw_content_length_model(headers) {
                Some(cl) => body.len() >= cl,
                None => if header_contains_value_model(
                    headers,
                    encode_utf8("transfer-encoding"@),
                    encode_utf8("chunked"@),
                ) {
                    crate::http::find_nonempty(body, encode_utf8("0\r\n\r\n"@)) is Some
                } else {
                    false
                },
            }
        },
    }
}

/// Check whether the raw response bytes contain a complete HTTP response.
pub fn response_complete(data: &[u8]) -> (r: bool)
    ensures
        r == response_complete_model(data@),
{
    proof {
        crate::text::lemma_find_from(data@, crlf_crlf(), 0);
    }
    let pat: [u8; 4] = [13, 10, 13, 10];
    assert(pat@ =~= crlf_crlf());
    let header_end = match find_subsequence(data, &pat) {
        Some(pos) => pos,
        None => return false,
    };
    let n = data.len();
    let headers = &data[0..header_end];
    assert(headers@ =~= data@.take(header_end as int));
    let body = &data[header_end + 4..n];
    assert(body@ =~= data@.skip(header_end + 4));
    match parse_content_length_from_raw(headers) {
        Some(cl) => body.len() >= cl,
        None => {
            if header_contains_value(headers, "transfer-encoding".as_bytes(), "chunked".as_bytes()) {
                find_subsequence(body, "0\r\n\r\n".as_bytes()).is_some()
            } else {
                false
            }
        },
    }
}

/// The last chunk that ends a chunked body: `0\r\n\r\n`.
pub open spec fn last_chunk() -> Seq<u8> {
    seq![48u8, 13u8, 10u8, 13u8, 10u8]
}

/// Reading a chunked response (no `Content-Length`) stops exactly when the
/// body holds the last chunk `0\r\n\r\n`: never in the middle of a chunked
/// body that has not reached it, for instance after a chunk whose size line
/// ends in `0\r\n`.
pub proof fn chunked_response_complete_only_with_last_chunk(headers: Seq<u8>, body: Seq<u8>)
    requires
        find_seq(headers + crlf_crlf(), crlf_crlf()) == Some(headers.len() as int),
        raw_content_length_model(headers) is None,
        header_contains_value_model(headers, encode_utf8("transfer-encoding"@), encode_utf8("chunked"@)),
    ensures
        response_complete_model(headers + crlf_crlf() + body) <==> exists|i: int|
            0 <= i && i + 5 <= body.len() && #[trigger] body.subrange(i, i + 5) == last_chunk(),
{
    reveal_strlit("0\r\n\r\n");
    let data = headers + crlf_crlf() + body;
    let h = headers.len() as int;
    crate::text::lemma_find_from(headers + crlf_crlf(), crlf_crlf(), 0);
    crate::text::lemma_find_from_extend(headers + crlf_crlf(), body, crlf_crlf(), 0);
    assert(find_seq(data, crlf_crlf()) == Some(h));
    assert(data.take(h) =~= headers);
    assert(data.skip(h + 4) =~= body);
    let cs = "0\r\n\r\n"@;
    crate::http::lemma_encode_ascii(cs);
    assert(encode_utf8(cs) =~= last_chunk());
    crate::text::lemma_find_from(body, last_chunk(), 0);
    if exists|i: int| 0 <= i && i + 5 <= body.len() && #[trigger] body.subrange(i, i + 5) == last_chunk() {
        let i = choose|i: int| 0 <= i && i + 5 <= body.len() && #[trigger] body.subrange(i, i + 5) == last_chunk();
        assert(crate::text::matches_at(body, last_chunk(), i));
    }
    match find_seq(body, last_chunk()) {
        Some(k) => {
            assert(body.subrange(k, k + 5) == last_chunk());
        },
        None => {},
    }
}

/// Where reading a response stands: still reading with the bytes so far,
/// done with the response bytes, failed, or past its end (a receive after
/// reading stopped).
pub ghost enum ReadState {
    Reading(Seq<u8>),
    Done(Seq<u8>),
    Failed(TransportFailure),
    Stray,
}

/// One receive while reading: its bytes are appended; an empty receive, EOF,
/// or a complete response ends reading; an error ends it too once some bytes
/// arrived, and fails it before any byte did.
pub open spec fn read_next(st: ReadState, got: Result<Seq<u8>, BackendError>) -> ReadState {
    match st {
        ReadState::Reading(acc) => match got {
            Ok(d) => if d.len() == 0 {
                ReadState::Done(acc)
            } else if response_complete_model(acc + d) {
                ReadState::Done(acc + d)
            } else {
                ReadState::Reading(acc + d)
            },
            Err(BackendError::Eof) => ReadState::Done(acc),
            Err(e) => if acc.len() > 0 {
                ReadState::Done(acc)
            } else {
                ReadState::Failed(failure_of(e))
            },
        },
        _ => ReadState::Stray,
    }
}

/// Where reading stands after a run of receives.
pub open spec fn read_run(gots: Seq<Result<Seq<u8>, BackendError>>) -> ReadState
    decreases gots.len(),
{
    if gots.len() == 0 {
        ReadState::Reading(seq![])
    } else {
        read_next(read_run(gots.drop_last()), gots.last())
    }
}

/// What a receive call into `buf` delivered.
pub open spec fn delivered(result: Result<usize, BackendError>, buf: Seq<u8>) -> Result<Seq<u8>, BackendError> {
    match result {
        Ok(n) => Ok(buf.take(n as int)),
        Err(e) => Err(e),
    }
}

/// What the reading loop does after one receive call.
pub enum ReadStep {
    /// Receive more.
    Continue,
    /// The response is complete (or the peer is done sending).
    Done,
    /// Reading failed before any byte arrived.
    Fail(SmoltcpTransportError),
}

/// Handle the result of one receive call into `buf`, as `read_next` says:
/// received bytes are appended to `response`.
pub fn read_step(response: &mut Vec<u8>, result: Result<usize, BackendError>, buf: &[u8]) -> (r: ReadStep)
    requires
        result matches Ok(n) ==> n <= buf@.len(),
    ensures
        read_next(ReadState::Reading(old(response)@), delivered(result, buf@)) == match r {
            ReadStep::Continue => ReadState::Reading(final(response)@),
            ReadStep::Done => ReadState::Done(final(response)@),
            ReadStep::Fail(t) => ReadState::Failed(t@),
        },
{
    match result {
        Ok(n) => {
            if n == 0 {
                assert(buf@.take(0) =~= Seq::<u8>::empty());
                assert(response@ =~= old(response)@ + buf@.take(0));
                return ReadStep::Done;
            }
            let mut i: usize = 0;
            while i < n
                invariant
                    n <= buf@.len(),
                    i <= n,
                    response@ == old(response)@ + buf@.take(i as int),
                decreases n - i,
            {
                response.push(buf[i]);
                i = i + 1;
                assert(response@ =~= old(response)@ + buf@.take(i as int));
            }
            if response_complete(response.as_slice()) {
                ReadStep::Done
            } else {
                ReadStep::Continue
            }
        },
        Err(BackendError::Timeout) => {
            if response.len() > 0 {
                ReadStep::Done
            } else {
                ReadStep::Fail(SmoltcpTransportError::Timeout)
            }
        },
        Err(BackendError::Eof) => ReadStep::Done,
        Err(e) => {
            if response.len() > 0 {
                ReadStep::Done
            } else {
                ReadStep::Fail(SmoltcpTransportError::from(e))
            }
        },
    }
}

// ---------------------------------------------------------------------------
// Building the request
// ---------------------------------------------------------------------------

/// The headers forwarded from the caller: all but `Host` (any case), in order.
pub open spec fn forwarded_headers(es: Seq<(Seq<char>, Seq<char>)>) -> Seq<(Seq<char>, Seq<char>)>
    decreases es.len(),
{
    if es.len() == 0 {
        seq![]
    } else {
        let init = forwarded_headers(es.drop_last());
        if eq_ignore_ascii_case(es.last().0, "host"@) {
            init
        } else {
            init.push(es.last())
        }
    }
}

/// Some header is named `Connection` (any case).
pub open spec fn has_connection_header(es: Seq<(Seq<char>, Seq<char>)>) -> bool {
    exists|i: int| 0 <= i < es.len() && eq_ignore_ascii_case(#[trigger] es[i].0, "connection"@)
}

/// The request headers: the forwarded ones, then `Connection: close` unless
/// the caller gave a `Connection` header.
pub open spec fn request_headers(es: Seq<(Seq<char>, Seq<char>)>) -> Seq<(Seq<char>, Seq<char>)> {
    if has_connection_header(es) {
        forwarded_headers(es)
    } else {
        forwarded_headers(es).push(("Connection"@, "close"@))
    }
}

/// The request always says how the connection ends, and never carries a
/// second `Host` header: it has a `Connection` header (the caller's, or
/// `Connection: close`), and no forwarded header is named `Host`.
pub proof fn request_headers_close_and_skip_host(es: Seq<(Seq<char>, Seq<char>)>)
    ensures
        has_connection_header(request_headers(es)),
        forall|i: int|
            0 <= i < request_headers(es).len() ==> !eq_ignore_ascii_case(
                #[trigger] request_headers(es)[i].0,
                "host"@,
            ),
{
    reveal_strlit("host");
    reveal_strlit("connection");
    reveal_strlit("Connection");
    lemma_forwarded_headers(es);
    let r = request_headers(es);
    if !has_connection_header(es) {
        let f = forwarded_headers(es);
        assert(r[f.len() as int].0 == "Connection"@);
        assert(eq_ignore_ascii_case(r[f.len() as int].0, "connection"@));
        assert forall|i: int| 0 <= i < r.len() implies !eq_ignore_ascii_case(
            #[trigger] r[i].0,
            "host"@,
        ) by {
            if i < f.len() {
                assert(r[i] == f[i]);
            }
        }
    }
}

proof fn lemma_forwarded_headers(es: Seq<(Seq<char>, Seq<char>)>)
    requires
        "host"@.len() == 4,
        "connection"@.len() == 10,
    ensures
        forall|i: int|
            0 <= i < forwarded_headers(es).len() ==> !eq_ignore_ascii_case(
                #[trigger] forwarded_headers(es)[i].0,
                "host"@,
            ),
        has_connection_header(es) ==> has_connection_header(forwarded_headers(es)),
    decreases es.len(),
{
    if es.len() > 0 {
        let init = es.drop_last();
        lemma_forwarded_headers(init);
        let fi = forwarded_headers(init);
        let f = forwarded_headers(es);
        if !eq_ignore_ascii_case(es.last().0, "host"@) {
            assert forall|i: int| 0 <= i < f.len() implies !eq_ignore_ascii_case(
                #[trigger] f[i].0,
                "host"@,
            ) by {
                if i < fi.len() {
                    assert(f[i] == fi[i]);
                }
            }
        }
        if has_connection_header(es) {
            let j = choose|j: int| 0 <= j < es.len() && eq_ignore_ascii_case(#[trigger] es[j].0, "connection"@);
            if j < es.len() - 1 {
                assert(init[j] == es[j]);
                let k = choose|k: int| 0 <= k < fi.len() && eq_ignore_ascii_case(#[trigger] fi[k].0, "connection"@);
                if !eq_ignore_ascii_case(es.last().0, "host"@) {
                    assert(f[k] == fi[k]);
                }
            } else {
                assert(!eq_ignore_ascii_case(es.last().0, "host"@));
                assert(f[fi.len() as int] == es.last());
            }
        }
    }
}

/// The method sent: `POST` when there is a body, unless `GET` was asked for;
/// `GET` otherwise.
pub open spec fn request_method(method: Seq<char>, has_body: bool) -> Seq<char> {
    if has_body && method != "GET"@ {
        "POST"@
    } else {
        "GET"@
    }
}

/// The bytes of an optional body.
pub open spec fn slice_body(body: Option<&[u8]>) -> Option<Seq<u8>> {
    match body {
        Some(b) => Some(b@),
        None => None,
    }
}

/// Build the request for `method` on `url` with the caller's `headers` and
/// optional `body`.
pub fn build_request(method: &str, url: &ParsedUrl, headers: &HeaderMap, body: Option<&[u8]>) -> (r: HttpRequest)
    ensures
        r.method@ == request_method(method@, body is Some),
        r.path@ == url.path@,
        r.host@ == url.host@,
        headers_view(r.headers@) == request_headers(headers.entries_view()),
        body_view(r.body) == slice_body(body),
{
    let method_chars = chars_of(method);
    let get_chars = chars_of("GET");
    let is_get = crate::text::chars_eq(method_chars.as_slice(), get_chars.as_slice());
    let mut req = match body {
        Some(b) => {
            if is_get {
                let mut r = HttpRequest::get(url.host.as_str(), url.path.as_str());
                r.body = Some(vstd::slice::slice_to_vec(b));
                r
            } else {
                HttpRequest::post(url.host.as_str(), url.path.as_str(), vstd::slice::slice_to_vec(b))
            }
        },
        None => HttpRequest::get(url.host.as_str(), url.path.as_str()),
    };
    let entries = headers.entries();
    let ghost es = headers.entries_view();
    let host_name = chars_of("host");
    let connection_name = chars_of("connection");
    let mut has_connection = false;
    let mut i: usize = 0;
    assert(headers_view(req.headers@) =~= forwarded_headers(es.take(0)));
    while i < entries.len()
        invariant
            i <= entries@.len(),
            headers_view(entries@) == es,
            host_name@ == "host"@,
            connection_name@ == "connection"@,
            req.method@ == request_method(method@, body is Some),
            req.path@ == url.path@,
            req.host@ == url.host@,
            body_view(req.body) == slice_body(body),
            headers_view(req.headers@) == forwarded_headers(es.take(i as int)),
            has_connection == has_connection_header(es.take(i as int)),
        decreases entries@.len() - i,
    {
        let name = chars_of(entries[i].0.as_str());
        let ghost prefix = es.take(i as int);
        let ghost next = es.take(i + 1);
        assert(next.drop_last() =~= prefix);
        assert(next.last() == es[i as int]);
        assert(es[i as int].0 == name@);
        if chars_eq_ignore_ascii_case(name.as_slice(), connection_name.as_slice()) {
            has_connection = true;
            assert(next[i as int] == es[i as int]);
        }
        proof {
            if has_connection_header(next) {
                let j = choose|j: int| 0 <= j < next.len() && eq_ignore_ascii_case(#[trigger] next[j].0, "connection"@);
                if j < i {
                    assert(prefix[j] == next[j]);
                }
            }
            if has_connection_header(prefix) {
                let j = choose|j: int| 0 <= j < prefix.len() && eq_ignore_ascii_case(#[trigger] prefix[j].0, "connection"@);
                assert(next[j] == prefix[j]);
            }
        }
        if !chars_eq_ignore_ascii_case(name.as_slice(), host_name.as_slice()) {
            req = req.header(entries[i].0.as_str(), entries[i].1.as_str());
        }
        i = i + 1;
    }
    assert(es.take(i as int) =~= es);
    if !has_connection {
        req = req.header("Connection", "close");
    }
    req
}

// ---------------------------------------------------------------------------
// SmoltcpTransport
// ---------------------------------------------------------------------------

/// A call made on a network backend that changes it: what it was handed (the
/// name to resolve, where to connect, what to send, the handle, the size of
/// the receive buffer) and what it returned.
pub ghost enum BackendCall {
    Resolve(Seq<char>, Result<[u8; 4], BackendError>),
    TcpConnect([u8; 4], u16, Result<ConnectionHandle, BackendError>),
    TcpSend(ConnectionHandle, Seq<u8>, Result<(), BackendError>),
    TcpRecv(ConnectionHandle, nat, Result<Seq<u8>, BackendError>),
    TcpClose(ConnectionHandle),
    TlsConnect([u8; 4], u16, Seq<char>, Result<ConnectionHandle, BackendError>),
    TlsSend(ConnectionHandle, Seq<u8>, Result<(), BackendError>),
    TlsRecv(ConnectionHandle, nat, Result<Seq<u8>, BackendError>),
    TlsClose(ConnectionHandle),
}

/// The calls made on a backend, oldest first.
pub type CallLog = Seq<BackendCall>;

/// The size of the buffer the transport receives into.
pub open spec fn recv_buffer_len() -> nat {
    4096
}

/// The outcomes of `calls` when each is a receive on connection `h` (over TLS
/// when `tls`) into a buffer of `recv_buffer_len()` bytes, in order; `None`
/// when one is something else.
pub open spec fn receives(calls: Seq<BackendCall>, tls: bool, h: ConnectionHandle) -> Option<
    Seq<Result<Seq<u8>, BackendError>>,
>
    decreases calls.len(),
{
    if calls.len() == 0 {
        Some(seq![])
    } else {
        match receives(calls.drop_last(), tls, h) {
            None => None,
            Some(gots) => match calls.last() {
                BackendCall::TcpRecv(g, cap, got) => if !tls && g == h && cap == recv_buffer_len() {
                    Some(gots.push(got))
                } else {
                    None
                },
                BackendCall::TlsRecv(g, cap, got) => if tls && g == h && cap == recv_buffer_len() {
                    Some(gots.push(got))
                } else {
                    None
                },
                _ => None,
            },
        }
    }
}

/// The close of connection `h`.
pub open spec fn close_call(tls: bool, h: ConnectionHandle) -> BackendCall {
    if tls {
        BackendCall::TlsClose(h)
    } else {
        BackendCall::TcpClose(h)
    }
}

/// A connection error, by the kind of connection.
pub open spec fn connection_failure(tls: bool, e: BackendError) -> TransportFailure {
    if tls {
        TransportFailure::Tls(backend_error_message(e))
    } else {
        TransportFailure::Tcp(backend_error_message(e))
    }
}

/// Reading on connection `h`: receives until reading is done, then the close,
/// giving the response bytes; or receives until reading failed, and no close.
pub open spec fn reading_run(calls: Seq<BackendCall>, tls: bool, h: ConnectionHandle) -> Option<
    Result<Seq<u8>, TransportFailure>,
> {
    if calls.len() > 0 && calls.last() == close_call(tls, h) {
        match receives(calls.drop_last(), tls, h) {
            Some(gots) => match read_run(gots) {
                ReadState::Done(raw) => Some(Ok(raw)),
                _ => None,
            },
            None => None,
        }
    } else {
        match receives(calls, tls, h) {
            Some(gots) => match read_run(gots) {
                ReadState::Failed(f) => Some(Err(f)),
                _ => None,
            },
            None => None,
        }
    }
}

/// What connecting to `ip` gave, when `call` is that connect (with the host
/// name for TLS).
pub open spec fn connect_outcome(call: BackendCall, tls: bool, host: Seq<char>, port: u16, ip: [u8; 4]) -> Option<
    Result<ConnectionHandle, BackendError>,
> {
    match call {
        BackendCall::TcpConnect(i, p, res) => if !tls && i == ip && p == port {
            Some(res)
        } else {
            None
        },
        BackendCall::TlsConnect(i, p, n, res) => if tls && i == ip && p == port && n == host {
            Some(res)
        } else {
            None
        },
        _ => None,
    }
}

/// What sending `bytes` on `h` gave, when `call` is that send.
pub open spec fn send_outcome(call: BackendCall, tls: bool, h: ConnectionHandle, bytes: Seq<u8>) -> Option<
    Result<(), BackendError>,
> {
    match call {
        BackendCall::TcpSend(g, b, res) => if !tls && g == h && b == bytes {
            Some(res)
        } else {
            None
        },
        BackendCall::TlsSend(g, b, res) => if tls && g == h && b == bytes {
            Some(res)
        } else {
            None
        },
        _ => None,
    }
}

/// One connection of a request: connect to `ip`, send `bytes`, read. The
/// raw response, or the failure that ends it; `None` when `calls` is not such
/// a run.
pub open spec fn connection_run(
    calls: Seq<BackendCall>,
    tls: bool,
    host: Seq<char>,
    port: u16,
    ip: [u8; 4],
    bytes: Seq<u8>,
) -> Option<Result<Seq<u8>, TransportFailure>> {
    if calls.len() == 0 {
        None
    } else {
        match connect_outcome(calls[0], tls, host, port, ip) {
            None => None,
            Some(Err(e)) => if calls.len() == 1 {
                Some(Err(connection_failure(tls, e)))
            } else {
                None
            },
            Some(Ok(h)) => if calls.len() < 2 {
                None
            } else {
                match send_outcome(calls[1], tls, h, bytes) {
                    None => None,
                    Some(Err(e)) => if calls.len() == 2 {
                        Some(Err(connection_failure(tls, e)))
                    } else {
                        None
                    },
                    Some(Ok(())) => reading_run(calls.skip(2), tls, h),
                }
            },
        }
    }
}

/// One request to `host` on a backend that is `ready` or not: nothing when the
/// network is down; otherwise resolve the host, then one connection to the
/// address found (over TLS for HTTPS). The raw response, or the failure that
/// ends the request; `None` when `calls` is not such a run.
pub open spec fn request_run(
    calls: Seq<BackendCall>,
    ready: bool,
    is_https: bool,
    host: Seq<char>,
    port: u16,
    bytes: Seq<u8>,
) -> Option<Result<Seq<u8>, TransportFailure>> {
    if !ready {
        if calls.len() == 0 {
            Some(Err(TransportFailure::NoNetwork))
        } else {
            None
        }
    } else if calls.len() == 0 {
        None
    } else {
        match calls[0] {
            BackendCall::Resolve(name, Err(e)) => if name == host && calls.len() == 1 {
                Some(Err(TransportFailure::Dns(backend_error_message(e))))
            } else {
                None
            },
            BackendCall::Resolve(name, Ok(ip)) => if name == host {
                connection_run(calls.skip(1), is_https, host, port, ip, bytes)
            } else {
                None
            },
            _ => None,
        }
    }
}

/// The bytes sent for `method` with the caller's headers and optional body,
/// to the host and path of a parsed URL.
pub open spec fn sent_bytes(
    method: Seq<char>,
    host: Seq<char>,
    path: Seq<char>,
    headers: Seq<(Seq<char>, Seq<char>)>,
    body: Option<Seq<u8>>,
) -> Seq<u8> {
    request_bytes(request_method(method, body is Some), path, host, request_headers(headers), body)
}

/// What the transport answers for the bytes `raw` it received: the parsed
/// response (for `url`), or the HTTP error of a response that does not parse.
pub open spec fn answers(raw: Seq<u8>, url: Seq<char>, r: Result<SmoltcpResponse, SmoltcpTransportError>) -> bool {
    match transport_response_model(raw) {
        Ok(m) => r matches Ok(resp) && resp.model() == m && resp.url@ == url,
        Err(msg) => r matches Err(e) && e@ == TransportFailure::Http(msg),
    }
}

/// The calls made after the first `n` of a log.
pub open spec fn calls_since(calls: Seq<BackendCall>, n: int) -> Seq<BackendCall> {
    calls.skip(n)
}

/// HTTP/HTTPS transport over a pluggable [`NetworkBackend`].
///
/// This struct owns the network backend and provides synchronous HTTP request
/// execution with automatic HTTP/HTTPS routing, chunked transfer decoding, and
/// response parsing.
pub struct SmoltcpTransport<B: NetworkBackend> {
    backend: B,
}

impl<B: NetworkBackend> SmoltcpTransport<B> {
    /// The backend this transport drives.
    pub closed spec fn backend_view(&self) -> B {
        self.backend
    }

    /// Create a new transport with the given network backend.
    pub fn new(backend: B) -> (r: Self)
        ensures
            r.backend_view() == backend,
    {
        Self { backend }
    }

    /// Get a reference to the underlying backend.
    pub fn backend(&self) -> (r: &B)
        ensures
            *r == self.backend_view(),
    {
        &self.backend
    }

    /// Get a mutable reference to the underlying backend.
    pub fn backend_mut(&mut self) -> (r: &mut B)
        ensures
            *r == old(self).backend_view(),
            final(self).backend_view() == *final(r),
    {
        &mut self.backend
    }

    /// Execute an HTTP or HTTPS request synchronously.
    ///
    /// Parses the URL, resolves DNS, connects via TCP (or TLS for HTTPS),
    /// sends the request, reads the response, and returns a parsed
    /// [`SmoltcpResponse`].
    pub fn execute_sync(
        &mut self,
        method: &str,
        url: &str,
        headers: &HeaderMap,
        body: Option<&[u8]>,
    ) -> (r: Result<SmoltcpResponse, SmoltcpTransportError>)
        ensures
            match url_model(url@) {
                Err(m) => {
                    &&& r matches Err(e) && e@ == TransportFailure::InvalidUrl(m)
                    &&& final(self).backend_view() == old(self).backend_view()
                },
                Ok((is_https, host, port, path)) => {
                    &&& !old(self).backend_view().ready() ==> final(self).backend_view() == old(
                        self,
                    ).backend_view()
                    &&& old(self).backend_view().log().is_prefix_of(final(self).backend_view().log())
                    &&& match request_run(
                        calls_since(
                            final(self).backend_view().log(),
                            old(self).backend_view().log().len() as int,
                        ),
                        old(self).backend_view().ready(),
                        is_https,
                        host,
                        port,
                        sent_bytes(method@, host, path, headers.entries_view(), slice_body(body)),
                    ) {
                        Some(Ok(raw)) => answers(raw, url@, r),
                        Some(Err(f)) => r matches Err(e) && e@ == f,
                        None => false,
                    }
                },
            },
    {
        let parsed = match parse_url(url) {
            Ok(p) => p,
            Err(e) => return Err(SmoltcpTransportError::InvalidUrl(e)),
        };
        assert(url_model(url@) == Ok::<_, Seq<char>>(parsed.model()));
        let response_bytes = match self.send_request(method, &parsed, headers, body) {
            Ok(bytes) => bytes,
            Err(e) => return Err(e),
        };
        parse_response(response_bytes.as_slice(), url)
    }

    /// Check that the network is up, resolve the host, send the request over
    /// a fresh connection and read the raw response.
    fn send_request(&mut self, method: &str, parsed: &ParsedUrl, headers: &HeaderMap, body: Option<&[u8]>) -> (r: Result<
        Vec<u8>,
        SmoltcpTransportError,
    >)
        ensures
            !old(self).backend_view().ready() ==> final(self).backend_view() == old(self).backend_view(),
            old(self).backend_view().log().is_prefix_of(final(self).backend_view().log()),
            match request_run(
                calls_since(final(self).backend_view().log(), old(self).backend_view().log().len() as int),
                old(self).backend_view().ready(),
                parsed.is_https,
                parsed.host@,
                parsed.port,
                sent_bytes(method@, parsed.host@, parsed.path@, headers.entries_view(), slice_body(body)),
            ) {
                Some(Ok(raw)) => r matches Ok(v) && v@ == raw,
                Some(Err(f)) => r matches Err(e) && e@ == f,
                None => false,
            },
    {
        let ghost bytes = sent_bytes(method@, parsed.host@, parsed.path@, headers.entries_view(), slice_body(body));
        let ghost start = self.backend.log();
        if !self.backend.is_ready() {
            assert(calls_since(self.backend.log(), start.len() as int) =~= Seq::<BackendCall>::empty());
            assert(start.is_prefix_of(self.backend.log()));
            return Err(SmoltcpTransportError::NoNetwork);
        }
        let resolved = self.backend.dns_resolve(parsed.host.as_str());
        let ghost head = seq![BackendCall::Resolve(parsed.host@, resolved)];
        assert(calls_since(self.backend.log(), start.len() as int) =~= head);
        assert(start.is_prefix_of(self.backend.log()));
        let remote_ip = match resolved {
            Ok(ip) => ip,
            Err(e) => return Err(SmoltcpTransportError::DnsError(e.message())),
        };
        let request = build_request(method, parsed, headers, body);
        let request_bytes = request.to_bytes();
        assert(request_bytes@ == bytes);
        let ghost mid = self.backend.log();
        let result = if parsed.is_https {
            self.execute_https(remote_ip, parsed.port, parsed.host.as_str(), request_bytes.as_slice())
        } else {
            let result = self.execute_http(remote_ip, parsed.port, request_bytes.as_slice());
            assert(connection_run(calls_since(self.backend.log(), mid.len() as int), false, Seq::empty(), parsed.port, remote_ip, bytes)
                == connection_run(calls_since(self.backend.log(), mid.len() as int), false, parsed.host@, parsed.port, remote_ip, bytes));
            result
        };
        proof {
            let t = calls_since(self.backend.log(), start.len() as int);
            let c = calls_since(self.backend.log(), mid.len() as int);
            assert(self.backend.log() =~= mid + c);
            assert(t =~= head + c);
            assert(t.skip(1) =~= c);
            assert(start.is_prefix_of(self.backend.log()));
        }
        result
    }

    /// Perform an HTTPS request via TLS.
    fn execute_https(
        &mut self,
        remote_ip: [u8; 4],
        port: u16,
        hostname: &str,
        request_bytes: &[u8],
    ) -> (r: Result<Vec<u8>, SmoltcpTransportError>)
        ensures
            old(self).backend_view().log().is_prefix_of(final(self).backend_view().log()),
            match connection_run(
                calls_since(final(self).backend_view().log(), old(self).backend_view().log().len() as int),
                true,
                hostname@,
                port,
                remote_ip,
                request_bytes@,
            ) {
                Some(Ok(raw)) => r matches Ok(v) && v@ == raw,
                Some(Err(f)) => r matches Err(e) && e@ == f,
                None => false,
            },
    {
        let ghost start = self.backend.log();
        let connected = self.backend.tls_connect(remote_ip, port, hostname);
        assert(start.is_prefix_of(self.backend.log()));
        let handle = match connected {
            Ok(h) => h,
            Err(e) => {
                assert(calls_since(self.backend.log(), start.len() as int) =~= seq![BackendCall::TlsConnect(remote_ip, port, hostname@, connected)]);
                return Err(SmoltcpTransportError::TlsError(e.message()));
            },
        };
        let sent = self.backend.tls_send(handle, request_bytes);
        let ghost head = seq![
            BackendCall::TlsConnect(remote_ip, port, hostname@, connected),
            BackendCall::TlsSend(handle, request_bytes@, sent),
        ];
        assert(calls_since(self.backend.log(), start.len() as int) =~= head);
        assert(start.is_prefix_of(self.backend.log()));
        match sent {
            Ok(()) => {},
            Err(e) => return Err(SmoltcpTransportError::TlsError(e.message())),
        }
        let ghost mid = self.backend.log();
        let result = self.read_response(handle, true);
        let ghost rc = calls_since(self.backend.log(), mid.len() as int);
        assert(self.backend.log() =~= mid + rc);
        let response = match result {
            Ok(bytes) => bytes,
            Err(e) => {
                proof {
                    let t = calls_since(self.backend.log(), start.len() as int);
                    assert(t =~= head + rc);
                    assert(t.skip(2) =~= rc);
                    if rc.len() > 0 && rc.last() == close_call(true, handle) {
                        lemma_receives_last(rc, true, handle);
                    }
                    assert(start.is_prefix_of(self.backend.log()));
                }
                return Err(e);
            },
        };
        self.backend.tls_close(handle);
        proof {
            let t = calls_since(self.backend.log(), start.len() as int);
            assert(t =~= head + rc.push(BackendCall::TlsClose(handle)));
            assert(t.skip(2) =~= rc.push(BackendCall::TlsClose(handle)));
            assert(rc.push(BackendCall::TlsClose(handle)).drop_last() =~= rc);
            assert(start.is_prefix_of(self.backend.log()));
        }
        Ok(response)
    }

    /// Perform an HTTP (plaintext) request via raw TCP.
    fn execute_http(&mut self, remote_ip: [u8; 4], port: u16, request_bytes: &[u8]) -> (r: Result<
        Vec<u8>,
        SmoltcpTransportError,
    >)
        ensures
            old(self).backend_view().log().is_prefix_of(final(self).backend_view().log()),
            match connection_run(
                calls_since(final(self).backend_view().log(), old(self).backend_view().log().len() as int),
                false,
                Seq::empty(),
                port,
                remote_ip,
                request_bytes@,
            ) {
                Some(Ok(raw)) => r matches Ok(v) && v@ == raw,
                Some(Err(f)) => r matches Err(e) && e@ == f,
                None => false,
            },
    {
        let ghost start = self.backend.log();
        let connected = self.backend.tcp_connect(remote_ip, port);
        assert(start.is_prefix_of(self.backend.log()));
        let handle = match connected {
            Ok(h) => h,
            Err(e) => {
                assert(calls_since(self.backend.log(), start.len() as int) =~= seq![BackendCall::TcpConnect(remote_ip, port, connected)]);
                return Err(SmoltcpTransportError::TcpError(e.message()));
            },
        };
        let sent = self.backend.tcp_send(handle, request_bytes);
        let ghost head = seq![
            BackendCall::TcpConnect(remote_ip, port, connected),
            BackendCall::TcpSend(handle, request_bytes@, sent),
        ];
        assert(calls_since(self.backend.log(), start.len() as int) =~= head);
        assert(start.is_prefix_of(self.backend.log()));
        match sent {
            Ok(()) => {},
            Err(e) => return Err(SmoltcpTransportError::TcpError(e.message())),
        }
        let ghost mid = self.backend.log();
        let result = self.read_response(handle, false);
        let ghost rc = calls_since(self.backend.log(), mid.len() as int);
        assert(self.backend.log() =~= mid + rc);
        let response = match result {
            Ok(bytes) => bytes,
            Err(e) => {
                proof {
                    let t = calls_since(self.backend.log(), start.len() as int);
                    assert(t =~= head + rc);
                    assert(t.skip(2) =~= rc);
                    if rc.len() > 0 && rc.last() == close_call(false, handle) {
                        lemma_receives_last(rc, false, handle);
                    }
                    assert(start.is_prefix_of(self.backend.log()));
                }
                return Err(e);
            },
        };
        self.backend.tcp_close(handle);
        proof {
            let t = calls_since(self.backend.log(), start.len() as int);
            assert(t =~= head + rc.push(BackendCall::TcpClose(handle)));
            assert(t.skip(2) =~= rc.push(BackendCall::TcpClose(handle)));
            assert(rc.push(BackendCall::TcpClose(handle)).drop_last() =~= rc);
            assert(start.is_prefix_of(self.backend.log()));
        }
        Ok(response)
    }

    /// Read a full HTTP response from a connection, with `tls_recv` when
    /// `is_tls` and `tcp_recv` otherwise, into a buffer of
    /// `recv_buffer_len()` bytes.
    fn read_response(&mut self, handle: ConnectionHandle, is_tls: bool) -> (r: Result<
        Vec<u8>,
        SmoltcpTransportError,
    >)
        ensures
            old(self).backend_view().log().is_prefix_of(final(self).backend_view().log()),
            match receives(
                calls_since(final(self).backend_view().log(), old(self).backend_view().log().len() as int),
                is_tls,
                handle,
            ) {
                Some(gots) => match r {
                    Ok(v) => read_run(gots) == ReadState::Done(v@),
                    Err(e) => read_run(gots) == ReadState::Failed(e@),
                },
                None => false,
            },
    {
        let ghost start = self.backend.log();
        let mut response: Vec<u8> = Vec::new();
        let mut buf = [0u8; 4096];
        assert(calls_since(self.backend.log(), start.len() as int) =~= Seq::<BackendCall>::empty());
        assert(start.is_prefix_of(self.backend.log()));
        loop
            invariant_except_break
                receives(calls_since(self.backend.log(), start.len() as int), is_tls, handle) matches Some(gots)
                    && read_run(gots) == ReadState::Reading(response@),
            invariant
                start == old(self).backend.log(),
                start.is_prefix_of(self.backend.log()),
                buf@.len() == recv_buffer_len(),
            ensures
                receives(calls_since(self.backend.log(), start.len() as int), is_tls, handle) matches Some(gots)
                    && read_run(gots) == ReadState::Done(response@),
            decreases usize::MAX - response@.len(),
        {
            let before = response.len();
            let ghost prior = calls_since(self.backend.log(), start.len() as int);
            let ghost gots = receives(prior, is_tls, handle)->Some_0;
            let result = if is_tls {
                self.backend.tls_recv(handle, &mut buf)
            } else {
                self.backend.tcp_recv(handle, &mut buf)
            };
            let ghost got = delivered(result, buf@);
            proof {
                let now = calls_since(self.backend.log(), start.len() as int);
                assert(now.drop_last() =~= prior);
                assert(receives(now, is_tls, handle) == Some(gots.push(got)));
                assert(gots.push(got).drop_last() =~= gots);
                assert(read_run(gots.push(got)) == read_next(ReadState::Reading(response@), got));
                assert(start.is_prefix_of(self.backend.log()));
            }
            let step = read_step(&mut response, result, &buf);
            match step {
                ReadStep::Continue => {
                    let after = response.len();
                    assert(after > before);
                },
                ReadStep::Done => break,
                ReadStep::Fail(e) => return Err(e),
            }
        }
        Ok(response)
    }
}

/// A run of receives never ends with a close.
proof fn lemma_receives_last(calls: Seq<BackendCall>, tls: bool, h: ConnectionHandle)
    requires
        calls.len() > 0,
        calls.last() == close_call(tls, h),
    ensures
        receives(calls, tls, h) is None,
{
}

} // verus!
