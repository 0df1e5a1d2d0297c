//! Minimal HTTP/1.1 client pieces: request serialization, response parsing,
//! chunked transfer decoding and server-sent-event parsing.

use vstd::prelude::*;
use vstd::utf8::*;

use vstd::slice::slice_to_vec;

use crate::text::{
    lemma_index_of_from, index_of_from, eq_ignore_ascii_case, trim_bounds, find_subsequence,
    lower_codes, lower_codes_of, contains_codes, append_chars, starts_with,
    chars_eq_ignore_ascii_case, chars_of, chars_start_with, find_seq, index_of, index_of_char,
    lemma_decoded, number_chars, parse_unsigned, parse_unsigned_chars, skip_whitespace, split_on,
    str_from_utf8, string_from_chars, trim, trim_start,
};

verus! {

// ---------------------------------------------------------------------------
// Request
// ---------------------------------------------------------------------------

/// An HTTP/1.1 request ready to be serialized to bytes.
pub struct HttpRequest {
    /// HTTP method (`"GET"`, `"POST"`, etc.).
    pub method: &'static str,
    /// Request path (e.g. `"/v1/messages"`).
    pub path: String,
    /// Host header value (e.g. `"api.anthropic.com"`).
    pub host: String,
    /// Additional headers beyond Host and Content-Length.
    pub headers: Vec<(String, String)>,
    /// Optional request body.
    pub body: Option<Vec<u8>>,
}

/// The characters of a list of `(name, value)` string pairs.
pub open spec fn headers_view(hs: Seq<(String, String)>) -> Seq<(Seq<char>, Seq<char>)> {
    hs.map_values(|h: (String, String)| (h.0@, h.1@))
}

/// The decimal digits of `n`, as ASCII bytes.
pub open spec fn decimal(n: nat) -> Seq<u8>
    decreases n,
{
    if n < 10 {
        seq![(48 + n) as u8]
    } else {
        decimal(n / 10) + seq![(48 + n % 10) as u8]
    }
}

/// One `name: value\r\n` header line.
pub open spec fn header_line_bytes(h: (Seq<char>, Seq<char>)) -> Seq<u8> {
    encode_utf8(h.0) + encode_utf8(": "@) + encode_utf8(h.1) + encode_utf8("\r\n"@)
}

/// The header lines for `hs`, in order.
pub open spec fn header_lines_bytes(hs: Seq<(Seq<char>, Seq<char>)>) -> Seq<u8>
    decreases hs.len(),
{
    if hs.len() == 0 {
        seq![]
    } else {
        header_lines_bytes(hs.drop_last()) + header_line_bytes(hs.last())
    }
}

/// The HTTP/1.1 wire form of a request: request line, `Host`, `Content-Length`
/// when there is a body, the additional headers, a blank line, and the body.
pub open spec fn request_bytes(
    method: Seq<char>,
    path: Seq<char>,
    host: Seq<char>,
    headers: Seq<(Seq<char>, Seq<char>)>,
    body: Option<Seq<u8>>,
) -> Seq<u8> {
    encode_utf8(method) + encode_utf8(" "@) + encode_utf8(path) + encode_utf8(" HTTP/1.1\r\n"@)
        + encode_utf8("Host: "@) + encode_utf8(host) + encode_utf8("\r\n"@) + match body {
        Some(b) => encode_utf8("Content-Length: "@) + decimal(b.len()) + encode_utf8("\r\n"@),
        None => seq![],
    } + header_lines_bytes(headers) + encode_utf8("\r\n"@) + match body {
        Some(b) => b,
        None => seq![],
    }
}

/// The body of a request, as bytes.
pub open spec fn body_view(body: Option<Vec<u8>>) -> Option<Seq<u8>> {
    match body {
        Some(b) => Some(b@),
        None => None,
    }
}

impl HttpRequest {
    /// The bytes that `to_bytes` produces for this request.
    pub open spec fn wire_bytes(&self) -> Seq<u8> {
        request_bytes(
            self.method@,
            self.path@,
            self.host@,
            headers_view(self.headers@),
            body_view(self.body),
        )
    }

    /// Create a GET request.
    pub fn get(host: &str, path: &str) -> (r: Self)
        ensures
            r.method@ == "GET"@,
            r.path@ == path@,
            r.host@ == host@,
            r.headers@.len() == 0,
            r.body is None,
    {
        Self {
            method: "GET",
            path: path.to_string(),
            host: host.to_string(),
            headers: Vec::new(),
            body: None,
        }
    }

    /// Create a POST request with a body.
    pub fn post(host: &str, path: &str, body: Vec<u8>) -> (r: Self)
        ensures
            r.method@ == "POST"@,
            r.path@ == path@,
            r.host@ == host@,
            r.headers@.len() == 0,
            r.body == Some(body),
    {
        Self {
            method: "POST",
            path: path.to_string(),
            host: host.to_string(),
            headers: Vec::new(),
            body: Some(body),
        }
    }

    /// Add a header to the request (builder pattern).
    pub fn header(self, name: &str, value: &str) -> (r: Self)
        ensures
            r.method == self.method,
            r.path == self.path,
            r.host == self.host,
            r.body == self.body,
            headers_view(r.headers@) == headers_view(self.headers@).push((name@, value@)),
    {
        let mut s = self;
        let ghost before = s.headers@;
        s.headers.push((name.to_string(), value.to_string()));
        assert(headers_view(s.headers@) =~= headers_view(before).push((name@, value@)));
        s
    }

    /// Serialize the request to raw HTTP/1.1 bytes.
    ///
    /// Produces a complete request including the request line, Host header,
    /// Content-Length (if body is present), any additional headers, the blank
    /// line separator, and the body.
    pub fn to_bytes(&self) -> (r: Vec<u8>)
        ensures
            r@ == self.wire_bytes(),
    {
        let mut buf: Vec<u8> = Vec::with_capacity(512);
        append_bytes(&mut buf, self.method.as_bytes());
        append_bytes(&mut buf, " ".as_bytes());
        append_bytes(&mut buf, self.path.as_str().as_bytes());
        append_bytes(&mut buf, " HTTP/1.1\r\n".as_bytes());
        append_bytes(&mut buf, "Host: ".as_bytes());
        append_bytes(&mut buf, self.host.as_str().as_bytes());
        append_bytes(&mut buf, "\r\n".as_bytes());
        let ghost start = buf@;
        match &self.body {
            Some(body) => {
                let len_str = decimal_bytes(body.len());
                append_bytes(&mut buf, "Content-Length: ".as_bytes());
                append_bytes(&mut buf, len_str.as_slice());
                append_bytes(&mut buf, "\r\n".as_bytes());
            },
            None => {},
        }
        let ghost with_length = buf@;
        let ghost hs = headers_view(self.headers@);
        let mut i: usize = 0;
        while i < self.headers.len()
            invariant
                i <= self.headers@.len(),
                hs == headers_view(self.headers@),
                buf@ == with_length + header_lines_bytes(hs.take(i as int)),
            decreases self.headers@.len() - i,
        {
            let ghost before = buf@;
            append_bytes(&mut buf, self.headers[i].0.as_str().as_bytes());
            append_bytes(&mut buf, ": ".as_bytes());
            append_bytes(&mut buf, self.headers[i].1.as_str().as_bytes());
            append_bytes(&mut buf, "\r\n".as_bytes());
            assert(hs.take(i + 1).drop_last() =~= hs.take(i as int));
            assert(buf@ =~= before + header_line_bytes(hs[i as int]));
            i = i + 1;
        }
        assert(hs.take(i as int) =~= hs);
        append_bytes(&mut buf, "\r\n".as_bytes());
        match &self.body {
            Some(body) => {
                append_bytes(&mut buf, body.as_slice());
            },
            None => {},
        }
        assert(buf@ =~= self.wire_bytes());
        buf
    }
}

// ---------------------------------------------------------------------------
// Response
// ---------------------------------------------------------------------------

/// A parsed HTTP/1.1 response.
#[derive(Debug)]
pub struct HttpResponse {
    /// HTTP status code (e.g. 200, 404, 500).
    pub status: u16,
    /// Reason phrase (e.g. "OK", "Not Found").
    pub reason: String,
    /// Response headers.
    pub headers: Vec<(String, String)>,
    /// Response body bytes.
    pub body: Vec<u8>,
}

/// Errors from HTTP response parsing.
#[derive(Debug)]
pub enum HttpError {
    /// The response data is incomplete (need more bytes).
    Incomplete,
    /// The status line is malformed.
    InvalidStatusLine,
    /// A header line is malformed.
    InvalidHeader,
    /// The Content-Length header has a non-numeric value.
    InvalidContentLength,
    /// The response is too large (exceeds our buffer limits).
    TooLarge,
}

/// `\r\n`
pub open spec fn crlf() -> Seq<u8> {
    seq![13u8, 10u8]
}

/// `\r\n\r\n`, the end of a header block.
pub open spec fn crlf_crlf() -> Seq<u8> {
    seq![13u8, 10u8, 13u8, 10u8]
}

/// The characters of `bytes` when they are valid UTF-8.
pub open spec fn utf8_chars(bytes: Seq<u8>) -> Option<Seq<char>> {
    if valid_utf8(bytes) {
        Some(decode_utf8(bytes))
    } else {
        None
    }
}

/// A line without one trailing `\r`.
pub open spec fn strip_cr(line: Seq<u8>) -> Seq<u8> {
    if line.len() > 0 && line.last() == 13u8 {
        line.drop_last()
    } else {
        line
    }
}

/// The lines of a header block: split on `\n`, one trailing `\r` removed.
pub open spec fn block_lines(block: Seq<u8>) -> Seq<Seq<u8>> {
    split_on(block, 10u8).map_values(|l: Seq<u8>| strip_cr(l))
}

/// `HTTP/1.1 200 OK`: the version, a space, the status code, and after a
/// further space the reason phrase (empty when there is no second space).
pub open spec fn status_line_model(line: Seq<u8>) -> Option<(u16, Seq<char>)> {
    match utf8_chars(line) {
        None => None,
        Some(cs) => match index_of(cs, ' ') {
            None => None,
            Some(a) => {
                let rest = cs.skip(a + 1);
                let (code, reason) = match index_of(rest, ' ') {
                    Some(b) => (rest.take(b), rest.skip(b + 1)),
                    None => (rest, seq![]),
                };
                match parse_unsigned(code, false, 65535) {
                    Some(v) => Some((v as u16, reason)),
                    None => None,
                }
            },
        },
    }
}

/// `Name: value`: the name is everything before the first `:`, the value
/// everything after it with leading whitespace removed.
pub open spec fn header_line_model(line: Seq<u8>) -> Option<(Seq<char>, Seq<char>)> {
    match utf8_chars(line) {
        None => None,
        Some(cs) => match index_of(cs, ':') {
            None => None,
            Some(k) => Some((cs.take(k), trim_start(cs.skip(k + 1)))),
        },
    }
}

/// The header fields of `lines`, in order, skipping empty lines; `None` when a
/// non-empty line is not a valid header line.
pub open spec fn header_fields_model(lines: Seq<Seq<u8>>) -> Option<Seq<(Seq<char>, Seq<char>)>>
    decreases lines.len(),
{
    if lines.len() == 0 {
        Some(seq![])
    } else {
        let rest = header_fields_model(lines.drop_last());
        if lines.last().len() == 0 {
            rest
        } else {
            match (rest, header_line_model(lines.last())) {
                (Some(r), Some(h)) => Some(r.push(h)),
                _ => None,
            }
        }
    }
}

/// The header block of a response: where the body starts, the status code,
/// the reason phrase and the header fields.
pub open spec fn header_block_model(data: Seq<u8>) -> Result<
    (nat, u16, Seq<char>, Seq<(Seq<char>, Seq<char>)>),
    HttpError,
> {
    match find_seq(data, crlf_crlf()) {
        None => Err(HttpError::Incomplete),
        Some(he) => {
            let lines = block_lines(data.take(he));
            match status_line_model(lines[0]) {
                None => Err(HttpError::InvalidStatusLine),
                Some((status, reason)) => match header_fields_model(lines.skip(1)) {
                    None => Err(HttpError::InvalidHeader),
                    Some(hs) => Ok(((he + 4) as nat, status, reason, hs)),
                },
            }
        },
    }
}

/// The first header at or after `i` whose name equals `name` ignoring ASCII case.
pub open spec fn header_index_from(
    hs: Seq<(Seq<char>, Seq<char>)>,
    name: Seq<char>,
    i: int,
) -> Option<int>
    decreases hs.len() - i,
{
    if i < 0 || i >= hs.len() {
        None
    } else if eq_ignore_ascii_case(hs[i].0, name) {
        Some(i)
    } else {
        header_index_from(hs, name, i + 1)
    }
}

/// `header_index_from` finds the first matching name at or after `i`.
pub proof fn lemma_header_index_from(hs: Seq<(Seq<char>, Seq<char>)>, name: Seq<char>, i: int)
    requires
        0 <= i,
    ensures
        match header_index_from(hs, name, i) {
            Some(k) => i <= k < hs.len() && eq_ignore_ascii_case(hs[k].0, name) && forall|j: int|
                i <= j < k ==> !eq_ignore_ascii_case(#[trigger] hs[j].0, name),
            None => forall|j: int| i <= j < hs.len() ==> !eq_ignore_ascii_case(#[trigger] hs[j].0, name),
        },
    decreases hs.len() - i,
{
    if i < hs.len() && !eq_ignore_ascii_case(hs[i].0, name) {
        lemma_header_index_from(hs, name, i + 1);
    }
}

/// The first header whose name equals `name` ignoring ASCII case.
pub open spec fn header_index(hs: Seq<(Seq<char>, Seq<char>)>, name: Seq<char>) -> Option<int> {
    header_index_from(hs, name, 0)
}

/// The value of the first `Content-Length` header, trimmed and parsed as a
/// `usize`; `None` when there is no such header or its value is not a number.
pub open spec fn content_length_model(hs: Seq<(Seq<char>, Seq<char>)>) -> Option<nat> {
    match header_index(hs, "content-length"@) {
        None => None,
        Some(i) => parse_unsigned(trim(hs[i].1), false, usize::MAX as nat),
    }
}

/// A complete response: status, reason, headers and body, where the body is
/// `Content-Length` bytes when that header is present and everything after the
/// header block when it is absent; a first `Content-Length` whose value is not
/// a number is an error.
pub open spec fn response_model(data: Seq<u8>) -> Result<
    (u16, Seq<char>, Seq<(Seq<char>, Seq<char>)>, Seq<u8>),
    HttpError,
> {
    match header_block_model(data) {
        Err(e) => Err(e),
        Ok((start, status, reason, hs)) => match content_length_model(hs) {
            Some(len) => if data.len() - start < len {
                Err(HttpError::Incomplete)
            } else {
                Ok((status, reason, hs, data.subrange(start as int, (start + len) as int)))
            },
            None => if header_index(hs, "content-length"@) is Some {
                Err(HttpError::InvalidContentLength)
            } else {
                Ok((status, reason, hs, data.skip(start as int)))
            },
        },
    }
}

/// Whether the first `Transfer-Encoding` header's value contains `chunked`,
/// ignoring ASCII case.
pub open spec fn chunked_model(hs: Seq<(Seq<char>, Seq<char>)>) -> bool {
    match header_index(hs, "transfer-encoding"@) {
        Some(i) => find_seq(lower_codes(hs[i].1), lower_codes("chunked"@)) is Some,
        None => false,
    }
}

impl HttpResponse {
    /// The status, reason, headers and body of this response.
    pub open spec fn model(&self) -> (u16, Seq<char>, Seq<(Seq<char>, Seq<char>)>, Seq<u8>) {
        (self.status, self.reason@, headers_view(self.headers@), self.body@)
    }

    /// Parse a complete HTTP/1.1 response from raw bytes.
    ///
    /// This expects the entire response (headers + body) to be present in
    /// `data`.  For streaming, use [`HttpResponse::parse_headers`] first to
    /// determine how many body bytes to expect, then call
    /// [`HttpResponse::from_parts`] once enough data has arrived.
    pub fn parse(data: &[u8]) -> (r: Result<Self, HttpError>)
        ensures
            match response_model(data@) {
                Ok(m) => r matches Ok(resp) && resp.model() == m,
                Err(e) => r == Err::<Self, HttpError>(e),
            },
    {
        let (body_start, status, reason, headers) = match Self::parse_header_block(data) {
            Ok(parts) => parts,
            Err(e) => return Err(e),
        };
        let content_length = Self::content_length_from_headers(headers.as_slice());
        let body = match content_length {
            Some(len) => {
                let available = data.len() - body_start;
                if available < len {
                    return Err(HttpError::Incomplete);
                }
                slice_to_vec(&data[body_start..body_start + len])
            },
            None => {
                if Self::first_header_index(headers.as_slice(), "content-length").is_some() {
                    return Err(HttpError::InvalidContentLength);
                }
                slice_to_vec(&data[body_start..data.len()])
            },
        };
        Ok(Self { status, reason, headers, body })
    }

    /// Parse only the HTTP headers from `data`.
    ///
    /// Returns `(bytes_consumed, status, reason, headers)` on success.
    /// `bytes_consumed` is the offset where the body begins (after the
    /// `\r\n\r\n` separator).
    ///
    /// Returns `Err(Incomplete)` if the header block is not yet complete
    /// (no `\r\n\r\n` found).
    pub fn parse_headers(data: &[u8]) -> (r: Result<(usize, u16, String, Vec<(String, String)>), HttpError>)
        ensures
            match header_block_model(data@) {
                Ok((start, status, reason, hs)) => r matches Ok(p) && p.0 == start && p.1 == status
                    && p.2@ == reason && headers_view(p.3@) == hs,
                Err(e) => r == Err::<(usize, u16, String, Vec<(String, String)>), HttpError>(e),
            },
    {
        Self::parse_header_block(data)
    }

    /// Construct a response from pre-parsed headers and a body.
    pub fn from_parts(status: u16, reason: String, headers: Vec<(String, String)>, body: Vec<u8>) -> (r: Self)
        ensures
            r.status == status,
            r.reason == reason,
            r.headers == headers,
            r.body == body,
    {
        Self { status, reason, headers, body }
    }

    /// Extract Content-Length from parsed headers.
    pub fn content_length_from_headers(headers: &[(String, String)]) -> (r: Option<usize>)
        ensures
            match content_length_model(headers_view(headers@)) {
                Some(n) => r == Some(n as usize),
                None => r is None,
            },
    {
        let ghost hs = headers_view(headers@);
        let target = chars_of("content-length");
        let mut i: usize = 0;
        while i < headers.len()
            invariant
                i <= headers@.len(),
                hs == headers_view(headers@),
                target@ == "content-length"@,
                header_index(hs, "content-length"@) == header_index_from(hs, "content-length"@, i as int),
            decreases headers@.len() - i,
        {
            let name = chars_of(headers[i].0.as_str());
            if chars_eq_ignore_ascii_case(name.as_slice(), target.as_slice()) {
                let value = chars_of(headers[i].1.as_str());
                let (a, b) = trim_bounds(value.as_slice());
                return match parse_unsigned_chars(&value.as_slice()[a..b], false, usize::MAX as u64) {
                    Some(n) => Some(n as usize),
                    None => None,
                };
            }
            i = i + 1;
        }
        None
    }

    /// The index of the first header named `name`, ignoring ASCII case.
    fn first_header_index(headers: &[(String, String)], name: &str) -> (r: Option<usize>)
        ensures
            match header_index(headers_view(headers@), name@) {
                Some(i) => r == Some(i as usize),
                None => r is None,
            },
    {
        let ghost hs = headers_view(headers@);
        let target = chars_of(name);
        let mut i: usize = 0;
        while i < headers.len()
            invariant
                i <= headers@.len(),
                hs == headers_view(headers@),
                target@ == name@,
                header_index(hs, name@) == header_index_from(hs, name@, i as int),
            decreases headers@.len() - i,
        {
            let n = chars_of(headers[i].0.as_str());
            if chars_eq_ignore_ascii_case(n.as_slice(), target.as_slice()) {
                return Some(i);
            }
            i = i + 1;
        }
        None
    }

    /// Check if the response uses chunked transfer encoding.
    pub fn is_chunked(&self) -> (r: bool)
        ensures
            r == chunked_model(headers_view(self.headers@)),
    {
        match self.header("transfer-encoding") {
            Some(v) => {
                proof {
                    let hs = headers_view(self.headers@);
                    lemma_header_index_from(hs, "transfer-encoding"@, 0);
                    let i = header_index(hs, "transfer-encoding"@)->0;
                    assert(hs[i].1 == self.headers@[i].1@);
                }
                let value = chars_of(v);
                let needle = chars_of("chunked");
                let hay = lower_codes_of(value.as_slice());
                let pat = lower_codes_of(needle.as_slice());
                contains_codes(hay.as_slice(), pat.as_slice())
            },
            None => false,
        }
    }

    /// Body as a UTF-8 string (lossy conversion).
    pub fn body_as_str(&self) -> (r: &str)
        ensures
            valid_utf8(self.body@) ==> r@ == decode_utf8(self.body@),
            !valid_utf8(self.body@) ==> r@ == "<non-utf8 body>"@,
    {
        match str_from_utf8(self.body.as_slice()) {
            Some(s) => {
                proof {
                    lemma_decoded(s, self.body@);
                }
                s
            },
            None => "<non-utf8 body>",
        }
    }

    fn parse_header_block(data: &[u8]) -> (r: Result<(usize, u16, String, Vec<(String, String)>), HttpError>)
        ensures
            match header_block_model(data@) {
                Ok((start, status, reason, hs)) => r matches Ok(p) && p.0 == start && p.1 == status
                    && p.2@ == reason && headers_view(p.3@) == hs && p.0 <= data@.len(),
                Err(e) => r == Err::<(usize, u16, String, Vec<(String, String)>), HttpError>(e),
            },
    {
        let data_len = data.len();
        let header_end = match find_header_end(data) {
            Some(he) => he,
            None => return Err(HttpError::Incomplete),
        };
        let block = &data[0..header_end];
        assert(block@ =~= data@.take(header_end as int));
        let lines = split_lines(block);
        let ghost ls = block_lines(block@);
        assert(lines@[0]@ == ls[0]);
        let (status, reason) = match parse_status_line(lines[0].as_slice()) {
            Ok(sr) => sr,
            Err(e) => return Err(e),
        };
        let ghost fields = ls.skip(1);
        let mut headers: Vec<(String, String)> = Vec::new();
        let mut i: usize = 1;
        while i < lines.len()
            invariant
                1 <= i <= lines@.len(),
                lines_view(lines@) == ls,
                fields == ls.skip(1),
                ls == block_lines(data@.take(header_end as int)),
                find_seq(data@, crlf_crlf()) == Some(header_end as int),
                status_line_model(ls[0]) == Some((status, reason@)),
                header_fields_model(fields.take(i - 1)) == Some(headers_view(headers@)),
            decreases lines@.len() - i,
        {
            let ghost prefix = fields.take(i - 1);
            let ghost next = fields.take(i as int);
            assert(next.drop_last() =~= prefix);
            assert(lines@[i as int]@ == ls[i as int]);
            assert(next.last() == lines@[i as int]@);
            if lines[i].len() == 0 {
                i = i + 1;
                continue;
            }
            match parse_header_line(lines[i].as_slice()) {
                Ok(h) => {
                    let ghost before = headers@;
                    headers.push(h);
                    assert(headers_view(headers@) =~= headers_view(before).push((h.0@, h.1@)));
                },
                Err(e) => {
                    proof {
                        assert(fields[i - 1] == ls[i as int]);
                        assert(header_line_model(next.last()) is None);
                        assert(header_fields_model(next) is None);
                        lemma_fields_none_extends(fields, i as int);
                        assert(fields.take(fields.len() as int) =~= fields);
                    }
                    return Err(e);
                },
            }
            i = i + 1;
        }
        assert(fields.take(i - 1) =~= fields);
        Ok((header_end + 4, status, reason, headers))
    }

    /// Get the value of a header by name (case-insensitive).
    pub fn header(&self, name: &str) -> (r: Option<&str>)
        ensures
            match header_index(headers_view(self.headers@), name@) {
                Some(i) => r matches Some(v) && v@ == self.headers@[i].1@,
                None => r is None,
            },
    {
        let ghost hs = headers_view(self.headers@);
        let target = chars_of(name);
        let mut i: usize = 0;
        while i < self.headers.len()
            invariant
                i <= self.headers@.len(),
                hs == headers_view(self.headers@),
                target@ == name@,
                header_index(hs, name@) == header_index_from(hs, name@, i as int),
            decreases self.headers@.len() - i,
        {
            let n = chars_of(self.headers[i].0.as_str());
            if chars_eq_ignore_ascii_case(n.as_slice(), target.as_slice()) {
                return Some(self.headers[i].1.as_str());
            }
            i = i + 1;
        }
        None
    }
}

// ---------------------------------------------------------------------------
// Chunked transfer encoding decoder
// ---------------------------------------------------------------------------

/// The size announced by a chunk-size line: the hexadecimal number before any
/// `;` extension, with surrounding whitespace removed.
pub open spec fn chunk_size_model(line: Seq<u8>) -> Result<nat, HttpError> {
    match utf8_chars(line) {
        None => Err(HttpError::InvalidHeader),
        Some(cs) => {
            let size = match index_of(cs, ';') {
                Some(k) => cs.take(k),
                None => cs,
            };
            match parse_unsigned(trim(size), true, usize::MAX as nat) {
                Some(n) => Ok(n),
                None => Err(HttpError::InvalidContentLength),
            }
        },
    }
}

/// The trailer section after the last (zero-size) chunk has fully arrived:
/// it is empty (the stream goes on with `\r\n`), or its header lines end with
/// an empty line. The trailer fields themselves are not kept.
pub open spec fn trailer_complete(rest: Seq<u8>) -> bool {
    starts_with(rest, crlf()) || find_seq(rest, crlf_crlf()) is Some
}

/// Decoding of the chunks that start at `pos`: each chunk is a size line, that
/// many bytes and `\r\n`; the stream ends with a zero-size chunk line followed
/// by a complete trailer section.
pub open spec fn chunked_from(data: Seq<u8>, pos: int) -> Result<Seq<u8>, HttpError>
    decreases data.len() - pos,
{
    if pos < 0 || pos > data.len() {
        Err(HttpError::Incomplete)
    } else {
        match find_seq(data.skip(pos), crlf()) {
            None => Err(HttpError::Incomplete),
            Some(le) => match chunk_size_model(data.subrange(pos, pos + le)) {
                Err(e) => Err(e),
                Ok(n) => {
                    let p = pos + le + 2;
                    if n == 0 {
                        if trailer_complete(data.skip(p)) {
                            Ok(seq![])
                        } else {
                            Err(HttpError::Incomplete)
                        }
                    } else if p + n + 2 > data.len() || data[p + n] != 13u8 || data[p + n + 1]
                        != 10u8 {
                        Err(HttpError::Incomplete)
                    } else {
                        proof {
                            crate::text::lemma_find_from(data.skip(pos), crlf(), 0);
                        }
                        match chunked_from(data, p + n + 2) {
                            Ok(rest) => Ok(data.subrange(p, p + n) + rest),
                            Err(e) => Err(e),
                        }
                    }
                },
            },
        }
    }
}

/// Parse a chunk-size line.
fn parse_chunk_size(line: &[u8]) -> (r: Result<usize, HttpError>)
    ensures
        match chunk_size_model(line@) {
            Ok(n) => r == Ok::<usize, HttpError>(n as usize),
            Err(e) => r == Err::<usize, HttpError>(e),
        },
{
    let s = match str_from_utf8(line) {
        Some(s) => s,
        None => return Err(HttpError::InvalidHeader),
    };
    proof {
        lemma_decoded(s, line@);
    }
    let cs = chars_of(s);
    let all = cs.as_slice();
    let size: &[char] = match index_of_char(all, ';', 0) {
        Some(k) => {
            proof {
                lemma_index_of_from(all@, ';', 0);
            }
            let p = &all[0..k];
            assert(p@ =~= all@.take(k as int));
            p
        },
        None => {
            let p = &all[0..all.len()];
            assert(p@ =~= all@);
            p
        },
    };
    let (a, b) = trim_bounds(size);
    let digits = &size[a..b];
    assert(utf8_chars(line@) == Some(all@));
    match parse_unsigned_chars(digits, true, usize::MAX as u64) {
        Some(n) => Ok(n as usize),
        None => Err(HttpError::InvalidContentLength),
    }
}

/// Whether the trailer section starting at `tail` has fully arrived.
fn trailer_done(tail: &[u8]) -> (r: bool)
    ensures
        r == trailer_complete(tail@),
{
    let starts_crlf = tail.len() >= 2 && tail[0] == 13 && tail[1] == 10;
    assert(starts_crlf == starts_with(tail@, crlf())) by {
        if tail@.len() >= 2 {
            assert(starts_with(tail@, crlf()) ==> tail@.take(2)[0] == 13u8 && tail@.take(2)[1] == 10u8);
            if tail@[0] == 13u8 && tail@[1] == 10u8 {
                assert(tail@.take(2) =~= crlf());
            }
        }
    }
    if starts_crlf {
        return true;
    }
    proof {
        crate::text::lemma_find_from(tail@, crlf_crlf(), 0);
    }
    let pat: [u8; 4] = [13, 10, 13, 10];
    assert(pat@ =~= crlf_crlf());
    find_subsequence(tail, &pat).is_some()
}

/// Decode a chunked transfer-encoded body.
///
/// Takes the raw bytes after the headers and decodes chunk-by-chunk until the
/// terminating zero-size chunk and the end of its trailer section (`0\r\n\r\n`
/// when there are no trailer fields, which are skipped).
///
/// Returns the decoded body bytes on success, or `Err(Incomplete)` if the
/// chunked stream is not yet complete.
pub fn decode_chunked(data: &[u8]) -> (r: Result<Vec<u8>, HttpError>)
    ensures
        match chunked_from(data@, 0) {
            Ok(body) => r matches Ok(v) && v@ == body,
            Err(e) => r == Err::<Vec<u8>, HttpError>(e),
        },
{
    let len = data.len();
    let mut result: Vec<u8> = Vec::new();
    let mut pos: usize = 0;
    loop
        invariant
            len == data@.len(),
            pos <= data@.len(),
            chunked_from(data@, 0) == match chunked_from(data@, pos as int) {
                Ok(rest) => Ok(result@ + rest),
                Err(e) => Err(e),
            },
        decreases data@.len() - pos,
    {
        let rest = &data[pos..len];
        assert(rest@ =~= data@.skip(pos as int));
        let line_end = match find_crlf(rest) {
            Some(le) => le,
            None => return Err(HttpError::Incomplete),
        };
        let line = &data[pos..pos + line_end];
        let chunk_size = match parse_chunk_size(line) {
            Ok(n) => n,
            Err(e) => return Err(e),
        };
        pos = pos + line_end + 2;
        if chunk_size == 0 {
            let tail = &data[pos..len];
            assert(tail@ =~= data@.skip(pos as int));
            if trailer_done(tail) {
                assert(result@ + Seq::<u8>::empty() =~= result@);
                return Ok(result);
            }
            return Err(HttpError::Incomplete);
        }
        if chunk_size > len - pos || len - pos - chunk_size < 2 {
            return Err(HttpError::Incomplete);
        }
        if data[pos + chunk_size] != 13 || data[pos + chunk_size + 1] != 10 {
            return Err(HttpError::Incomplete);
        }
        let ghost before = result@;
        append_bytes(&mut result, &data[pos..pos + chunk_size]);
        proof {
            let ghost chunk = data@.subrange(pos as int, pos + chunk_size);
            match chunked_from(data@, pos + chunk_size + 2) {
                Ok(more) => {
                    assert(before + (chunk + more) =~= result@ + more);
                },
                Err(_) => {},
            }
        }
        pos = pos + chunk_size + 2;
    }
}

// ---------------------------------------------------------------------------
// SSE (Server-Sent Events) line parser
// ---------------------------------------------------------------------------

/// An SSE event parsed from stream data.
#[derive(Debug, Clone)]
pub struct SseEvent {
    /// Event type (from `event:` field), or empty for default message events.
    pub event: String,
    /// Event data (from `data:` field(s), concatenated with newlines).
    pub data: String,
}

/// The parser's state between lines: the events so far, and the event type
/// and data of the event being read.
pub type SseState = (Seq<(Seq<char>, Seq<char>)>, Seq<char>, Seq<char>);

/// A line without its trailing `\r` characters.
pub open spec fn trim_end_cr(l: Seq<char>) -> Seq<char>
    decreases l.len(),
{
    if l.len() > 0 && l.last() == '\r' {
        trim_end_cr(l.drop_last())
    } else {
        l
    }
}

/// One line of an event stream: a blank line ends the current event (which is
/// emitted when it has data), `event:` sets the event type, `data:` adds a line
/// of data, and anything else is ignored.
pub open spec fn sse_step(st: SseState, line: Seq<char>) -> SseState {
    let l = trim_end_cr(line);
    if l.len() == 0 {
        (
            if st.2.len() > 0 {
                st.0.push((st.1, st.2))
            } else {
                st.0
            },
            seq![],
            seq![],
        )
    } else if starts_with(l, "event:"@) {
        (st.0, trim_start(l.skip("event:"@.len() as int)), st.2)
    } else if starts_with(l, "data:"@) {
        (
            st.0,
            st.1,
            (if st.2.len() > 0 {
                st.2.push('\n')
            } else {
                st.2
            }) + trim_start(l.skip("data:"@.len() as int)),
        )
    } else {
        st
    }
}

/// No events yet, and an empty event being read.
pub open spec fn sse_start() -> SseState {
    (seq![], seq![], seq![])
}

/// The lines, in order, fed to the parser.
pub open spec fn sse_run(lines: Seq<Seq<char>>, st: SseState) -> SseState
    decreases lines.len(),
{
    if lines.len() == 0 {
        st
    } else {
        sse_run(lines.drop_first(), sse_step(st, lines[0]))
    }
}

/// The events of a stream chunk: none unless it is valid UTF-8; otherwise the
/// events completed by blank lines among its `\n`-separated lines.
pub open spec fn sse_events_model(data: Seq<u8>) -> Seq<(Seq<char>, Seq<char>)> {
    match utf8_chars(data) {
        Some(text) => sse_run(split_on(text, '\n'), sse_start()).0,
        None => seq![],
    }
}

/// The event types and data of a list of events.
pub open spec fn events_view(es: Seq<SseEvent>) -> Seq<(Seq<char>, Seq<char>)> {
    es.map_values(|e: SseEvent| (e.event@, e.data@))
}

/// Parse SSE events from a chunk of stream data.
///
/// SSE events are delimited by blank lines.  Each event consists of
/// `field: value` lines where field is one of `event`, `data`, `id`, or
/// `retry`.  We only care about `event` and `data`.
///
/// Returns a vector of parsed events and the number of bytes consumed.
pub fn parse_sse_events(data: &[u8]) -> (r: (Vec<SseEvent>, usize))
    ensures
        events_view(r.0@) == sse_events_model(data@),
        r.1 == if valid_utf8(data@) {
            data@.len()
        } else {
            0
        },
{
    let text = match str_from_utf8(data) {
        Some(t) => t,
        None => return (Vec::new(), 0),
    };
    proof {
        lemma_decoded(text, data@);
    }
    let cs = chars_of(text);
    let all = cs.as_slice();
    let event_prefix = chars_of("event:");
    let data_prefix = chars_of("data:");
    let mut events: Vec<SseEvent> = Vec::new();
    let mut current_event = String::new();
    let mut current_data = String::new();
    let mut start: usize = 0;
    assert(all@.skip(0) =~= all@);
    assert(events_view(events@) =~= Seq::<(Seq<char>, Seq<char>)>::empty());
    assert((events_view(events@), current_event@, current_data@) == sse_start());
    loop
        invariant
            start <= all@.len(),
            valid_utf8(data@),
            all@ == decode_utf8(data@),
            event_prefix@ == "event:"@,
            data_prefix@ == "data:"@,
            sse_run(split_on(all@, '\n'), sse_start()) == sse_run(
                split_on(all@.skip(start as int), '\n'),
                (events_view(events@), current_event@, current_data@),
            ),
        decreases all@.len() - start,
    {
        let n = all.len();
        let rest = &all[start..n];
        assert(rest@ =~= all@.skip(start as int));
        proof {
            lemma_index_of_from(rest@, '\n', 0);
        }
        let found = index_of_char(rest, '\n', 0);
        let line_len = match found {
            Some(k) => k,
            None => rest.len(),
        };
        let line = &rest[0..line_len];
        let ghost st = (events_view(events@), current_event@, current_data@);
        sse_apply_line(line, event_prefix.as_slice(), data_prefix.as_slice(), &mut events, &mut current_event, &mut current_data);
        match found {
            Some(k) => {
                proof {
                    assert(line@ =~= rest@.take(k as int));
                    assert(rest@.skip(k + 1) =~= all@.skip(start + k + 1));
                    let tail = split_on(rest@.skip(k + 1), '\n');
                    assert(split_on(rest@, '\n') =~= seq![rest@.take(k as int)] + tail);
                    assert((seq![rest@.take(k as int)] + tail).drop_first() =~= tail);
                }
                start = start + k + 1;
            },
            None => {
                proof {
                    assert(line@ =~= rest@);
                    assert(split_on(rest@, '\n') =~= seq![rest@]);
                    assert(seq![rest@].drop_first() =~= Seq::<Seq<char>>::empty());
                    let fin = (events_view(events@), current_event@, current_data@);
                    assert(sse_run(seq![rest@], st) == sse_run(Seq::<Seq<char>>::empty(), fin));
                    assert(sse_run(split_on(all@, '\n'), sse_start()) == fin);
                }
                return (events, data.len());
            },
        }
    }
}

/// Feed one line to the event-stream parser.
fn sse_apply_line(
    line: &[char],
    event_prefix: &[char],
    data_prefix: &[char],
    events: &mut Vec<SseEvent>,
    current_event: &mut String,
    current_data: &mut String,
)
    requires
        event_prefix@ == "event:"@,
        data_prefix@ == "data:"@,
    ensures
        (events_view(final(events)@), final(current_event)@, final(current_data)@) == sse_step(
            (events_view(old(events)@), old(current_event)@, old(current_data)@),
            line@,
        ),
{
    let mut end = line.len();
    assert(line@.take(end as int) =~= line@);
    while end > 0 && line[end - 1] == '\r'
        invariant
            end <= line@.len(),
            trim_end_cr(line@) == trim_end_cr(line@.take(end as int)),
        decreases end,
    {
        assert(line@.take(end as int).drop_last() =~= line@.take(end - 1));
        end = end - 1;
    }
    let l = &line[0..end];
    assert(l@ =~= line@.take(end as int));
    assert(trim_end_cr(l@) == l@);
    if end == 0 {
        if !current_data.as_str().is_empty() {
            let ghost before = events@;
            let ev = SseEvent { event: current_event.clone(), data: current_data.clone() };
            events.push(ev);
            assert(events_view(events@) =~= events_view(before).push((old(current_event)@, old(current_data)@)));
        }
        *current_event = String::new();
        *current_data = String::new();
        return;
    }
    if chars_start_with(l, event_prefix) {
        let plen = event_prefix.len();
        let value = &l[plen..end];
        assert(value@ =~= l@.skip(plen as int));
        let a = skip_whitespace(value, 0);
        proof {
            crate::text::lemma_skip_ws_from(value@, 0);
        }
        let v = &value[a..value.len()];
        assert(v@ =~= trim_start(value@));
        *current_event = string_from_chars(v);
    } else if chars_start_with(l, data_prefix) {
        let plen = data_prefix.len();
        let value = &l[plen..end];
        assert(value@ =~= l@.skip(plen as int));
        let a = skip_whitespace(value, 0);
        proof {
            crate::text::lemma_skip_ws_from(value@, 0);
        }
        let v = &value[a..value.len()];
        assert(v@ =~= trim_start(value@));
        if !current_data.as_str().is_empty() {
            append_chars(current_data, &['\n']);
        }
        append_chars(current_data, v);
    }
}

// ---------------------------------------------------------------------------
// Raw header scanning
// ---------------------------------------------------------------------------

/// ASCII lower-casing of a byte.
pub open spec fn lower_byte(b: u8) -> u8 {
    if 65 <= b <= 90 {
        (b + 32) as u8
    } else {
        b
    }
}

/// ASCII lower-casing of bytes.
pub open spec fn lower_bytes(s: Seq<u8>) -> Seq<u8> {
    s.map_values(|b: u8| lower_byte(b))
}

/// `find_subsequence`: the first occurrence of a non-empty needle.
pub open spec fn find_nonempty(hay: Seq<u8>, needle: Seq<u8>) -> Option<int> {
    if needle.len() == 0 {
        None
    } else {
        find_seq(hay, needle)
    }
}

/// Index of the first byte at or after `i` that is not a space.
pub open spec fn skip_spaces_from(s: Seq<u8>, i: int) -> int
    decreases s.len() - i,
{
    if i < 0 || i >= s.len() {
        i
    } else if s[i] == 32u8 {
        skip_spaces_from(s, i + 1)
    } else {
        i
    }
}

/// Index of the first byte at or after `i` that is not an ASCII digit.
pub open spec fn digits_end_from(s: Seq<u8>, i: int) -> int
    decreases s.len() - i,
{
    if i < 0 || i >= s.len() {
        i
    } else if 48 <= s[i] <= 57 {
        digits_end_from(s, i + 1)
    } else {
        i
    }
}

/// Bytes read as characters, one for one.
pub open spec fn bytes_as_chars(s: Seq<u8>) -> Seq<char> {
    s.map_values(|b: u8| b as char)
}

/// The `Content-Length` of a raw header block: the digits that follow the
/// first `content-length:` (in any case) after any spaces, as a `usize`.
pub open spec fn raw_content_length_model(headers: Seq<u8>) -> Option<nat> {
    let needle = encode_utf8("content-length:"@);
    match find_nonempty(lower_bytes(headers), needle) {
        None => None,
        Some(pos) => {
            let after = headers.skip(pos + needle.len());
            let start = skip_spaces_from(after, 0);
            let digits = after.subrange(start, digits_end_from(after, start));
            if digits.len() == 0 {
                None
            } else {
                parse_unsigned(bytes_as_chars(digits), false, usize::MAX as nat)
            }
        },
    }
}

/// Whether `value` occurs (ignoring ASCII case) somewhere after the first
/// occurrence of `name` (ignoring ASCII case) in a raw header block.
pub open spec fn header_contains_value_model(headers: Seq<u8>, name: Seq<u8>, value: Seq<u8>) -> bool {
    let lower = lower_bytes(headers);
    let name_lower = lower_bytes(name);
    match find_nonempty(lower, name_lower) {
        None => false,
        Some(pos) => find_nonempty(lower.skip(pos + name_lower.len()), lower_bytes(value)) is Some,
    }
}

fn lower_bytes_exec(s: &[u8]) -> (r: Vec<u8>)
    ensures
        r@ == lower_bytes(s@),
{
    let mut v: Vec<u8> = Vec::new();
    let mut i: usize = 0;
    while i < s.len()
        invariant
            i <= s@.len(),
            v@ == lower_bytes(s@.take(i as int)),
        decreases s@.len() - i,
    {
        let b = s[i];
        v.push(if 65 <= b && b <= 90 { b + 32 } else { b });
        i = i + 1;
        assert(v@ =~= lower_bytes(s@.take(i as int)));
    }
    assert(s@.take(i as int) =~= s@);
    v
}

/// Parse Content-Length value from raw header bytes.
pub(crate) fn parse_content_length_from_raw(headers: &[u8]) -> (r: Option<usize>)
    ensures
        match raw_content_length_model(headers@) {
            Some(n) => r == Some(n as usize),
            None => r is None,
        },
{
    let lower = lower_bytes_exec(headers);
    let needle = "content-length:".as_bytes();
    let pos = match find_subsequence(lower.as_slice(), needle) {
        Some(p) => p,
        None => return None,
    };
    let n = headers.len();
    let after = &headers[pos + needle.len()..n];
    assert(after@ =~= headers@.skip(pos + needle@.len()));
    let mut start: usize = 0;
    while start < after.len() && after[start] == 32
        invariant
            start <= after@.len(),
            skip_spaces_from(after@, 0) == skip_spaces_from(after@, start as int),
        decreases after@.len() - start,
    {
        start = start + 1;
    }
    let mut end = start;
    while end < after.len() && 48 <= after[end] && after[end] <= 57
        invariant
            start <= end <= after@.len(),
            digits_end_from(after@, start as int) == digits_end_from(after@, end as int),
            forall|k: int| start <= k < end ==> 48 <= #[trigger] after@[k] <= 57,
        decreases after@.len() - end,
    {
        end = end + 1;
    }
    assert(needle@ == encode_utf8("content-length:"@));
    if end == start {
        return None;
    }
    let mut digits: Vec<char> = Vec::new();
    let mut i = start;
    while i < end
        invariant
            start <= i <= end <= after@.len(),
            digits@ == bytes_as_chars(after@.subrange(start as int, i as int)),
        decreases end - i,
    {
        digits.push(after[i] as char);
        i = i + 1;
        assert(digits@ =~= bytes_as_chars(after@.subrange(start as int, i as int)));
    }
    match parse_unsigned_chars(digits.as_slice(), false, usize::MAX as u64) {
        Some(v) => Some(v as usize),
        None => None,
    }
}

/// Case-insensitive check for a header name containing a value.
pub(crate) fn header_contains_value(headers: &[u8], name: &[u8], value: &[u8]) -> (r: bool)
    ensures
        r == header_contains_value_model(headers@, name@, value@),
{
    let lower = lower_bytes_exec(headers);
    let name_lower = lower_bytes_exec(name);
    let value_lower = lower_bytes_exec(value);
    match find_subsequence(lower.as_slice(), name_lower.as_slice()) {
        Some(pos) => {
            let n = lower.len();
            let rest = &lower.as_slice()[pos + name_lower.len()..n];
            assert(rest@ =~= lower@.skip(pos + name_lower@.len()));
            find_subsequence(rest, value_lower.as_slice()).is_some()
        },
        None => false,
    }
}

// ---------------------------------------------------------------------------
// Laws
// ---------------------------------------------------------------------------

/// Once the header block of a response has arrived and parses, more arriving
/// bytes do not change what `parse_headers` returns.
pub proof fn parse_headers_stable_under_more_data(data: Seq<u8>, more: Seq<u8>)
    requires
        header_block_model(data) is Ok,
    ensures
        header_block_model(data + more) == header_block_model(data),
{
    let he = find_seq(data, crlf_crlf())->0;
    crate::text::lemma_find_from(data, crlf_crlf(), 0);
    crate::text::lemma_find_from_extend(data, more, crlf_crlf(), 0);
    assert((data + more).take(he) =~= data.take(he));
}

/// `parse` agrees with `parse_headers` followed by `from_parts`: it fails as
/// `parse_headers` fails; with a `Content-Length` it is incomplete until that
/// many body bytes follow the header block, and then the body is exactly those
/// bytes; with one whose value is not a number it fails with
/// `InvalidContentLength`; without one the body is everything after the header
/// block.
pub proof fn parse_agrees_with_parse_headers(data: Seq<u8>)
    ensures
        match header_block_model(data) {
            Err(e) => response_model(data) == Err::<
                (u16, Seq<char>, Seq<(Seq<char>, Seq<char>)>, Seq<u8>),
                HttpError,
            >(e),
            Ok((start, status, reason, hs)) => match content_length_model(hs) {
                Some(len) => if start + len <= data.len() {
                    response_model(data) == Ok::<_, HttpError>(
                        (status, reason, hs, data.subrange(start as int, (start + len) as int)),
                    )
                } else {
                    response_model(data) == Err::<
                        (u16, Seq<char>, Seq<(Seq<char>, Seq<char>)>, Seq<u8>),
                        HttpError,
                    >(HttpError::Incomplete)
                },
                None => if header_index(hs, "content-length"@) is Some {
                    response_model(data) == Err::<
                        (u16, Seq<char>, Seq<(Seq<char>, Seq<char>)>, Seq<u8>),
                        HttpError,
                    >(HttpError::InvalidContentLength)
                } else {
                    response_model(data) == Ok::<_, HttpError>(
                        (status, reason, hs, data.skip(start as int)),
                    )
                },
            },
        },
{
    if let Ok((start, status, reason, hs)) = header_block_model(data) {
        crate::text::lemma_find_from(data, crlf_crlf(), 0);
    }
}

/// A response with a `Content-Length` that parses completely parses the same
/// once more bytes follow it.
pub proof fn parse_stable_under_more_data(data: Seq<u8>, more: Seq<u8>)
    requires
        response_model(data) is Ok,
        content_length_model(response_model(data)->Ok_0.2) is Some,
    ensures
        response_model(data + more) == response_model(data),
{
    parse_headers_stable_under_more_data(data, more);
    let (start, status, reason, hs) = header_block_model(data)->Ok_0;
    let len = content_length_model(hs)->0;
    assert((data + more).subrange(start as int, (start + len) as int) =~= data.subrange(start as int, (start + len) as int));
}

/// A chunked body that decodes completely decodes the same once more bytes
/// follow it.
pub proof fn decode_chunked_stable_under_more_data(data: Seq<u8>, more: Seq<u8>)
    requires
        chunked_from(data, 0) is Ok,
    ensures
        chunked_from(data + more, 0) == chunked_from(data, 0),
{
    lemma_chunked_from_extend(data, more, 0);
}

proof fn lemma_chunked_from_extend(data: Seq<u8>, more: Seq<u8>, pos: int)
    requires
        chunked_from(data, pos) is Ok,
    ensures
        chunked_from(data + more, pos) == chunked_from(data, pos),
    decreases data.len() - pos,
{
    let ext = data + more;
    assert(ext.skip(pos) =~= data.skip(pos) + more);
    crate::text::lemma_find_from(data.skip(pos), crlf(), 0);
    crate::text::lemma_find_from_extend(data.skip(pos), more, crlf(), 0);
    let le = find_seq(data.skip(pos), crlf())->0;
    assert(ext.subrange(pos, pos + le) =~= data.subrange(pos, pos + le));
    let n = chunk_size_model(data.subrange(pos, pos + le))->Ok_0;
    let p = pos + le + 2;
    if n == 0 {
        assert(ext.skip(p) =~= data.skip(p) + more);
        if starts_with(data.skip(p), crlf()) {
            assert(ext.skip(p).take(2) =~= data.skip(p).take(2));
        } else {
            crate::text::lemma_find_from(data.skip(p), crlf_crlf(), 0);
            crate::text::lemma_find_from_extend(data.skip(p), more, crlf_crlf(), 0);
        }
    } else {
        assert(ext.subrange(p, p + n) =~= data.subrange(p, p + n));
        lemma_chunked_from_extend(data, more, p + n + 2);
    }
}

/// The chunked transfer encoding of `chunks`: each as its size in
/// lower-case hexadecimal, `\r\n`, its bytes and `\r\n`, then the zero-size
/// chunk and an empty trailer section.
pub open spec fn chunked_encoding(chunks: Seq<Seq<u8>>) -> Seq<u8>
    decreases chunks.len(),
{
    if chunks.len() == 0 {
        encode_utf8(number_chars(0, true)) + crlf() + crlf()
    } else {
        encode_utf8(number_chars(chunks[0].len(), true)) + crlf() + chunks[0] + crlf() + chunked_encoding(
            chunks.drop_first(),
        )
    }
}

/// The bytes of `chunks`, one after another.
pub open spec fn concat_chunks(chunks: Seq<Seq<u8>>) -> Seq<u8>
    decreases chunks.len(),
{
    if chunks.len() == 0 {
        seq![]
    } else {
        chunks[0] + concat_chunks(chunks.drop_first())
    }
}

/// Chunk-encoding and then decoding gives back the chunks' bytes, for
/// chunks that are not empty (an empty chunk would end the stream) and whose
/// sizes fit in a `usize`.
pub proof fn chunked_encoding_decodes(chunks: Seq<Seq<u8>>)
    requires
        forall|i: int| 0 <= i < chunks.len() ==> 0 < #[trigger] chunks[i].len() <= usize::MAX,
    ensures
        chunked_from(chunked_encoding(chunks), 0) == Ok::<_, HttpError>(concat_chunks(chunks)),
{
    lemma_chunked_from_encoding(Seq::empty(), chunks);
    assert(Seq::<u8>::empty() + chunked_encoding(chunks) =~= chunked_encoding(chunks));
}

#[verifier::rlimit(50)]
proof fn lemma_chunked_from_encoding(pre: Seq<u8>, chunks: Seq<Seq<u8>>)
    requires
        forall|i: int| 0 <= i < chunks.len() ==> 0 < #[trigger] chunks[i].len() <= usize::MAX,
    ensures
        chunked_from(pre + chunked_encoding(chunks), pre.len() as int) == Ok::<_, HttpError>(
            concat_chunks(chunks),
        ),
    decreases chunks.len(),
{
    let data = pre + chunked_encoding(chunks);
    let pos = pre.len() as int;
    assert(data.skip(pos) =~= chunked_encoding(chunks));
    let n: nat = if chunks.len() == 0 {
        0
    } else {
        chunks[0].len()
    };
    let size = encode_utf8(number_chars(n, true));
    lemma_size_line(n);
    let tail = if chunks.len() == 0 {
        crlf()
    } else {
        chunks[0] + crlf() + chunked_encoding(chunks.drop_first())
    };
    assert(chunked_encoding(chunks) =~= size + crlf() + tail);
    lemma_first_crlf(size, tail);
    assert(data.subrange(pos, pos + size.len()) =~= size);
    let p = pos + size.len() + 2;
    assert(data.skip(p) =~= tail);
    if chunks.len() == 0 {
        assert(tail.take(2) =~= crlf());
        assert(starts_with(tail, crlf()));
        assert(trailer_complete(data.skip(p)));
        assert(concat_chunks(chunks) =~= Seq::<u8>::empty());
    } else {
        let c = chunks[0];
        assert(data.subrange(p, p + n) =~= c);
        assert(data[p + n] == 13u8 && data[p + n + 1] == 10u8) by {
            assert(data[p + n] == tail[n as int]);
            assert(data[p + n + 1] == tail[n as int + 1]);
        }
        let rest = chunks.drop_first();
        let pre2 = pre + size + crlf() + c + crlf();
        assert(data =~= pre2 + chunked_encoding(rest));
        assert(pre2.len() == p + n + 2);
        assert forall|i: int| 0 <= i < rest.len() implies 0 < #[trigger] rest[i].len() <= usize::MAX by {
            assert(rest[i] == chunks[i + 1]);
        }
        lemma_chunked_from_encoding(pre2, rest);
    }
}

/// The bytes of ASCII characters are their codes, one byte each.
pub proof fn lemma_encode_ascii(cs: Seq<char>)
    requires
        forall|i: int| 0 <= i < cs.len() ==> (#[trigger] cs[i] as u32) < 128,
    ensures
        encode_utf8(cs).len() == cs.len(),
        forall|i: int| 0 <= i < cs.len() ==> #[trigger] encode_utf8(cs)[i] == (cs[i] as u32) as u8,
    decreases cs.len(),
{
    if cs.len() > 0 {
        let v = cs[0] as u32;
        assert(v < 128);
        assert((v & 0x7F) as u8 == v as u8) by (bit_vector)
            requires
                v < 128,
        ;
        let rest = cs.drop_first();
        assert forall|i: int| 0 <= i < rest.len() implies (#[trigger] rest[i] as u32) < 128 by {
            assert(rest[i] == cs[i + 1]);
        }
        lemma_encode_ascii(rest);
        assert forall|i: int| 0 <= i < cs.len() implies #[trigger] encode_utf8(cs)[i] == (cs[i] as u32) as u8 by {
            if i > 0 {
                assert(encode_utf8(cs)[i] == encode_utf8(rest)[i - 1]);
                assert(rest[i - 1] == cs[i]);
            }
        }
    }
}

/// The size line of `n`: no `\r` in it, and it reads back as `n`.
proof fn lemma_size_line(n: nat)
    requires
        n <= usize::MAX,
    ensures
        encode_utf8(number_chars(n, true)).len() > 0,
        forall|i: int|
            0 <= i < encode_utf8(number_chars(n, true)).len() ==> #[trigger] encode_utf8(
                number_chars(n, true),
            )[i] != 13u8,
        chunk_size_model(encode_utf8(number_chars(n, true))) == Ok::<nat, HttpError>(n),
{
    broadcast use encode_utf8_valid_utf8, encode_utf8_decode_utf8;

    let cs = number_chars(n, true);
    crate::text::lemma_parse_number_chars(n, true, usize::MAX as nat);
    assert forall|i: int| 0 <= i < cs.len() implies (#[trigger] cs[i] as u32) < 128 && cs[i] != ';'
        && cs[i] != '\r' && !crate::text::is_whitespace(cs[i]) by {
        crate::text::lemma_digit_is_plain(cs[i], true);
    }
    lemma_encode_ascii(cs);
    assert forall|i: int| 0 <= i < cs.len() implies #[trigger] encode_utf8(cs)[i] != 13u8 by {
        assert(cs[i] != '\r');
        let v = cs[i] as u32;
        assert(v < 128 && v != 13);
        assert(v as u8 != 13u8) by (bit_vector)
            requires
                v < 128 && v != 13,
        ;
    }
    lemma_index_of_from(cs, ';', 0);
    assert(index_of(cs, ';') is None);
    crate::text::lemma_skip_ws_from(cs, 0);
    crate::text::lemma_skip_ws_back(cs, cs.len() as int);
    assert(trim(cs) =~= cs);
}

/// The first `\r\n` of `line + \r\n + rest`, when `line` holds no `\r`, is
/// the one after `line`.
proof fn lemma_first_crlf(line: Seq<u8>, rest: Seq<u8>)
    requires
        forall|i: int| 0 <= i < line.len() ==> #[trigger] line[i] != 13u8,
    ensures
        find_seq(line + crlf() + rest, crlf()) == Some(line.len() as int),
{
    let hay = line + crlf() + rest;
    crate::text::lemma_find_from(hay, crlf(), 0);
    assert(hay.subrange(line.len() as int, line.len() as int + 2) =~= crlf());
    assert(crate::text::matches_at(hay, crlf(), line.len() as int));
    assert forall|j: int| 0 <= j < line.len() implies !crate::text::matches_at(hay, crlf(), j) by {
        if crate::text::matches_at(hay, crlf(), j) {
            assert(hay.subrange(j, j + 2)[0] == hay[j]);
            assert(hay[j] == line[j]);
        }
    }
    match find_seq(hay, crlf()) {
        Some(k) => {
            assert(k == line.len());
        },
        None => {},
    }
}

/// The `Content-Length` a request carries is its body length in decimal:
/// `decimal(n)` is the UTF-8 text of the decimal digits of `n`, and reading
/// that text back as a number gives `n`.
pub proof fn content_length_is_decimal(n: nat)
    ensures
        decimal(n) == encode_utf8(number_chars(n, false)),
        utf8_chars(decimal(n)) == Some(number_chars(n, false)),
        parse_unsigned(number_chars(n, false), false, n) == Some(n),
{
    broadcast use encode_utf8_valid_utf8, encode_utf8_decode_utf8;

    let cs = number_chars(n, false);
    crate::text::lemma_parse_number_chars(n, false, n);
    assert forall|i: int| 0 <= i < cs.len() implies (#[trigger] cs[i] as u32) < 128 by {
        crate::text::lemma_digit_is_plain(cs[i], false);
    }
    lemma_encode_ascii(cs);
    lemma_decimal_digits(n);
    assert(decimal(n) =~= encode_utf8(cs));
}

/// `decimal(n)` holds, byte for byte, the codes of the decimal digits of `n`.
proof fn lemma_decimal_digits(n: nat)
    ensures
        decimal(n).len() == number_chars(n, false).len(),
        forall|i: int|
            0 <= i < decimal(n).len() ==> #[trigger] decimal(n)[i] == (number_chars(n, false)[i] as u32) as u8,
    decreases n,
{
    let d = n % 10;
    crate::text::lemma_digit_char(d, false);
    let c = crate::text::digit_char(d);
    assert((c as u32) == 48 + d);
    if n < 10 {
        assert(n == d);
    } else {
        lemma_decimal_digits(n / 10);
        let prev = number_chars(n / 10, false);
        assert(number_chars(n, false) == prev.push(c));
        assert forall|i: int| 0 <= i < decimal(n).len() implies #[trigger] decimal(n)[i] == (number_chars(
            n,
            false,
        )[i] as u32) as u8 by {
            if i < prev.len() {
                assert(decimal(n)[i] == decimal(n / 10)[i]);
            }
        }
    }
}

/// A `Content-Length` whose value is the decimal digits of any `n` up to
/// `usize::MAX` is read as `n`, and `parse` then takes exactly the `n` bytes
/// after the header block as the body.
pub proof fn content_length_reads_any_usize(data: Seq<u8>, i: int, n: nat)
    requires
        header_block_model(data) is Ok,
        header_index(header_block_model(data)->Ok_0.3, "content-length"@) == Some(i),
        trim(header_block_model(data)->Ok_0.3[i].1) == number_chars(n, false),
        n <= usize::MAX,
    ensures
        content_length_model(header_block_model(data)->Ok_0.3) == Some(n),
        header_block_model(data)->Ok_0.0 + n <= data.len() ==> response_model(data) == Ok::<_, HttpError>(
            (
                header_block_model(data)->Ok_0.1,
                header_block_model(data)->Ok_0.2,
                header_block_model(data)->Ok_0.3,
                data.subrange(
                    header_block_model(data)->Ok_0.0 as int,
                    (header_block_model(data)->Ok_0.0 + n) as int,
                ),
            ),
        ),
{
    crate::text::lemma_parse_number_chars(n, false, usize::MAX as nat);
    parse_agrees_with_parse_headers(data);
}

/// A header line written as `name: value` reads back as that name and value,
/// for a name without `:` and a value that does not start with whitespace:
/// the value is everything after the first colon, colons included.
pub proof fn header_line_round_trip(name: Seq<char>, value: Seq<char>)
    requires
        forall|k: int| 0 <= k < name.len() ==> name[k] != ':',
        value.len() > 0 ==> !crate::text::is_whitespace(value[0]),
    ensures
        header_line_model(encode_utf8(name + ": "@ + value)) == Some((name, value)),
{
    broadcast use encode_utf8_valid_utf8, encode_utf8_decode_utf8;

    reveal_strlit(": ");
    let cs = name + ": "@ + value;
    let k = name.len() as int;
    lemma_index_of_from(cs, ':', 0);
    assert(cs[k] == ':');
    assert forall|j: int| 0 <= j < k implies cs[j] != ':' by {
        assert(cs[j] == name[j]);
    }
    assert(index_of(cs, ':') == Some(k));
    assert(cs.take(k) =~= name);
    let after = cs.skip(k + 1);
    assert(after =~= seq![' '] + value);
    crate::text::lemma_skip_ws_from(after, 0);
    let r = crate::text::skip_ws_from(after, 0);
    assert(crate::text::is_whitespace(after[0]));
    if value.len() > 0 {
        assert(after[1] == value[0]);
    }
    assert(r == 1);
    assert(trim_start(after) =~= value);
}

/// Header lookup ignores ASCII case: two names equal up to ASCII case find
/// the same header.
pub proof fn header_lookup_ignores_case(hs: Seq<(Seq<char>, Seq<char>)>, a: Seq<char>, b: Seq<char>)
    requires
        eq_ignore_ascii_case(a, b),
    ensures
        header_index(hs, a) == header_index(hs, b),
{
    lemma_header_index_ignores_case(hs, a, b, 0);
}

proof fn lemma_header_index_ignores_case(
    hs: Seq<(Seq<char>, Seq<char>)>,
    a: Seq<char>,
    b: Seq<char>,
    i: int,
)
    requires
        eq_ignore_ascii_case(a, b),
    ensures
        header_index_from(hs, a, i) == header_index_from(hs, b, i),
    decreases hs.len() - i,
{
    if 0 <= i < hs.len() {
        assert(eq_ignore_ascii_case(hs[i].0, a) == eq_ignore_ascii_case(hs[i].0, b));
        lemma_header_index_ignores_case(hs, a, b, i + 1);
    }
}

/// Every event the stream parser emits carries data.
pub proof fn sse_events_have_data(data: Seq<u8>)
    ensures
        forall|i: int|
            0 <= i < sse_events_model(data).len() ==> (#[trigger] sse_events_model(data)[i]).1.len()
                > 0,
{
    if let Some(text) = utf8_chars(data) {
        lemma_sse_run_keeps_data(split_on(text, '\n'), sse_start());
    }
}

proof fn lemma_sse_run_keeps_data(lines: Seq<Seq<char>>, st: SseState)
    requires
        forall|i: int| 0 <= i < st.0.len() ==> (#[trigger] st.0[i]).1.len() > 0,
    ensures
        forall|i: int|
            0 <= i < sse_run(lines, st).0.len() ==> (#[trigger] sse_run(lines, st).0[i]).1.len() > 0,
    decreases lines.len(),
{
    if lines.len() > 0 {
        let next = sse_step(st, lines[0]);
        assert forall|i: int| 0 <= i < next.0.len() implies (#[trigger] next.0[i]).1.len() > 0 by {
            if i < st.0.len() {
                assert(next.0[i] == st.0[i]);
            }
        }
        lemma_sse_run_keeps_data(lines.drop_first(), next);
        assert(sse_run(lines, st) == sse_run(lines.drop_first(), next));
    }
}

/// The events of two streams joined after a blank line are the events of
/// the first followed by those of the second.
pub proof fn sse_events_of_joined_streams(a: Seq<char>, b: Seq<char>)
    requires
        a.len() >= 2,
        a[a.len() - 1] == '\n',
        a[a.len() - 2] == '\n',
    ensures
        sse_events_model(encode_utf8(a + b)) == sse_events_model(encode_utf8(a)) + sse_events_model(
            encode_utf8(b),
        ),
{
    broadcast use encode_utf8_valid_utf8, encode_utf8_decode_utf8;

    let t = a.drop_last();
    let t0 = t.drop_last();
    let nl = seq!['\n'];
    let empty = Seq::<char>::empty();
    assert(a =~= t + nl + empty);
    assert(a + b =~= t + nl + b);
    assert(t =~= t0 + nl + empty);
    lemma_split_on_join(t, b, '\n');
    lemma_split_on_join(t, empty, '\n');
    lemma_split_on_join(t0, empty, '\n');
    assert(index_of(empty, '\n') is None);
    assert(split_on(empty, '\n') == seq![empty]);
    let before = sse_run(split_on(t0, '\n'), sse_start());
    lemma_sse_run_concat(split_on(t0, '\n'), seq![empty], sse_start());
    assert(seq![empty].drop_first() =~= Seq::<Seq<char>>::empty());
    assert(trim_end_cr(empty) == empty);
    let st = sse_run(split_on(t, '\n'), sse_start());
    assert(split_on(t, '\n') == split_on(t0, '\n') + seq![empty]);
    assert(st == sse_run(seq![empty], before));
    assert(sse_run(seq![empty], before) == sse_run(Seq::<Seq<char>>::empty(), sse_step(before, empty)));
    assert(st == sse_step(before, empty));
    lemma_sse_run_concat(split_on(t, '\n'), seq![empty], sse_start());
    lemma_sse_run_concat(split_on(t, '\n'), split_on(b, '\n'), sse_start());
    assert(sse_run(split_on(a, '\n'), sse_start()) == sse_step(st, empty));
    lemma_sse_run_events_prefix(split_on(b, '\n'), st.0, st.1, st.2);
    assert(st.1 == empty && st.2 == empty);
}

/// Lines that are neither blank nor `event:` nor `data:` are ignored: an
/// `id:`, `retry:` or comment (`:`) line inserted between two lines of a
/// stream leaves its events unchanged.
pub proof fn sse_other_lines_change_nothing(x: Seq<char>, l: Seq<char>, b: Seq<char>)
    requires
        forall|k: int| 0 <= k < l.len() ==> l[k] != '\n',
        starts_with(l, "id:"@) || starts_with(l, "retry:"@) || starts_with(l, ":"@),
    ensures
        sse_events_model(encode_utf8(x + seq!['\n'] + l + seq!['\n'] + b)) == sse_events_model(
            encode_utf8(x + seq!['\n'] + b),
        ),
{
    broadcast use encode_utf8_valid_utf8, encode_utf8_decode_utf8;

    let nl = seq!['\n'];
    let with_line = x + nl + l + nl + b;
    assert(with_line =~= x + nl + (l + nl + b));
    lemma_split_on_join(x, l + nl + b, '\n');
    lemma_split_on_join(l, b, '\n');
    lemma_split_on_join(x, b, '\n');
    lemma_index_of_from(l, '\n', 0);
    assert(index_of(l, '\n') is None);
    assert(split_on(l, '\n') == seq![l]);
    let sx = split_on(x, '\n');
    let sb = split_on(b, '\n');
    assert(split_on(with_line, '\n') =~= sx + (seq![l] + sb));
    lemma_sse_run_concat(sx, seq![l] + sb, sse_start());
    lemma_sse_run_concat(seq![l], sb, sse_run(sx, sse_start()));
    lemma_sse_run_concat(sx, sb, sse_start());
    let st = sse_run(sx, sse_start());
    assert(seq![l].drop_first() =~= Seq::<Seq<char>>::empty());
    assert(sse_run(seq![l], st) == sse_run(Seq::<Seq<char>>::empty(), sse_step(st, l)));
    lemma_sse_ignored_line(st, l);
}

/// One `id:`, `retry:` or comment line leaves the parser's state as it was.
proof fn lemma_sse_ignored_line(st: SseState, l: Seq<char>)
    requires
        starts_with(l, "id:"@) || starts_with(l, "retry:"@) || starts_with(l, ":"@),
    ensures
        sse_step(st, l) == st,
{
    reveal_strlit("id:");
    reveal_strlit("retry:");
    reveal_strlit(":");
    reveal_strlit("event:");
    reveal_strlit("data:");
    lemma_trim_end_cr(l);
    let t = trim_end_cr(l);
    let p = if starts_with(l, "id:"@) {
        "id:"@
    } else if starts_with(l, "retry:"@) {
        "retry:"@
    } else {
        ":"@
    };
    assert(starts_with(l, p));
    assert(l.take(p.len() as int)[p.len() - 1] == p[p.len() - 1]);
    assert(p[p.len() - 1] == ':');
    assert(l[p.len() - 1] == ':');
    assert(p.len() - 1 < t.len());
    assert(t.take(p.len() as int) =~= l.take(p.len() as int));
    assert(t[0] == l[0]);
    assert(l.take(p.len() as int)[0] == p[0]);
    assert(l[0] == p[0]);
    assert(p[0] != 'e' && p[0] != 'd');
    assert(!starts_with(t, "event:"@)) by {
        if starts_with(t, "event:"@) {
            assert(t.take(6)[0] == t[0]);
        }
    }
    assert(!starts_with(t, "data:"@)) by {
        if starts_with(t, "data:"@) {
            assert(t.take(5)[0] == t[0]);
        }
    }
}

/// Removing trailing `\r`s keeps a prefix, and only `\r`s are removed.
proof fn lemma_trim_end_cr(l: Seq<char>)
    ensures
        trim_end_cr(l).len() <= l.len(),
        trim_end_cr(l) == l.take(trim_end_cr(l).len() as int),
        forall|j: int| trim_end_cr(l).len() <= j < l.len() ==> l[j] == '\r',
    decreases l.len(),
{
    if l.len() > 0 && l.last() == '\r' {
        lemma_trim_end_cr(l.drop_last());
        let t = trim_end_cr(l.drop_last());
        assert(l.drop_last().take(t.len() as int) =~= l.take(t.len() as int));
        assert forall|j: int| t.len() <= j < l.len() implies l[j] == '\r' by {
            if j < l.len() - 1 {
                assert(l.drop_last()[j] == l[j]);
            }
        }
    } else {
        assert(l.take(l.len() as int) =~= l);
    }
}

/// Splitting at a separator between two parts splits each part.
proof fn lemma_split_on_join<T>(x: Seq<T>, y: Seq<T>, sep: T)
    ensures
        split_on(x + seq![sep] + y, sep) == split_on(x, sep) + split_on(y, sep),
    decreases x.len(),
{
    let s = x + seq![sep] + y;
    lemma_index_of_from(s, sep, 0);
    lemma_index_of_from(x, sep, 0);
    match index_of(x, sep) {
        None => {
            assert(s[x.len() as int] == sep);
            assert(index_of(s, sep) == Some(x.len() as int));
            assert(s.take(x.len() as int) =~= x);
            assert(s.skip(x.len() as int + 1) =~= y);
        },
        Some(k) => {
            assert(s[k] == x[k]);
            assert(index_of(s, sep) == Some(k));
            assert(s.take(k) =~= x.take(k));
            let x2 = x.skip(k + 1);
            assert(s.skip(k + 1) =~= x2 + seq![sep] + y);
            lemma_split_on_join(x2, y, sep);
            assert(seq![x.take(k)] + (split_on(x2, sep) + split_on(y, sep)) =~= (seq![x.take(k)]
                + split_on(x2, sep)) + split_on(y, sep));
        },
    }
}

/// Running the parser over two runs of lines runs it over the first, then
/// the second.
proof fn lemma_sse_run_concat(l1: Seq<Seq<char>>, l2: Seq<Seq<char>>, st: SseState)
    ensures
        sse_run(l1 + l2, st) == sse_run(l2, sse_run(l1, st)),
    decreases l1.len(),
{
    if l1.len() > 0 {
        assert((l1 + l2).drop_first() =~= l1.drop_first() + l2);
        assert((l1 + l2)[0] == l1[0]);
        lemma_sse_run_concat(l1.drop_first(), l2, sse_step(st, l1[0]));
    } else {
        assert(l1 + l2 =~= l2);
    }
}

/// The events already emitted stay in front of those emitted later.
proof fn lemma_sse_run_events_prefix(
    ls: Seq<Seq<char>>,
    done: Seq<(Seq<char>, Seq<char>)>,
    event: Seq<char>,
    data: Seq<char>,
)
    ensures
        sse_run(ls, (done, event, data)) == (
            done + sse_run(ls, (seq![], event, data)).0,
            sse_run(ls, (seq![], event, data)).1,
            sse_run(ls, (seq![], event, data)).2,
        ),
    decreases ls.len(),
{
    let none = Seq::<(Seq<char>, Seq<char>)>::empty();
    if ls.len() == 0 {
        assert(done + none =~= done);
    } else {
        let a = sse_step((done, event, data), ls[0]);
        let b = sse_step((none, event, data), ls[0]);
        assert(a.0 =~= done + b.0);
        assert(a.1 == b.1 && a.2 == b.2);
        lemma_sse_run_events_prefix(ls.drop_first(), a.0, a.1, a.2);
        lemma_sse_run_events_prefix(ls.drop_first(), b.0, b.1, b.2);
        let r = sse_run(ls.drop_first(), (none, b.1, b.2));
        assert(done + (b.0 + r.0) =~= a.0 + r.0);
    }
}

/// The views of a list of byte vectors.
pub open spec fn lines_view(v: Seq<Vec<u8>>) -> Seq<Seq<u8>> {
    v.map_values(|l: Vec<u8>| l@)
}

/// A failing prefix makes the whole list of header lines fail.
proof fn lemma_fields_none_extends(lines: Seq<Seq<u8>>, j: int)
    requires
        0 <= j <= lines.len(),
        header_fields_model(lines.take(j)) is None,
    ensures
        header_fields_model(lines) is None,
    decreases lines.len() - j,
{
    if j < lines.len() {
        let t = lines.take(j + 1);
        assert(t.drop_last() =~= lines.take(j));
        lemma_fields_none_extends(lines, j + 1);
    } else {
        assert(lines.take(j) =~= lines);
    }
}

/// Find the offset of `\r\n\r\n` in `data`, returning the position of the
/// first `\r` in the sequence.
fn find_header_end(data: &[u8]) -> (r: Option<usize>)
    ensures
        r is None <==> find_seq(data@, crlf_crlf()) is None,
        r matches Some(k) ==> find_seq(data@, crlf_crlf()) == Some(k as int) && k + 4 <= data@.len(),
{
    proof {
        crate::text::lemma_find_from(data@, crlf_crlf(), 0);
    }
    let pat: [u8; 4] = [13, 10, 13, 10];
    assert(pat@ =~= crlf_crlf());
    find_subsequence(data, &pat)
}

/// Find the offset of the first `\r\n` in `data`.
fn find_crlf(data: &[u8]) -> (r: Option<usize>)
    ensures
        r is None <==> find_seq(data@, crlf()) is None,
        r matches Some(k) ==> find_seq(data@, crlf()) == Some(k as int) && k + 2 <= data@.len(),
{
    proof {
        crate::text::lemma_find_from(data@, crlf(), 0);
    }
    let pat: [u8; 2] = [13, 10];
    assert(pat@ =~= crlf());
    find_subsequence(data, &pat)
}

/// The first index at or after `from` holding `b`.
fn index_of_byte(s: &[u8], b: u8, from: usize) -> (r: Option<usize>)
    requires
        from <= s@.len(),
    ensures
        match index_of_from(s@, b, from as int) {
            Some(k) => r == Some(k as usize),
            None => r is None,
        },
{
    let mut i = from;
    while i < s.len()
        invariant
            from <= i <= s@.len(),
            index_of_from(s@, b, from as int) == index_of_from(s@, b, i as int),
        decreases s@.len() - i,
    {
        if s[i] == b {
            return Some(i);
        }
        i = i + 1;
    }
    None
}

/// Split header bytes into lines on `\n`, dropping one trailing `\r` from each.
fn split_lines(data: &[u8]) -> (r: Vec<Vec<u8>>)
    ensures
        lines_view(r@) == block_lines(data@),
        r@.len() >= 1,
{
    let mut out: Vec<Vec<u8>> = Vec::new();
    let mut start: usize = 0;
    assert(data@.skip(0) =~= data@);
    assert(lines_view(out@) =~= Seq::<Seq<u8>>::empty());
    loop
        invariant
            start <= data@.len(),
            block_lines(data@) == lines_view(out@) + block_lines(data@.skip(start as int)),
        decreases data@.len() - start,
    {
        let rest = &data[start..data.len()];
        assert(rest@ =~= data@.skip(start as int));
        proof {
            lemma_index_of_from(rest@, 10u8, 0);
        }
        match index_of_byte(rest, 10, 0) {
            Some(k) => {
                let line = strip_cr_exec(&rest[0..k]);
                let ghost before = out@;
                out.push(line);
                proof {
                    assert(rest@.skip(k + 1) =~= data@.skip(start + k + 1));
                    assert(split_on(rest@, 10u8) =~= seq![rest@.take(k as int)] + split_on(rest@.skip(k + 1), 10u8));
                    assert(block_lines(rest@) =~= seq![strip_cr(rest@.take(k as int))] + block_lines(rest@.skip(k + 1)));
                    assert(rest@.subrange(0, k as int) =~= rest@.take(k as int));
                    assert(lines_view(out@) =~= lines_view(before).push(strip_cr(rest@.take(k as int))));
                    assert(block_lines(data@) =~= lines_view(out@) + block_lines(data@.skip(start + k + 1)));
                }
                start = start + k + 1;
            },
            None => {
                let line = strip_cr_exec(rest);
                let ghost before = out@;
                out.push(line);
                proof {
                    assert(split_on(rest@, 10u8) =~= seq![rest@]);
                    assert(block_lines(rest@) =~= seq![strip_cr(rest@)]);
                    assert(lines_view(out@) =~= lines_view(before).push(strip_cr(rest@)));
                    assert(block_lines(data@) =~= lines_view(out@));
                }
                return out;
            },
        }
    }
}

/// A copy of `line` without one trailing `\r`.
fn strip_cr_exec(line: &[u8]) -> (r: Vec<u8>)
    ensures
        r@ == strip_cr(line@),
{
    if line.len() > 0 && line[line.len() - 1] == 13 {
        let v = slice_to_vec(&line[0..line.len() - 1]);
        assert(v@ =~= strip_cr(line@));
        v
    } else {
        slice_to_vec(line)
    }
}

/// Parse "HTTP/1.1 200 OK" into (200, "OK").
fn parse_status_line(line: &[u8]) -> (r: Result<(u16, String), HttpError>)
    ensures
        match status_line_model(line@) {
            Some((status, reason)) => r matches Ok(sr) && sr.0 == status && sr.1@ == reason,
            None => r == Err::<(u16, String), HttpError>(HttpError::InvalidStatusLine),
        },
{
    let s = match str_from_utf8(line) {
        Some(s) => s,
        None => return Err(HttpError::InvalidStatusLine),
    };
    proof {
        lemma_decoded(s, line@);
    }
    let cs = chars_of(s);
    let all = cs.as_slice();
    let a = match index_of_char(all, ' ', 0) {
        Some(a) => a,
        None => return Err(HttpError::InvalidStatusLine),
    };
    proof {
        lemma_index_of_from(all@, ' ', 0);
    }
    let n = all.len();
    let rest = &all[a + 1..n];
    assert(rest@ =~= cs@.skip(a + 1));
    proof {
        lemma_index_of_from(rest@, ' ', 0);
    }
    let (code, reason) = match index_of_char(rest, ' ', 0) {
        Some(b) => {
            let code = &rest[0..b];
            let reason = &rest[b + 1..rest.len()];
            assert(code@ =~= rest@.take(b as int));
            assert(reason@ =~= rest@.skip(b + 1));
            (code, reason)
        },
        None => {
            let empty = &rest[0..0];
            assert(empty@ =~= Seq::<char>::empty());
            assert(rest@ =~= rest@.subrange(0, rest@.len() as int));
            (&rest[0..rest.len()], empty)
        },
    };
    match parse_unsigned_chars(code, false, 65535) {
        Some(v) => Ok((v as u16, string_from_chars(reason))),
        None => Err(HttpError::InvalidStatusLine),
    }
}

/// Parse "Content-Type: application/json" into ("Content-Type", "application/json").
fn parse_header_line(line: &[u8]) -> (r: Result<(String, String), HttpError>)
    ensures
        match header_line_model(line@) {
            Some(h) => r matches Ok(p) && p.0@ == h.0 && p.1@ == h.1,
            None => r == Err::<(String, String), HttpError>(HttpError::InvalidHeader),
        },
{
    let s = match str_from_utf8(line) {
        Some(s) => s,
        None => return Err(HttpError::InvalidHeader),
    };
    proof {
        lemma_decoded(s, line@);
    }
    let cs = chars_of(s);
    let all = cs.as_slice();
    let colon = match index_of_char(all, ':', 0) {
        Some(k) => k,
        None => return Err(HttpError::InvalidHeader),
    };
    proof {
        lemma_index_of_from(all@, ':', 0);
    }
    let n = all.len();
    let name = &all[0..colon];
    let after = &all[colon + 1..n];
    assert(name@ =~= cs@.take(colon as int));
    assert(after@ =~= cs@.skip(colon + 1));
    let a = skip_whitespace(after, 0);
    proof {
        crate::text::lemma_skip_ws_from(after@, 0);
    }
    let value = &after[a..after.len()];
    assert(value@ =~= trim_start(after@));
    Ok((string_from_chars(name), string_from_chars(value)))
}

/// Append `bytes` to `buf`.
fn append_bytes(buf: &mut Vec<u8>, bytes: &[u8])
    ensures
        final(buf)@ == old(buf)@ + bytes@,
{
    let mut i: usize = 0;
    while i < bytes.len()
        invariant
            i <= bytes@.len(),
            buf@ == old(buf)@ + bytes@.take(i as int),
        decreases bytes@.len() - i,
    {
        buf.push(bytes[i]);
        i = i + 1;
        assert(buf@ =~= old(buf)@ + bytes@.take(i as int));
    }
    assert(bytes@.take(i as int) =~= bytes@);
}

/// The decimal digits of `n`, as ASCII bytes.
fn decimal_bytes(n: usize) -> (r: Vec<u8>)
    ensures
        r@ == decimal(n as nat),
    decreases n,
{
    if n < 10 {
        let mut v: Vec<u8> = Vec::new();
        v.push((48 + n) as u8);
        assert(v@ =~= decimal(n as nat));
        v
    } else {
        let mut v = decimal_bytes(n / 10);
        v.push((48 + n % 10) as u8);
        assert(v@ =~= decimal(n as nat));
        v
    }
}

} // verus!
