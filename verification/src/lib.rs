//! A small HTTP/1.1 transport layer: request serialization, response parsing,
//! chunked transfer decoding, server-sent-event parsing, URL parsing, and a
//! transport that drives a pluggable network backend.

mod header_map;
mod http;
mod text;
mod transport;
mod url;

pub use http::{decode_chunked, parse_sse_events, HttpError, HttpRequest, HttpResponse, SseEvent};
pub use text::find_subsequence;
pub use url::{parse_url, ParsedUrl};
pub use header_map::HeaderMap;
pub use transport::{
    build_request, parse_response, read_step, response_complete, BackendError, CallLog, ConnectionHandle,
    NetworkBackend, ReadStep, SmoltcpResponse, SmoltcpTransport, SmoltcpTransportError,
};
