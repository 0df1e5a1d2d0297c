# HTTP/1.1 transport, verified

A small HTTP/1.1 transport layer written in Verus: every function carries a
contract over a mathematical model, and Verus proves the code against it.

- `src/http.rs`: request serialization (`HttpRequest::to_bytes` produces exactly
  `request_bytes`), response parsing (`HttpResponse::parse` and
  `parse_headers` follow `response_model` / `header_block_model`), chunked
  transfer decoding (`chunked_from`, trailer fields skipped), and server-sent
  events (`sse_events_model`), with laws such as "parsing is stable once the
  message is complete", "chunk-encoding then decoding gives the bytes back" and
  "two event streams joined after a blank line give both lists of events".
- `src/url.rs`: `http://` / `https://` URL parsing against `url_model`; a
  parsed URL written out again as `scheme://host:port` and its path parses
  back to the same parts.
- `src/header_map.rs`: `HeaderMap`, a sorted map of header names to values whose
  view is a `Map` and whose invariant keeps the keys strictly increasing.
- `src/transport.rs`: `SmoltcpTransport`, which drives a user-supplied
  `NetworkBackend`. The trait has two spec functions, `ready` and `log`; each
  backend method promises to append its own arguments and result to `log`.
  Over that log, the contract of `execute_sync` states the host resolved, where
  the connection goes, the exact request bytes sent, the receive buffer, when
  reading stops, and that the answer is what `parse_response` makes of the
  bytes received (or the failure the backend's answers lead to).
- `src/text.rs`: sequence search, character and number helpers shared by the
  parsers, and the two standard-library calls (`str::from_utf8`,
  `String::push`) whose behaviour the proofs take on trust.

The tests under `tests/` run the library, including the transport against a
scripted backend.
