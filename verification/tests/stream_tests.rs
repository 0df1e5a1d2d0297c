use lib::{decode_chunked, find_subsequence, parse_sse_events, HttpError};

#[test]
fn chunk_extensions_and_uppercase_hex() {
    let data = b"A;name=value\r\n0123456789\r\n1\r\n!\r\n0\r\n\r\n";
    assert_eq!(decode_chunked(data).unwrap(), b"0123456789!".to_vec());
}

#[test]
fn chunk_size_with_whitespace_and_plus() {
    let data = b" 3 \r\nabc\r\n+2\r\nde\r\n0\r\n\r\n";
    assert_eq!(decode_chunked(data).unwrap(), b"abcde".to_vec());
}

#[test]
fn empty_stream_decodes_to_nothing() {
    assert_eq!(decode_chunked(b"0\r\n\r\n").unwrap(), Vec::<u8>::new());
}

#[test]
fn chunked_incomplete_cases() {
    for data in [
        &b""[..],
        &b"5\r\nhel"[..],
        &b"5\r\nhello"[..],
        &b"5\r\nhelloXY0\r\n\r\n"[..],
        &b"5\r\nhello\r\n0\r\n"[..],
        &b"5\r\nhello\r\n"[..],
        &b"5"[..],
        &b"0\r\nX-Trailer: 1\r\n"[..],
        &b"ffffffffffffffff\r\nabc\r\n"[..],
    ] {
        assert!(matches!(decode_chunked(data), Err(HttpError::Incomplete)), "{:?}", data);
    }
}

#[test]
fn chunked_trailer_fields_are_skipped() {
    assert_eq!(decode_chunked(b"0\r\nX-Trailer: 1\r\n\r\n").unwrap(), Vec::<u8>::new());
    assert_eq!(
        decode_chunked(b"3\r\nabc\r\n0\r\nA: 1\r\nB: 2\r\n\r\nextra").unwrap(),
        b"abc".to_vec()
    );
}

#[test]
fn chunked_bad_size() {
    assert!(matches!(decode_chunked(b"zz\r\nabc\r\n0\r\n\r\n"), Err(HttpError::InvalidContentLength)));
    assert!(matches!(decode_chunked(b"\r\n"), Err(HttpError::InvalidContentLength)));
    assert!(matches!(decode_chunked(b"1ffffffffffffffff\r\n"), Err(HttpError::InvalidContentLength)));
    assert!(matches!(decode_chunked(b"\xff\r\nabc\r\n"), Err(HttpError::InvalidHeader)));
}

#[test]
fn chunked_decoding_is_stable_when_more_bytes_arrive() {
    let a = decode_chunked(b"3\r\nabc\r\n0\r\n\r\n").unwrap();
    let b = decode_chunked(b"3\r\nabc\r\n0\r\n\r\ntrailing garbage").unwrap();
    assert_eq!(a, b);
}

#[test]
fn sse_multiple_data_lines_are_joined() {
    let data = b"data: one\ndata:two\ndata:   three\n\n";
    let (events, consumed) = parse_sse_events(data);
    assert_eq!(events.len(), 1);
    assert_eq!(events[0].event, "");
    assert_eq!(events[0].data, "one\ntwo\nthree");
    assert_eq!(consumed, data.len());
}

#[test]
fn sse_crlf_lines_and_several_events() {
    let data = b"event: a\r\ndata: 1\r\n\r\nevent: b\r\ndata: 2\r\r\n\r\n";
    let (events, _) = parse_sse_events(data);
    assert_eq!(events.len(), 2);
    assert_eq!((events[0].event.as_str(), events[0].data.as_str()), ("a", "1"));
    assert_eq!((events[1].event.as_str(), events[1].data.as_str()), ("b", "2"));
}

#[test]
fn sse_events_without_data_are_dropped() {
    let data = b"event: ping\n\n: comment\nid: 7\nretry: 10\n\n";
    let (events, consumed) = parse_sse_events(data);
    assert!(events.is_empty());
    assert_eq!(consumed, data.len());
}

#[test]
fn sse_unfinished_event_is_not_emitted_but_consumed() {
    let data = b"data: first\n\ndata: second";
    let (events, consumed) = parse_sse_events(data);
    assert_eq!(events.len(), 1);
    assert_eq!(events[0].data, "first");
    assert_eq!(consumed, data.len());
}

#[test]
fn sse_event_type_resets_after_blank_line() {
    let data = b"event: x\ndata: 1\n\ndata: 2\n\n";
    let (events, _) = parse_sse_events(data);
    assert_eq!(events[1].event, "");
    assert_eq!(events[1].data, "2");
}

#[test]
fn sse_invalid_utf8_consumes_nothing() {
    let (events, consumed) = parse_sse_events(b"data: \xff\n\n");
    assert!(events.is_empty());
    assert_eq!(consumed, 0);
}

#[test]
fn sse_empty_data_line_after_data_adds_newline() {
    let (events, _) = parse_sse_events(b"data: a\ndata:\n\n");
    assert_eq!(events[0].data, "a\n");
}

#[test]
fn sse_every_event_has_data() {
    let (events, _) = parse_sse_events(b"data:\n\nevent: e\n\ndata: x\n\n\n\n");
    assert_eq!(events.len(), 1);
    assert!(events.iter().all(|e| !e.data.is_empty()));
}

#[test]
fn find_subsequence_edges() {
    assert_eq!(find_subsequence(b"abcabc", b"bc"), Some(1));
    assert_eq!(find_subsequence(b"abc", b""), None);
    assert_eq!(find_subsequence(b"ab", b"abc"), None);
    assert_eq!(find_subsequence(b"abc", b"abc"), Some(0));
}

#[test]
fn sse_joined_streams_give_both_event_lists() {
    let a = "event: first\ndata: 1\n\n";
    let b = "data: 2\ndata: 3\n\nevent: x\n";
    let joined = format!("{}{}", a, b);
    let (ea, _) = parse_sse_events(a.as_bytes());
    let (eb, _) = parse_sse_events(b.as_bytes());
    let (ej, _) = parse_sse_events(joined.as_bytes());
    let view = |es: &Vec<lib::SseEvent>| es.iter().map(|e| (e.event.clone(), e.data.clone())).collect::<Vec<_>>();
    let mut expected = view(&ea);
    expected.extend(view(&eb));
    assert_eq!(view(&ej), expected);
    assert_eq!(ej.len(), 2);
}

#[test]
fn chunk_encoding_round_trip() {
    let chunks: Vec<Vec<u8>> = vec![b"hello".to_vec(), vec![b'x'; 26], b"!".to_vec()];
    let mut encoded = Vec::new();
    for c in &chunks {
        encoded.extend_from_slice(format!("{:x}\r\n", c.len()).as_bytes());
        encoded.extend_from_slice(c);
        encoded.extend_from_slice(b"\r\n");
    }
    encoded.extend_from_slice(b"0\r\n\r\n");
    assert!(encoded.starts_with(b"5\r\nhello\r\n1a\r\n"));
    assert_eq!(decode_chunked(&encoded).unwrap(), chunks.concat());
}
