use pyruvate::request::Header;
use pyruvate::response::{Response, ResponseBody, serialize_response};
use pyruvate::codec::{parse_request, Limits, ParseResult};
use pyruvate::logger::access_record;

fn b(s: &str) -> Vec<u8> {
    s.as_bytes().to_vec()
}

#[test]
fn empty_body_gets_zero_content_length() {
    let resp = Response { status: 204, reason: b("No Content"), headers: vec![], body: ResponseBody::Empty };
    assert_eq!(
        serialize_response(&resp),
        b("HTTP/1.1 204 No Content\r\nContent-Length: 0\r\n\r\n")
    );
}

#[test]
fn header_order_is_preserved_on_the_wire() {
    let resp = Response {
        status: 200,
        reason: b("OK"),
        headers: vec![
            Header { name: b("X-B"), value: b("2") },
            Header { name: b("X-A"), value: b("1") },
            Header { name: b("X-C"), value: b("3") },
        ],
        body: ResponseBody::Empty,
    };
    assert_eq!(
        serialize_response(&resp),
        b("HTTP/1.1 200 OK\r\nX-B: 2\r\nX-A: 1\r\nX-C: 3\r\nContent-Length: 0\r\n\r\n")
    );
}

#[test]
fn chunked_body_of_unknown_length_uses_transfer_encoding() {
    let resp = Response {
        status: 200,
        reason: b("OK"),
        headers: vec![],
        body: ResponseBody::Chunks(vec![b("test"), b(""), b("0123456789")]),
    };
    // the empty chunk is skipped: a zero size would end the body early
    assert_eq!(
        serialize_response(&resp),
        b("HTTP/1.1 200 OK\r\nTransfer-Encoding: chunked\r\n\r\n4\r\ntest\r\na\r\n0123456789\r\n0\r\n\r\n")
    );
}

#[test]
fn large_content_length_rendered_in_decimal() {
    let body: Vec<u8> = vec![7u8; 12345];
    let resp = Response { status: 200, reason: b("OK"), headers: vec![], body: ResponseBody::Bytes(body.clone()) };
    let wire = serialize_response(&resp);
    let head = b("HTTP/1.1 200 OK\r\nContent-Length: 12345\r\n\r\n");
    assert_eq!(&wire[..head.len()], &head[..]);
    assert_eq!(&wire[head.len()..], &body[..]);
}

#[test]
fn serialized_fixed_body_parses_back_by_the_request_grammar() {
    // a round trip through this crate's own framing layers: wrap the
    // serialized header block and body in a request envelope and check
    // that the body framing recovers the exact bytes
    let resp = Response {
        status: 200,
        reason: b("OK"),
        headers: vec![Header { name: b("X-A"), value: b("1") }],
        body: ResponseBody::Bytes(b("payload")),
    };
    let wire = serialize_response(&resp);
    // strip the status line, reuse headers+body as a request tail
    let head_end = wire.windows(2).position(|w| w == b"\r\n").unwrap() + 2;
    let mut request = b("GET / HTTP/1.1\r\n");
    request.extend_from_slice(&wire[head_end..]);
    match parse_request(&request, &Limits::standard()) {
        ParseResult::Complete(req, _) => {
            assert_eq!(req.body, b("payload"));
            assert_eq!(req.headers[0].name, b("X-A"));
            assert_eq!(req.headers[0].value, b("1"));
            assert_eq!(req.headers[1].name, b("Content-Length"));
            assert_eq!(req.headers[1].value, b("7"));
        },
        _ => panic!("expected the serialized form to parse back"),
    }
}

#[test]
fn serialized_chunked_body_parses_back_by_the_request_grammar() {
    let resp = Response {
        status: 200,
        reason: b("OK"),
        headers: vec![],
        body: ResponseBody::Chunks(vec![b("ab"), b("cdef")]),
    };
    let wire = serialize_response(&resp);
    let head_end = wire.windows(2).position(|w| w == b"\r\n").unwrap() + 2;
    let mut request = b("GET / HTTP/1.1\r\n");
    request.extend_from_slice(&wire[head_end..]);
    match parse_request(&request, &Limits::standard()) {
        ParseResult::Complete(req, _) => {
            assert_eq!(req.body, b("abcdef"));
        },
        _ => panic!("expected the serialized chunks to parse back"),
    }
}

#[test]
fn access_record_keeps_fields() {
    let r = access_record(1700000000, b("127.0.0.1"), b("GET"), b("/hello"), 200, 44, 3);
    assert_eq!(r.timestamp_ms, 1700000000);
    assert_eq!(r.remote, b("127.0.0.1"));
    assert_eq!(r.method, b("GET"));
    assert_eq!(r.path, b("/hello"));
    assert_eq!(r.status, 200);
    assert_eq!(r.bytes_sent, 44);
    assert_eq!(r.duration_ms, 3);
}
