use pyruvate::codec::Limits;
use pyruvate::request::Header;
use pyruvate::response::{Response, ResponseBody, serialize_response, response_wf_check, FileRange};
use pyruvate::errors::HttpError;
use pyruvate::errors::{classify_parse_error, ParseError};
use pyruvate::worker::{Connection, ReadStep, keep_alive_requested, resp_forces_close};

fn b(s: &str) -> Vec<u8> {
    s.as_bytes().to_vec()
}

fn hello_response() -> Response {
    Response {
        status: 200,
        reason: b("OK"),
        headers: vec![Header { name: b("Content-Type"), value: b("text/plain") }],
        body: ResponseBody::Bytes(b("hi")),
    }
}

/// Drives one full cycle: feed the request, dispatch, respond, flush.
/// Returns the wire bytes written and whether the connection stayed open.
fn run_cycle(conn: &mut Connection, request: &str, resp: Response) -> (Vec<u8>, bool) {
    let step = conn.on_data(&b(request));
    let req = match step {
        ReadStep::Dispatch(req) => req,
        _ => panic!("expected a dispatch"),
    };
    assert_eq!(req.method, b("GET"));
    conn.start_response(&resp);
    let wire = conn.next_write();
    // flush in two partial writes, as a transport under backpressure would
    let half = wire.len() / 2;
    conn.on_write_ready(half);
    let rest = conn.next_write();
    assert_eq!(rest, wire[half..].to_vec());
    conn.on_write_ready(wire.len() - half);
    assert!(conn.flushed());
    let open = conn.finish_cycle();
    (wire, open)
}

#[test]
fn simple_get_scenario() {
    // the simple-GET scenario, end to end through the worker
    let mut conn = Connection::new(Limits::standard());
    let (wire, open) = run_cycle(&mut conn, "GET /hello HTTP/1.1\r\nHost: x\r\n\r\n", hello_response());
    assert_eq!(
        wire,
        b("HTTP/1.1 200 OK\r\nContent-Type: text/plain\r\nContent-Length: 2\r\n\r\nhi")
    );
    assert!(open);
    assert!(conn.is_open());
}

#[test]
fn keep_alive_cycles_stay_open() {
    // N consecutive valid cycles leave the connection open, and each new
    // cycle starts only after the previous response was fully flushed
    let mut conn = Connection::new(Limits::standard());
    for _ in 0..5 {
        let (_, open) = run_cycle(&mut conn, "GET /hello HTTP/1.1\r\nHost: x\r\n\r\n", hello_response());
        assert!(open);
        assert!(conn.is_open());
    }
}

#[test]
fn connection_close_header_ends_connection() {
    let mut conn = Connection::new(Limits::standard());
    let (_, open) = run_cycle(
        &mut conn,
        "GET / HTTP/1.1\r\nConnection: close\r\n\r\n",
        hello_response(),
    );
    assert!(!open);
    assert!(!conn.is_open());
}

#[test]
fn response_forcing_close_ends_connection() {
    let mut conn = Connection::new(Limits::standard());
    let resp = Response {
        status: 200,
        reason: b("OK"),
        headers: vec![Header { name: b("Connection"), value: b("close") }],
        body: ResponseBody::Empty,
    };
    let (_, open) = run_cycle(&mut conn, "GET / HTTP/1.1\r\n\r\n", resp);
    assert!(!open);
}

#[test]
fn http10_without_keep_alive_closes() {
    let mut conn = Connection::new(Limits::standard());
    let (_, open) = run_cycle(&mut conn, "GET / HTTP/1.0\r\n\r\n", hello_response());
    assert!(!open);
}

#[test]
fn http10_with_keep_alive_stays_open() {
    let mut conn = Connection::new(Limits::standard());
    let (_, open) = run_cycle(
        &mut conn,
        "GET / HTTP/1.0\r\nConnection: keep-alive\r\n\r\n",
        hello_response(),
    );
    assert!(open);
}

#[test]
fn oversized_request_rejected_without_dispatch() {
    // boundary: declared Content-Length over the maximum gets a 4xx and
    // the connection closes; the application is never invoked
    let mut conn = Connection::new(Limits::standard());
    let step = conn.on_data(&b("POST / HTTP/1.1\r\nContent-Length: 1048577\r\n\r\n"));
    match step {
        ReadStep::Reject(code) => assert_eq!(code, 413),
        _ => panic!("expected a rejection"),
    }
    let wire = conn.next_write();
    assert!(wire.starts_with(b"HTTP/1.1 413 "));
    conn.on_write_ready(wire.len());
    let open = conn.finish_cycle();
    assert!(!open);
    assert!(!conn.is_open());
}

#[test]
fn malformed_request_gets_400() {
    let mut conn = Connection::new(Limits::standard());
    match conn.on_data(&b("garbage\r\n\r\n")) {
        ReadStep::Reject(code) => assert_eq!(code, 400),
        _ => panic!("expected a rejection"),
    }
}

#[test]
fn idempotent_requests_get_identical_responses() {
    // the same request on two independent connections, against the same
    // application outcome, yields byte-identical responses
    let mut one = Connection::new(Limits::standard());
    let mut two = Connection::new(Limits::standard());
    let (w1, _) = run_cycle(&mut one, "GET /hello HTTP/1.1\r\nHost: x\r\n\r\n", hello_response());
    let (w2, _) = run_cycle(&mut two, "GET /hello HTTP/1.1\r\nHost: x\r\n\r\n", hello_response());
    assert_eq!(w1, w2);
}

#[test]
fn app_fault_yields_500_and_close() {
    let mut conn = Connection::new(Limits::standard());
    match conn.on_data(&b("GET / HTTP/1.1\r\n\r\n")) {
        ReadStep::Dispatch(_) => {},
        _ => panic!("expected a dispatch"),
    }
    // the callback fails before any byte went out: a 500 goes back
    conn.on_app_fault();
    let wire = conn.next_write();
    assert!(wire.starts_with(b"HTTP/1.1 500 "));
    conn.on_write_ready(wire.len());
    assert!(!conn.finish_cycle());
    assert!(!conn.is_open());
}

#[test]
fn limit_errors_are_classified_as_limit_exceeded() {
    assert_eq!(
        classify_parse_error(ParseError::BodyTooLarge),
        HttpError::LimitExceeded(ParseError::BodyTooLarge)
    );
    assert_eq!(
        classify_parse_error(ParseError::MalformedRequestLine),
        HttpError::ProtocolError(ParseError::MalformedRequestLine)
    );
    assert_eq!(
        classify_parse_error(ParseError::HeadersTooLarge),
        HttpError::LimitExceeded(ParseError::HeadersTooLarge)
    );
}

#[test]
fn timeout_closes_connection() {
    let mut conn = Connection::new(Limits::standard());
    conn.on_timeout();
    assert!(!conn.is_open());
}

#[test]
fn idle_expiry_follows_last_activity() {
    let mut conn = Connection::new(Limits::standard());
    conn.touch(1000);
    assert!(!conn.idle_expired(1500, 30000));
    assert!(conn.idle_expired(31000, 30000));
    assert!(conn.idle_expired(31001, 30000));
    assert!(!conn.idle_expired(500, 30000));
}

#[test]
fn transport_error_closes_connection() {
    let mut conn = Connection::new(Limits::standard());
    conn.on_error();
    assert!(!conn.is_open());
}

#[test]
fn keep_alive_request_flag() {
    let mut conn = Connection::new(Limits::standard());
    match conn.on_data(&b("GET / HTTP/1.1\r\nConnection: Keep-Alive\r\n\r\n")) {
        ReadStep::Dispatch(req) => {
            assert!(keep_alive_requested(&req));
        },
        _ => panic!("expected a dispatch"),
    }
}

#[test]
fn forces_close_flag() {
    let resp = Response {
        status: 200,
        reason: b("OK"),
        headers: vec![Header { name: b("Connection"), value: b("CLOSE") }],
        body: ResponseBody::Empty,
    };
    assert!(resp_forces_close(&resp));
    assert!(!resp_forces_close(&hello_response()));
}

#[test]
fn file_range_checked() {
    assert!(matches!(FileRange::new(0, 100, 100), Ok(_)));
    assert!(matches!(FileRange::new(50, 50, 100), Ok(_)));
    assert!(matches!(
        FileRange::new(51, 50, 100),
        Err(HttpError::FileRangeError)
    ));
    assert!(matches!(
        FileRange::new(0, 101, 100),
        Err(HttpError::FileRangeError)
    ));
}

#[test]
fn file_body_serializes_head_with_length() {
    let f = FileRange::new(0, 42, 100).unwrap();
    let resp = Response { status: 200, reason: b("OK"), headers: vec![], body: ResponseBody::File(f) };
    let wire = serialize_response(&resp);
    assert_eq!(wire, b("HTTP/1.1 200 OK\r\nContent-Length: 42\r\n\r\n"));
}

#[test]
fn wf_check_accepts_clean_and_rejects_framing_headers() {
    assert!(response_wf_check(&hello_response()));
    let bad = Response {
        status: 200,
        reason: b("OK"),
        headers: vec![Header { name: b("Content-Length"), value: b("2") }],
        body: ResponseBody::Bytes(b("hi")),
    };
    assert!(!response_wf_check(&bad));
    let bad_reason = Response {
        status: 200,
        reason: b("O\r\nK"),
        headers: vec![],
        body: ResponseBody::Empty,
    };
    assert!(!response_wf_check(&bad_reason));
}
