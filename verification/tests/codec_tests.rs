use pyruvate::codec::{parse_request, Limits, ParseResult, RequestParser};
use pyruvate::errors::ParseError;
use pyruvate::request::Version;

fn b(s: &str) -> Vec<u8> {
    s.as_bytes().to_vec()
}

fn parse(input: &str) -> ParseResult {
    let lim = Limits::standard();
    parse_request(&b(input), &lim)
}

#[test]
fn simple_get_parses() {
    let input = "GET /hello HTTP/1.1\r\nHost: x\r\n\r\n";
    match parse(input) {
        ParseResult::Complete(req, used) => {
            assert_eq!(req.method, b"GET".to_vec());
            assert_eq!(req.path, b"/hello".to_vec());
            assert_eq!(req.query, Vec::<u8>::new());
            assert!(matches!(req.version, Version::Http11));
            assert_eq!(req.headers.len(), 1);
            assert_eq!(req.headers[0].name, b"Host".to_vec());
            assert_eq!(req.headers[0].value, b"x".to_vec());
            assert_eq!(req.body, Vec::<u8>::new());
            assert_eq!(used, input.len());
        },
        _ => panic!("expected a complete request"),
    }
}

#[test]
fn query_string_is_split() {
    match parse("GET /a/b?k=v&x=1 HTTP/1.1\r\nHost: x\r\n\r\n") {
        ParseResult::Complete(req, _) => {
            assert_eq!(req.path, b"/a/b".to_vec());
            assert_eq!(req.query, b"k=v&x=1".to_vec());
        },
        _ => panic!("expected a complete request"),
    }
}

#[test]
fn http10_version_recognized() {
    match parse("GET / HTTP/1.0\r\n\r\n") {
        ParseResult::Complete(req, _) => {
            assert!(matches!(req.version, Version::Http10));
        },
        _ => panic!("expected a complete request"),
    }
}

#[test]
fn content_length_body() {
    let input = "POST /x HTTP/1.1\r\nContent-Length: 5\r\n\r\nhello";
    match parse(input) {
        ParseResult::Complete(req, used) => {
            assert_eq!(req.body, b"hello".to_vec());
            assert_eq!(used, input.len());
        },
        _ => panic!("expected a complete request"),
    }
}

#[test]
fn body_shorter_than_declared_needs_more() {
    assert!(matches!(
        parse("POST /x HTTP/1.1\r\nContent-Length: 5\r\n\r\nhel"),
        ParseResult::NeedMore
    ));
}

#[test]
fn chunked_body_is_decoded() {
    // the chunked-request scenario: one 4-byte chunk, then the terminator
    let input = "POST /up HTTP/1.1\r\nTransfer-Encoding: chunked\r\n\r\n4\r\ntest\r\n0\r\n\r\n";
    match parse(input) {
        ParseResult::Complete(req, used) => {
            assert_eq!(req.body, b"test".to_vec());
            // complete immediately after the terminating zero-chunk line
            assert_eq!(used, input.len());
        },
        _ => panic!("expected a complete request"),
    }
}

#[test]
fn chunked_multiple_chunks() {
    let input =
        "POST /up HTTP/1.1\r\nTransfer-Encoding: chunked\r\n\r\n3\r\nabc\r\na\r\n0123456789\r\n0\r\n\r\n";
    match parse(input) {
        ParseResult::Complete(req, _) => {
            assert_eq!(req.body, b"abc0123456789".to_vec());
        },
        _ => panic!("expected a complete request"),
    }
}

#[test]
fn chunked_incomplete_needs_more() {
    assert!(matches!(
        parse("POST /up HTTP/1.1\r\nTransfer-Encoding: chunked\r\n\r\n4\r\nte"),
        ParseResult::NeedMore
    ));
}

#[test]
fn malformed_request_line_rejected() {
    assert!(matches!(
        parse("GETnospaces\r\nHost: x\r\n\r\n"),
        ParseResult::Failed(ParseError::MalformedRequestLine)
    ));
}

#[test]
fn unknown_version_rejected() {
    assert!(matches!(
        parse("GET / HTTP/9.9\r\n\r\n"),
        ParseResult::Failed(ParseError::MalformedRequestLine)
    ));
}

#[test]
fn header_without_colon_rejected() {
    assert!(matches!(
        parse("GET / HTTP/1.1\r\nBadHeader\r\n\r\n"),
        ParseResult::Failed(ParseError::MalformedHeader)
    ));
}

#[test]
fn conflicting_content_lengths_rejected() {
    assert!(matches!(
        parse("POST / HTTP/1.1\r\nContent-Length: 5\r\nContent-Length: 6\r\n\r\n"),
        ParseResult::Failed(ParseError::MalformedContentLength)
    ));
}

#[test]
fn repeated_equal_content_lengths_accepted() {
    assert!(matches!(
        parse("POST / HTTP/1.1\r\nContent-Length: 2\r\nContent-Length: 2\r\n\r\nhi"),
        ParseResult::Complete(_, _)
    ));
}

#[test]
fn non_numeric_content_length_rejected() {
    assert!(matches!(
        parse("POST / HTTP/1.1\r\nContent-Length: abc\r\n\r\n"),
        ParseResult::Failed(ParseError::MalformedContentLength)
    ));
}

#[test]
fn oversized_content_length_rejected() {
    // the boundary property: a declared length over the maximum fails
    // before any body byte arrives, with the limit error
    assert!(matches!(
        parse("POST / HTTP/1.1\r\nContent-Length: 1048577\r\n\r\n"),
        ParseResult::Failed(ParseError::BodyTooLarge)
    ));
}

#[test]
fn oversized_chunk_rejected() {
    assert!(matches!(
        parse("POST / HTTP/1.1\r\nTransfer-Encoding: chunked\r\n\r\n200000\r\n"),
        ParseResult::Failed(ParseError::BodyTooLarge)
    ));
}

#[test]
fn malformed_chunk_size_rejected() {
    assert!(matches!(
        parse("POST / HTTP/1.1\r\nTransfer-Encoding: chunked\r\n\r\nzz\r\n"),
        ParseResult::Failed(ParseError::MalformedChunkSize)
    ));
}

#[test]
fn chunk_data_without_crlf_rejected() {
    assert!(matches!(
        parse("POST / HTTP/1.1\r\nTransfer-Encoding: chunked\r\n\r\n4\r\ntestXX0\r\n\r\n"),
        ParseResult::Failed(ParseError::MalformedChunk)
    ));
}

#[test]
fn request_line_too_long_rejected() {
    let mut input = String::from("GET /");
    for _ in 0..9000 {
        input.push('a');
    }
    input.push_str(" HTTP/1.1\r\n\r\n");
    assert!(matches!(
        parse(&input),
        ParseResult::Failed(ParseError::RequestLineTooLong)
    ));
}

#[test]
fn headers_too_large_rejected() {
    let mut input = String::from("GET / HTTP/1.1\r\n");
    for i in 0..800 {
        input.push_str(&format!("X-Filler-{}: {}\r\n", i, "v".repeat(90)));
    }
    input.push_str("\r\n");
    assert!(matches!(
        parse(&input),
        ParseResult::Failed(ParseError::HeadersTooLarge)
    ));
}

#[test]
fn too_many_headers_rejected() {
    let mut input = String::from("GET / HTTP/1.1\r\n");
    for i in 0..200 {
        input.push_str(&format!("H{}: v\r\n", i));
    }
    input.push_str("\r\n");
    assert!(matches!(
        parse(&input),
        ParseResult::Failed(ParseError::TooManyHeaders)
    ));
}

#[test]
fn transfer_encoding_other_than_chunked_rejected() {
    assert!(matches!(
        parse("POST / HTTP/1.1\r\nTransfer-Encoding: gzip\r\n\r\n"),
        ParseResult::Failed(ParseError::MalformedHeader)
    ));
}

#[test]
fn header_names_case_insensitive_values_trimmed() {
    match parse("POST / HTTP/1.1\r\ncOnTeNt-LeNgTh:   2  \r\n\r\nhi") {
        ParseResult::Complete(req, _) => {
            assert_eq!(req.body, b"hi".to_vec());
            // the entry itself keeps its case and is trimmed
            assert_eq!(req.headers[0].name, b"cOnTeNt-LeNgTh".to_vec());
            assert_eq!(req.headers[0].value, b"2".to_vec());
        },
        _ => panic!("expected a complete request"),
    }
}

#[test]
fn fragmentation_one_byte_at_a_time_matches_whole_buffer() {
    let input = b"POST /up?q=1 HTTP/1.1\r\nHost: h\r\nContent-Length: 3\r\n\r\nxyz";
    let lim = Limits::standard();

    // whole buffer at once
    let whole = match parse_request(&input.to_vec(), &lim) {
        ParseResult::Complete(req, used) => (req, used),
        _ => panic!("expected a complete request"),
    };

    // one byte at a time through the incremental parser
    let mut p = RequestParser::new(lim);
    let mut last = ParseResult::NeedMore;
    for byte in input.iter() {
        last = p.feed(&vec![*byte]);
    }
    match last {
        ParseResult::Complete(req, used) => {
            assert_eq!(req.method, whole.0.method);
            assert_eq!(req.path, whole.0.path);
            assert_eq!(req.query, whole.0.query);
            assert_eq!(req.body, whole.0.body);
            assert_eq!(req.headers.len(), whole.0.headers.len());
            for (a, b) in req.headers.iter().zip(whole.0.headers.iter()) {
                assert_eq!(a.name, b.name);
                assert_eq!(a.value, b.value);
            }
            assert_eq!(used, whole.1);
        },
        _ => panic!("fragmented delivery must parse identically"),
    }
}

#[test]
fn parser_keeps_progress_across_feeds() {
    let lim = Limits::standard();
    let mut p = RequestParser::new(lim);
    assert!(matches!(p.feed(&b("GET / HT")), ParseResult::NeedMore));
    assert!(matches!(p.feed(&b("TP/1.1\r\nHost:")), ParseResult::NeedMore));
    match p.feed(&b(" x\r\n\r\n")) {
        ParseResult::Complete(req, _) => {
            assert_eq!(req.headers[0].value, b"x".to_vec());
        },
        _ => panic!("expected a complete request"),
    }
}

#[test]
fn consume_keeps_pipelined_remainder() {
    let lim = Limits::standard();
    let mut p = RequestParser::new(lim);
    match p.feed(&b("GET /a HTTP/1.1\r\n\r\nGET /b HT")) {
        ParseResult::Complete(req, used) => {
            assert_eq!(req.path, b"/a".to_vec());
            p.consume(used);
            assert_eq!(p.buffered(), 9);
        },
        _ => panic!("expected a complete request"),
    }
    match p.feed(&b("TP/1.1\r\n\r\n")) {
        ParseResult::Complete(req, _) => {
            assert_eq!(req.path, b"/b".to_vec());
        },
        _ => panic!("expected the pipelined request"),
    }
}
