use vstd::prelude::*;
use crate::bytes::{
    find_crlf, find_byte, trim_ws, lower, all_digits, dec_value, all_hex_digits, hex_value,
    find_crlf_exec, find_byte_exec, sub_vec, bytes_eq, eq_ignore_case, trim_ws_exec,
    lemma_find_crlf_props, lemma_find_byte_props, is_digit, is_hex_digit, hex_digit_value_exec,
    CR, LF, SP, COLON, concat_chunks,
};
use crate::errors::ParseError;
use crate::request::{Version, ReqView, header_value_in, Header, Request, headers_view};

verus! {

/// Configured protocol limits, enforced before the application callback
/// is ever invoked. The bounds keep every internal size computation inside
/// `usize`.
#[derive(Clone, Copy)]
pub struct Limits {
    pub max_request_line: usize,
    pub max_header_bytes: usize,
    pub max_header_count: usize,
    pub max_body: usize,
}

impl Limits {
    /// Machine bounds on the configured limits.
    pub open spec fn wf(self) -> bool {
        self.max_request_line < 0x1000_0000
        && self.max_header_bytes < 0x1000_0000
        && self.max_header_count < 0x1000_0000
        && self.max_body < 0x1000_0000
    }

    /// A deliberately small default, suitable for tests and as a baseline.
    pub fn standard() -> (r: Limits)
        ensures
            r.wf(),
            r.max_request_line == 8192,
            r.max_header_bytes == 65536,
            r.max_header_count == 128,
            r.max_body == 1048576,
    {
        Limits {
            max_request_line: 8192,
            max_header_bytes: 65536,
            max_header_count: 128,
            max_body: 1048576,
        }
    }
}

// Lower-case wire tokens the codec must recognize.
/// The bytes of `transfer-encoding`.
pub open spec fn te_name() -> Seq<u8> {
    seq![116u8, 114u8, 97u8, 110u8, 115u8, 102u8, 101u8, 114u8, 45u8, 101u8, 110u8, 99u8,
        111u8, 100u8, 105u8, 110u8, 103u8]
}

/// The bytes of `content-length`.
pub open spec fn cl_name() -> Seq<u8> {
    seq![99u8, 111u8, 110u8, 116u8, 101u8, 110u8, 116u8, 45u8, 108u8, 101u8, 110u8, 103u8,
        116u8, 104u8]
}

/// The bytes of `chunked`.
pub open spec fn chunked_token() -> Seq<u8> {
    seq![99u8, 104u8, 117u8, 110u8, 107u8, 101u8, 100u8]
}

/// The bytes of `connection`.
pub open spec fn connection_name() -> Seq<u8> {
    seq![99u8, 111u8, 110u8, 110u8, 101u8, 99u8, 116u8, 105u8, 111u8, 110u8]
}

/// The bytes of `close`.
pub open spec fn close_token() -> Seq<u8> {
    seq![99u8, 108u8, 111u8, 115u8, 101u8]
}

/// The bytes of `keep-alive`.
pub open spec fn keep_alive_token() -> Seq<u8> {
    seq![107u8, 101u8, 101u8, 112u8, 45u8, 97u8, 108u8, 105u8, 118u8, 101u8]
}

/// The bytes of `HTTP/1.1`.
pub open spec fn http11_bytes() -> Seq<u8> {
    seq![72u8, 84u8, 84u8, 80u8, 47u8, 49u8, 46u8, 49u8]
}

/// The bytes of `HTTP/1.0`.
pub open spec fn http10_bytes() -> Seq<u8> {
    seq![72u8, 84u8, 84u8, 80u8, 47u8, 49u8, 46u8, 48u8]
}

/// Parsed request line before the body is known.
pub struct ReqLineView {
    pub method: Seq<u8>,
    pub path: Seq<u8>,
    pub query: Seq<u8>,
    pub version: Version,
}

/// Splits `method SP target SP version` (a line without its CRLF).
/// The target is split at the first `?` into path and query.
/// `None` means the line is malformed.
pub open spec fn spec_parse_request_line(line: Seq<u8>) -> Option<ReqLineView> {
    match find_byte(line, 0, 32u8) {
        Option::None => Option::None,
        Option::Some(sp1) => if sp1 == 0 {
            Option::None
        } else {
            match find_byte(line, sp1 + 1, 32u8) {
                Option::None => Option::None,
                Option::Some(sp2) => if sp2 == sp1 + 1 {
                    Option::None
                } else {
                    let vers = line.subrange(sp2 + 1, line.len() as int);
                    let target = line.subrange(sp1 + 1, sp2);
                    if vers == http11_bytes() || vers == http10_bytes() {
                        let version = if vers == http11_bytes() {
                            Version::Http11
                        } else {
                            Version::Http10
                        };
                        let (path, query) = match find_byte(target, 0, 63u8) {
                            Option::None => (target, Seq::<u8>::empty()),
                            Option::Some(q) => (
                                target.subrange(0, q),
                                target.subrange(q + 1, target.len() as int),
                            ),
                        };
                        Option::Some(ReqLineView { method: line.subrange(0, sp1), path, query, version })
                    } else {
                        Option::None
                    }
                },
            }
        },
    }
}

/// Splits one header line at the first colon; the value is trimmed of
/// surrounding spaces and tabs, the name kept as received.
pub open spec fn spec_parse_header_line(line: Seq<u8>) -> Option<(Seq<u8>, Seq<u8>)> {
    match find_byte(line, 0, 58u8) {
        Option::None => Option::None,
        Option::Some(c) => if c == 0 {
            Option::None
        } else {
            Option::Some((line.subrange(0, c), trim_ws(line.subrange(c + 1, line.len() as int))))
        },
    }
}

/// Result of the header-section stage.
pub enum HeadersOutcome {
    NeedMore,
    Failed(ParseError),
    Done { headers: Seq<(Seq<u8>, Seq<u8>)>, end: int },
}

/// Parses header lines from position `p` until the empty line.
/// `hstart` is where the header section began; the cumulative size limit
/// is measured from it. The header-count limit is enforced once the
/// terminating empty line is seen.
pub open spec fn spec_parse_headers(s: Seq<u8>, p: int, hstart: int, lim: Limits) -> HeadersOutcome
    decreases s.len() - p,
{
    match find_crlf(s, p) {
        Option::None => if s.len() - hstart > lim.max_header_bytes {
            HeadersOutcome::Failed(ParseError::HeadersTooLarge)
        } else {
            HeadersOutcome::NeedMore
        },
        Option::Some(e) => if e < p || e + 2 > s.len() {
            // never reached: find_crlf only returns in-range positions
            HeadersOutcome::Failed(ParseError::MalformedHeader)
        } else if e + 2 - hstart > lim.max_header_bytes {
            HeadersOutcome::Failed(ParseError::HeadersTooLarge)
        } else if e == p {
            HeadersOutcome::Done { headers: Seq::empty(), end: p + 2 }
        } else {
            match spec_parse_header_line(s.subrange(p, e)) {
                Option::None => HeadersOutcome::Failed(ParseError::MalformedHeader),
                Option::Some(h) => match spec_parse_headers(s, e + 2, hstart, lim) {
                    HeadersOutcome::Done { headers, end } => if headers.len() + 1
                        > lim.max_header_count {
                        HeadersOutcome::Failed(ParseError::TooManyHeaders)
                    } else {
                        HeadersOutcome::Done { headers: seq![h] + headers, end }
                    },
                    o => o,
                },
            }
        },
    }
}

/// Body framing selected from the parsed headers.
pub enum FramingS {
    Fixed(int),
    Chunked,
}

/// Every `content-length` entry carries exactly the value `v`.
pub open spec fn cl_consistent(headers: Seq<(Seq<u8>, Seq<u8>)>, v: Seq<u8>) -> bool {
    forall|i: int|
        0 <= i < headers.len() && lower(#[trigger] headers[i].0) == cl_name() ==> headers[i].1 == v
}

/// Some `transfer-encoding` entry requests chunked framing.
pub open spec fn te_chunked(headers: Seq<(Seq<u8>, Seq<u8>)>) -> bool {
    exists|i: int|
        0 <= i < headers.len() && lower(#[trigger] headers[i].0) == te_name() && lower(
            headers[i].1,
        ) == chunked_token()
}

/// Some `transfer-encoding` entry is present.
pub open spec fn te_present(headers: Seq<(Seq<u8>, Seq<u8>)>) -> bool {
    exists|i: int| 0 <= i < headers.len() && lower(#[trigger] headers[i].0) == te_name()
}

/// Body-framing selection, in priority order: `Transfer-Encoding: chunked`
/// wins; a transfer-encoding the codec does not implement is rejected;
/// otherwise a consistent, numeric `Content-Length` within the body limit
/// selects fixed framing; absence of both means a zero-length body.
pub open spec fn spec_framing(headers: Seq<(Seq<u8>, Seq<u8>)>, lim: Limits) -> Result<
    FramingS,
    ParseError,
> {
    if te_chunked(headers) {
        Result::Ok(FramingS::Chunked)
    } else if te_present(headers) {
        Result::Err(ParseError::MalformedHeader)
    } else {
        match header_value_in(headers, cl_name()) {
            Option::None => Result::Ok(FramingS::Fixed(0)),
            Option::Some(v) => if !cl_consistent(headers, v) {
                Result::Err(ParseError::MalformedContentLength)
            } else if v.len() == 0 || !all_digits(v) {
                Result::Err(ParseError::MalformedContentLength)
            } else if dec_value(v) > lim.max_body {
                Result::Err(ParseError::BodyTooLarge)
            } else {
                Result::Ok(FramingS::Fixed(dec_value(v) as int))
            },
        }
    }
}

/// Result of the chunked-body stage.
pub enum ChunkedOutcome {
    NeedMore,
    Failed(ParseError),
    Done { body: Seq<u8>, end: int },
}

/// Parses `size CRLF data CRLF` chunks from position `p`, accumulating
/// decoded bytes onto `body`; a zero-size chunk followed by an empty
/// trailer line terminates. The running total is held to the body limit
/// as soon as each chunk size is declared.
pub open spec fn spec_parse_chunked(s: Seq<u8>, p: int, body: Seq<u8>, lim: Limits) -> ChunkedOutcome
    decreases s.len() - p,
{
    match find_crlf(s, p) {
        Option::None => if s.len() - p > 17 {
            ChunkedOutcome::Failed(ParseError::MalformedChunkSize)
        } else {
            ChunkedOutcome::NeedMore
        },
        Option::Some(e) => if e < p || e + 2 > s.len() {
            // never reached: find_crlf only returns in-range positions
            ChunkedOutcome::Failed(ParseError::MalformedChunkSize)
        } else if e == p || e - p > 16 || !all_hex_digits(s.subrange(p, e)) {
            ChunkedOutcome::Failed(ParseError::MalformedChunkSize)
        } else {
            let n = hex_value(s.subrange(p, e)) as int;
            if n == 0 {
                if s.len() < e + 4 {
                    ChunkedOutcome::NeedMore
                } else if s[e + 2] == 13u8 && s[e + 3] == 10u8 {
                    ChunkedOutcome::Done { body, end: e + 4 }
                } else {
                    ChunkedOutcome::Failed(ParseError::MalformedChunk)
                }
            } else if body.len() + n > lim.max_body {
                ChunkedOutcome::Failed(ParseError::BodyTooLarge)
            } else {
                let data_start = e + 2;
                if s.len() < data_start + n + 2 {
                    ChunkedOutcome::NeedMore
                } else if s[data_start + n] == 13u8 && s[data_start + n + 1] == 10u8 {
                    spec_parse_chunked(
                        s,
                        data_start + n + 2,
                        body + s.subrange(data_start, data_start + n),
                        lim,
                    )
                } else {
                    ChunkedOutcome::Failed(ParseError::MalformedChunk)
                }
            }
        },
    }
}

/// Outcome of feeding the parser a (prefix of a) request.
pub enum ParseOutcome {
    /// The bytes so far are a proper prefix of a well-formed request.
    NeedMore,
    /// The bytes can never grow into an acceptable request.
    Failed(ParseError),
    /// A full request; `consumed` bytes of the stream belong to it.
    Complete { req: ReqView, consumed: int },
}

/// The request grammar: what any byte stream parses to. This single
/// function fixes the behaviour of the incremental parser, however the
/// stream is fragmented.
pub open spec fn spec_parse_request(s: Seq<u8>, lim: Limits) -> ParseOutcome {
    match find_crlf(s, 0) {
        Option::None => if s.len() > lim.max_request_line + 1 {
            ParseOutcome::Failed(ParseError::RequestLineTooLong)
        } else {
            ParseOutcome::NeedMore
        },
        Option::Some(e) => if e > lim.max_request_line {
            ParseOutcome::Failed(ParseError::RequestLineTooLong)
        } else {
            match spec_parse_request_line(s.subrange(0, e)) {
                Option::None => ParseOutcome::Failed(ParseError::MalformedRequestLine),
                Option::Some(rl) => match spec_parse_headers(s, e + 2, e + 2, lim) {
                    HeadersOutcome::NeedMore => ParseOutcome::NeedMore,
                    HeadersOutcome::Failed(err) => ParseOutcome::Failed(err),
                    HeadersOutcome::Done { headers, end } => match spec_framing(headers, lim) {
                        Result::Err(err) => ParseOutcome::Failed(err),
                        Result::Ok(FramingS::Fixed(n)) => if s.len() - end >= n {
                            ParseOutcome::Complete {
                                req: ReqView {
                                    method: rl.method,
                                    path: rl.path,
                                    query: rl.query,
                                    version: rl.version,
                                    headers,
                                    body: s.subrange(end, end + n),
                                },
                                consumed: end + n,
                            }
                        } else {
                            ParseOutcome::NeedMore
                        },
                        Result::Ok(FramingS::Chunked) => match spec_parse_chunked(
                            s,
                            end,
                            Seq::empty(),
                            lim,
                        ) {
                            ChunkedOutcome::NeedMore => ParseOutcome::NeedMore,
                            ChunkedOutcome::Failed(err) => ParseOutcome::Failed(err),
                            ChunkedOutcome::Done { body, end: bend } => ParseOutcome::Complete {
                                req: ReqView {
                                    method: rl.method,
                                    path: rl.path,
                                    query: rl.query,
                                    version: rl.version,
                                    headers,
                                    body,
                                },
                                consumed: bend,
                            },
                        },
                    },
                },
            }
        },
    }
}

/// The bytes of `transfer-encoding` as an executable vector.
pub fn te_name_vec() -> (r: Vec<u8>)
    ensures
        r@ == te_name(),
        lower(r@) == r@,
{
    let mut v: Vec<u8> = Vec::new();
    v.push(116);
    v.push(114);
    v.push(97);
    v.push(110);
    v.push(115);
    v.push(102);
    v.push(101);
    v.push(114);
    v.push(45);
    v.push(101);
    v.push(110);
    v.push(99);
    v.push(111);
    v.push(100);
    v.push(105);
    v.push(110);
    v.push(103);
    proof {
        assert(v@ =~= te_name());
        assert(lower(v@) =~= v@);
    }
    v
}

/// The bytes of `content-length` as an executable vector.
pub fn cl_name_vec() -> (r: Vec<u8>)
    ensures
        r@ == cl_name(),
        lower(r@) == r@,
{
    let mut v: Vec<u8> = Vec::new();
    v.push(99);
    v.push(111);
    v.push(110);
    v.push(116);
    v.push(101);
    v.push(110);
    v.push(116);
    v.push(45);
    v.push(108);
    v.push(101);
    v.push(110);
    v.push(103);
    v.push(116);
    v.push(104);
    proof {
        assert(v@ =~= cl_name());
        assert(lower(v@) =~= v@);
    }
    v
}

/// The bytes of `chunked` as an executable vector.
pub fn chunked_token_vec() -> (r: Vec<u8>)
    ensures
        r@ == chunked_token(),
        lower(r@) == r@,
{
    let mut v: Vec<u8> = Vec::new();
    v.push(99);
    v.push(104);
    v.push(117);
    v.push(110);
    v.push(107);
    v.push(101);
    v.push(100);
    proof {
        assert(v@ =~= chunked_token());
        assert(lower(v@) =~= v@);
    }
    v
}

/// The bytes of `connection` as an executable vector.
pub fn connection_name_vec() -> (r: Vec<u8>)
    ensures
        r@ == connection_name(),
        lower(r@) == r@,
{
    let mut v: Vec<u8> = Vec::new();
    v.push(99);
    v.push(111);
    v.push(110);
    v.push(110);
    v.push(101);
    v.push(99);
    v.push(116);
    v.push(105);
    v.push(111);
    v.push(110);
    proof {
        assert(v@ =~= connection_name());
        assert(lower(v@) =~= v@);
    }
    v
}

/// The bytes of `close` as an executable vector.
pub fn close_token_vec() -> (r: Vec<u8>)
    ensures
        r@ == close_token(),
        lower(r@) == r@,
{
    let mut v: Vec<u8> = Vec::new();
    v.push(99);
    v.push(108);
    v.push(111);
    v.push(115);
    v.push(101);
    proof {
        assert(v@ =~= close_token());
        assert(lower(v@) =~= v@);
    }
    v
}

/// The bytes of `keep-alive` as an executable vector.
pub fn keep_alive_token_vec() -> (r: Vec<u8>)
    ensures
        r@ == keep_alive_token(),
        lower(r@) == r@,
{
    let mut v: Vec<u8> = Vec::new();
    v.push(107);
    v.push(101);
    v.push(101);
    v.push(112);
    v.push(45);
    v.push(97);
    v.push(108);
    v.push(105);
    v.push(118);
    v.push(101);
    proof {
        assert(v@ =~= keep_alive_token());
        assert(lower(v@) =~= v@);
    }
    v
}

/// The bytes of `HTTP/1.1` as an executable vector.
pub fn http11_vec() -> (r: Vec<u8>)
    ensures
        r@ == http11_bytes(),
{
    let mut v: Vec<u8> = Vec::new();
    v.push(72);
    v.push(84);
    v.push(84);
    v.push(80);
    v.push(47);
    v.push(49);
    v.push(46);
    v.push(49);
    proof {
        assert(v@ =~= http11_bytes());
    }
    v
}

/// The bytes of `HTTP/1.0` as an executable vector.
pub fn http10_vec() -> (r: Vec<u8>)
    ensures
        r@ == http10_bytes(),
{
    let mut v: Vec<u8> = Vec::new();
    v.push(72);
    v.push(84);
    v.push(84);
    v.push(80);
    v.push(47);
    v.push(49);
    v.push(46);
    v.push(48);
    proof {
        assert(v@ =~= http10_bytes());
    }
    v
}

/// Executable form of a parsed request line.
pub struct RequestLine {
    pub method: Vec<u8>,
    pub path: Vec<u8>,
    pub query: Vec<u8>,
    pub version: Version,
}

/// Splits `method SP target SP version`, exactly as the grammar says.
pub fn parse_request_line(line: &Vec<u8>) -> (r: Option<RequestLine>)
    ensures
        match r {
            Some(rl) => spec_parse_request_line(line@) == Some(
                ReqLineView {
                    method: rl.method@,
                    path: rl.path@,
                    query: rl.query@,
                    version: rl.version,
                },
            ),
            None => spec_parse_request_line(line@) is None,
        },
{
    let n = line.len();
    proof {
        lemma_find_byte_props(line@, 0, SP);
    }
    let sp1 = match find_byte_exec(line, 0, SP) {
        None => {
            return None;
        },
        Some(i) => i,
    };
    proof {
        assert(sp1 < n);
    }
    if sp1 == 0 {
        return None;
    }
    proof {
        lemma_find_byte_props(line@, sp1 as int + 1, SP);
    }
    let sp2 = match find_byte_exec(line, sp1 + 1, SP) {
        None => {
            return None;
        },
        Some(i) => i,
    };
    proof {
        assert(sp1 < sp2 && sp2 < n);
    }
    if sp2 == sp1 + 1 {
        return None;
    }
    let vers = sub_vec(line, sp2 + 1, n);
    let h11 = http11_vec();
    let version: Version;
    if bytes_eq(&vers, &h11) {
        version = Version::Http11;
    } else {
        let h10 = http10_vec();
        if bytes_eq(&vers, &h10) {
            version = Version::Http10;
        } else {
            return None;
        }
    }
    let method = sub_vec(line, 0, sp1);
    let target = sub_vec(line, sp1 + 1, sp2);
    proof {
        lemma_find_byte_props(target@, 0, 63u8);
    }
    match find_byte_exec(&target, 0, 63) {
        None => {
            let q: Vec<u8> = Vec::new();
            proof {
                assert(q@ =~= Seq::<u8>::empty());
            }
            Some(RequestLine { method, path: target, query: q, version })
        },
        Some(qp) => {
            let path = sub_vec(&target, 0, qp);
            let tlen = target.len();
            let query = sub_vec(&target, qp + 1, tlen);
            Some(RequestLine { method, path, query, version })
        },
    }
}

/// Splits one header line at the first colon and trims the value.
pub fn parse_header_line(line: &Vec<u8>) -> (r: Option<Header>)
    ensures
        match r {
            Some(h) => spec_parse_header_line(line@) == Some(h@),
            None => spec_parse_header_line(line@) is None,
        },
{
    proof {
        lemma_find_byte_props(line@, 0, COLON);
    }
    match find_byte_exec(line, 0, COLON) {
        None => None,
        Some(c) => {
            if c == 0 {
                return None;
            }
            let n = line.len();
            proof {
                assert(c < n);
            }
            let name = sub_vec(line, 0, c);
            let rest = sub_vec(line, c + 1, n);
            let value = trim_ws_exec(&rest);
            Some(Header { name, value })
        },
    }
}

/// Joins a processed header prefix onto the outcome for the remaining lines,
/// applying the header-count limit the way the recursive grammar does.
pub open spec fn headers_glue(
    acc: Seq<(Seq<u8>, Seq<u8>)>,
    o: HeadersOutcome,
    maxc: int,
) -> HeadersOutcome {
    match o {
        HeadersOutcome::Done { headers, end } => if acc.len() + headers.len() > maxc {
            HeadersOutcome::Failed(ParseError::TooManyHeaders)
        } else {
            HeadersOutcome::Done { headers: acc + headers, end }
        },
        x => x,
    }
}

/// A completed header section never exceeds the header-count limit.
pub proof fn lemma_headers_done_le(s: Seq<u8>, p: int, hstart: int, lim: Limits)
    ensures
        spec_parse_headers(s, p, hstart, lim) matches HeadersOutcome::Done { headers, .. }
            ==> headers.len() <= lim.max_header_count,
    decreases s.len() - p,
{
    match find_crlf(s, p) {
        None => {},
        Some(e) => {
            if !(e < p || e + 2 > s.len()) && !(e + 2 - hstart > lim.max_header_bytes) && e != p {
                if spec_parse_header_line(s.subrange(p, e)) is Some {
                    lemma_headers_done_le(s, e + 2, hstart, lim);
                }
            }
        },
    }
}

/// Gluing the empty prefix changes nothing.
pub proof fn lemma_headers_glue_empty(s: Seq<u8>, p: int, hstart: int, lim: Limits)
    ensures
        headers_glue(
            Seq::empty(),
            spec_parse_headers(s, p, hstart, lim),
            lim.max_header_count as int,
        ) == spec_parse_headers(s, p, hstart, lim),
{
    lemma_headers_done_le(s, p, hstart, lim);
    match spec_parse_headers(s, p, hstart, lim) {
        HeadersOutcome::Done { headers, end } => {
            assert(Seq::empty() + headers =~= headers);
        },
        _ => {},
    }
}

/// Moving one parsed header line from the grammar's recursion into the
/// accumulated prefix preserves the glued outcome.
pub proof fn lemma_headers_glue_step(
    s: Seq<u8>,
    p: int,
    e: int,
    hstart: int,
    lim: Limits,
    acc: Seq<(Seq<u8>, Seq<u8>)>,
    h: (Seq<u8>, Seq<u8>),
)
    requires
        find_crlf(s, p) == Some(e),
        p <= e,
        e + 2 <= s.len(),
        e + 2 - hstart <= lim.max_header_bytes,
        e != p,
        spec_parse_header_line(s.subrange(p, e)) == Some(h),
    ensures
        headers_glue(acc, spec_parse_headers(s, p, hstart, lim), lim.max_header_count as int)
            == headers_glue(
            acc.push(h),
            spec_parse_headers(s, e + 2, hstart, lim),
            lim.max_header_count as int,
        ),
{
    match spec_parse_headers(s, e + 2, hstart, lim) {
        HeadersOutcome::Done { headers, end } => {
            assert(acc + (seq![h] + headers) =~= acc.push(h) + headers);
        },
        _ => {},
    }
}

/// Executable outcome of the header-section stage.
pub enum HeadersResult {
    NeedMore,
    Failed(ParseError),
    Done(Vec<Header>, usize),
}

/// Parses the header section starting at `start`; `hstart` is where the
/// section began for the cumulative size limit.
pub fn parse_headers(s: &Vec<u8>, start: usize, hstart: usize, lim: &Limits) -> (r: HeadersResult)
    requires
        hstart <= start <= s@.len(),
    ensures
        match r {
            HeadersResult::NeedMore => spec_parse_headers(s@, start as int, hstart as int, *lim)
                == HeadersOutcome::NeedMore,
            HeadersResult::Failed(err) => spec_parse_headers(s@, start as int, hstart as int, *lim)
                == HeadersOutcome::Failed(err),
            HeadersResult::Done(hs, end) => spec_parse_headers(
                s@,
                start as int,
                hstart as int,
                *lim,
            ) == (HeadersOutcome::Done { headers: headers_view(hs@), end: end as int }) && start
                <= end <= s@.len(),
        },
{
    let ghost maxc = lim.max_header_count as int;
    let mut p: usize = start;
    let mut acc: Vec<Header> = Vec::new();
    proof {
        lemma_headers_glue_empty(s@, start as int, hstart as int, *lim);
        assert(headers_view(acc@) =~= Seq::<(Seq<u8>, Seq<u8>)>::empty());
    }
    loop
        invariant
            hstart <= start <= p <= s@.len(),
            spec_parse_headers(s@, start as int, hstart as int, *lim) == headers_glue(
                headers_view(acc@),
                spec_parse_headers(s@, p as int, hstart as int, *lim),
                maxc,
            ),
            maxc == lim.max_header_count as int,
        decreases s@.len() - p,
    {
        proof {
            lemma_find_crlf_props(s@, p as int);
        }
        match find_crlf_exec(s, p) {
            None => {
                if s.len() - hstart > lim.max_header_bytes {
                    return HeadersResult::Failed(ParseError::HeadersTooLarge);
                } else {
                    return HeadersResult::NeedMore;
                }
            },
            Some(e) => {
                let n = s.len();
                proof {
                    assert(p <= e && e + 2 <= n);
                }
                if e + 2 - hstart > lim.max_header_bytes {
                    return HeadersResult::Failed(ParseError::HeadersTooLarge);
                }
                if e == p {
                    if acc.len() > lim.max_header_count {
                        return HeadersResult::Failed(ParseError::TooManyHeaders);
                    }
                    proof {
                        assert(headers_view(acc@) + Seq::<(Seq<u8>, Seq<u8>)>::empty()
                            =~= headers_view(acc@));
                    }
                    return HeadersResult::Done(acc, p + 2);
                }
                let line = sub_vec(s, p, e);
                match parse_header_line(&line) {
                    None => {
                        return HeadersResult::Failed(ParseError::MalformedHeader);
                    },
                    Some(h) => {
                        proof {
                            lemma_headers_glue_step(
                                s@,
                                p as int,
                                e as int,
                                hstart as int,
                                *lim,
                                headers_view(acc@),
                                h@,
                            );
                            assert(headers_view(acc@.push(h)) =~= headers_view(acc@).push(h@));
                        }
                        acc.push(h);
                        p = e + 2;
                    },
                }
            },
        }
    }
}

/// A decimal prefix never exceeds the value of the whole numeral.
pub proof fn lemma_dec_prefix_le(s: Seq<u8>, i: int)
    requires
        0 <= i <= s.len(),
    ensures
        dec_value(s.subrange(0, i)) <= dec_value(s),
    decreases s.len() - i,
{
    if i == s.len() {
        assert(s.subrange(0, i) =~= s);
    } else {
        assert(s.subrange(0, i + 1).drop_last() =~= s.subrange(0, i));
        assert(dec_value(s.subrange(0, i)) * 10 >= dec_value(s.subrange(0, i)));
        lemma_dec_prefix_le(s, i + 1);
    }
}

/// A hexadecimal prefix never exceeds the value of the whole numeral.
pub proof fn lemma_hex_prefix_le(s: Seq<u8>, i: int)
    requires
        0 <= i <= s.len(),
    ensures
        hex_value(s.subrange(0, i)) <= hex_value(s),
    decreases s.len() - i,
{
    if i == s.len() {
        assert(s.subrange(0, i) =~= s);
    } else {
        assert(s.subrange(0, i + 1).drop_last() =~= s.subrange(0, i));
        assert(hex_value(s.subrange(0, i)) * 16 >= hex_value(s.subrange(0, i)));
        lemma_hex_prefix_le(s, i + 1);
    }
}

/// Outcome of reading a bounded numeral.
pub enum NumScan {
    /// A numeral with this value, within the bound.
    Val(usize),
    /// Empty, or not a numeral in the expected base.
    Bad,
    /// A numeral whose value exceeds the bound.
    Over,
}

/// Reads `v` as a decimal numeral, holding the value to `cap`.
pub fn parse_dec_bounded(v: &Vec<u8>, cap: usize) -> (r: NumScan)
    ensures
        match r {
            NumScan::Val(n) => v@.len() > 0 && all_digits(v@) && n as nat == dec_value(v@) && n
                <= cap,
            NumScan::Bad => v@.len() == 0 || !all_digits(v@),
            NumScan::Over => all_digits(v@) && dec_value(v@) > cap,
        },
{
    let len = v.len();
    if len == 0 {
        return NumScan::Bad;
    }
    let mut i: usize = 0;
    while i < len
        invariant
            i <= len,
            len == v@.len(),
            forall|j: int| 0 <= j < i ==> is_digit(v@[j]),
        decreases len - i,
    {
        if v[i] < 48 || v[i] > 57 {
            return NumScan::Bad;
        }
        i = i + 1;
    }
    assert(all_digits(v@));
    let capw: u128 = cap as u128;
    let mut acc: u128 = 0;
    let mut k: usize = 0;
    proof {
        assert(v@.subrange(0, 0) =~= Seq::<u8>::empty());
    }
    while k < len
        invariant
            k <= len,
            len == v@.len(),
            all_digits(v@),
            capw == cap as u128,
            acc <= capw,
            acc as nat == dec_value(v@.subrange(0, k as int)),
        decreases len - k,
    {
        let d: u128 = (v[k] - 48) as u128;
        proof {
            assert(v@.subrange(0, k + 1).drop_last() =~= v@.subrange(0, k as int));
            assert(v@.subrange(0, k + 1).last() == v@[k as int]);
        }
        let next: u128 = acc * 10 + d;
        assert(next as nat == dec_value(v@.subrange(0, k + 1)));
        if next > capw {
            proof {
                lemma_dec_prefix_le(v@, k + 1);
            }
            return NumScan::Over;
        }
        acc = next;
        k = k + 1;
    }
    proof {
        assert(v@.subrange(0, len as int) =~= v@);
    }
    NumScan::Val(acc as usize)
}

/// Reads `v` as a hexadecimal numeral, holding the value to `cap`.
pub fn parse_hex_bounded(v: &Vec<u8>, cap: usize) -> (r: NumScan)
    ensures
        match r {
            NumScan::Val(n) => v@.len() > 0 && all_hex_digits(v@) && n as nat == hex_value(v@)
                && n <= cap,
            NumScan::Bad => v@.len() == 0 || !all_hex_digits(v@),
            NumScan::Over => all_hex_digits(v@) && hex_value(v@) > cap,
        },
{
    let len = v.len();
    if len == 0 {
        return NumScan::Bad;
    }
    let mut i: usize = 0;
    while i < len
        invariant
            i <= len,
            len == v@.len(),
            forall|j: int| 0 <= j < i ==> is_hex_digit(v@[j]),
        decreases len - i,
    {
        let c = v[i];
        if !((48 <= c && c <= 57) || (97 <= c && c <= 102) || (65 <= c && c <= 70)) {
            return NumScan::Bad;
        }
        i = i + 1;
    }
    assert(all_hex_digits(v@));
    let capw: u128 = cap as u128;
    let mut acc: u128 = 0;
    let mut k: usize = 0;
    proof {
        assert(v@.subrange(0, 0) =~= Seq::<u8>::empty());
    }
    while k < len
        invariant
            k <= len,
            len == v@.len(),
            all_hex_digits(v@),
            capw == cap as u128,
            acc <= capw,
            acc as nat == hex_value(v@.subrange(0, k as int)),
        decreases len - k,
    {
        let d: u128 = hex_digit_value_exec(v[k]) as u128;
        proof {
            assert(v@.subrange(0, k + 1).drop_last() =~= v@.subrange(0, k as int));
            assert(v@.subrange(0, k + 1).last() == v@[k as int]);
        }
        let next: u128 = acc * 16 + d;
        assert(next as nat == hex_value(v@.subrange(0, k + 1)));
        if next > capw {
            proof {
                lemma_hex_prefix_le(v@, k + 1);
            }
            return NumScan::Over;
        }
        acc = next;
        k = k + 1;
    }
    proof {
        assert(v@.subrange(0, len as int) =~= v@);
    }
    NumScan::Val(acc as usize)
}

/// Executable body framing.
pub enum Framing {
    Fixed(usize),
    Chunked,
}

/// Selects the body framing from the parsed headers, exactly as
/// `spec_framing` says.
pub fn framing_of(headers: &Vec<Header>, lim: &Limits) -> (r: Result<Framing, ParseError>)
    ensures
        match r {
            Ok(Framing::Fixed(n)) => spec_framing(headers_view(headers@), *lim) == Ok::<
                FramingS,
                ParseError,
            >(FramingS::Fixed(n as int)) && n <= lim.max_body,
            Ok(Framing::Chunked) => spec_framing(headers_view(headers@), *lim) == Ok::<
                FramingS,
                ParseError,
            >(FramingS::Chunked),
            Err(e) => spec_framing(headers_view(headers@), *lim) == Err::<FramingS, ParseError>(
                e,
            ),
        },
{
    let ghost hv = headers_view(headers@);
    let te = te_name_vec();
    let ch = chunked_token_vec();
    let mut has_te = false;
    let mut has_chunked = false;
    let mut i: usize = 0;
    while i < headers.len()
        invariant
            i <= headers@.len(),
            hv == headers_view(headers@),
            hv.len() == headers@.len(),
            te@ == te_name(),
            ch@ == chunked_token(),
            lower(te@) == te@,
            lower(ch@) == ch@,
            has_chunked <==> exists|j: int|
                0 <= j < i && lower(#[trigger] hv[j].0) == te_name() && lower(hv[j].1)
                    == chunked_token(),
            has_te <==> exists|j: int| 0 <= j < i && lower(#[trigger] hv[j].0) == te_name(),
        decreases headers@.len() - i,
    {
        proof {
            assert(hv[i as int] == headers@[i as int]@);
        }
        if eq_ignore_case(&headers[i].name, &te) {
            proof {
                assert(lower(hv[i as int].0) == te_name());
            }
            has_te = true;
            if eq_ignore_case(&headers[i].value, &ch) {
                proof {
                    assert(lower(hv[i as int].1) == chunked_token());
                }
                has_chunked = true;
            }
        } else {
            proof {
                assert(lower(hv[i as int].0) != te_name());
            }
        }
        i = i + 1;
    }
    if has_chunked {
        assert(te_chunked(hv));
        return Ok(Framing::Chunked);
    }
    assert(!te_chunked(hv));
    if has_te {
        assert(te_present(hv));
        return Err(ParseError::MalformedHeader);
    }
    assert(!te_present(hv));
    let cl = cl_name_vec();
    match crate::request::find_header(headers, &cl) {
        None => Ok(Framing::Fixed(0)),
        Some(v0) => {
            let ghost vv = v0@;
            let mut j: usize = 0;
            while j < headers.len()
                invariant
                    j <= headers@.len(),
                    hv == headers_view(headers@),
                    hv.len() == headers@.len(),
                    cl@ == cl_name(),
                    lower(cl@) == cl@,
                    vv == v0@,
                    !te_chunked(hv),
                    !te_present(hv),
                    header_value_in(hv, cl_name()) == Some(vv),
                    forall|t: int|
                        0 <= t < j && lower(#[trigger] hv[t].0) == cl_name() ==> hv[t].1 == vv,
                decreases headers@.len() - j,
            {
                proof {
                    assert(hv[j as int] == headers@[j as int]@);
                }
                if eq_ignore_case(&headers[j].name, &cl) {
                    if !bytes_eq(&headers[j].value, v0) {
                        proof {
                            assert(lower(hv[j as int].0) == cl_name() && hv[j as int].1 != vv);
                            assert(!cl_consistent(hv, vv));
                        }
                        return Err(ParseError::MalformedContentLength);
                    }
                }
                j = j + 1;
            }
            assert(cl_consistent(hv, vv));
            match parse_dec_bounded(v0, lim.max_body) {
                NumScan::Bad => Err(ParseError::MalformedContentLength),
                NumScan::Over => Err(ParseError::BodyTooLarge),
                NumScan::Val(n) => Ok(Framing::Fixed(n)),
            }
        },
    }
}

/// Executable outcome of the chunked-body stage.
pub enum ChunkedResult {
    NeedMore,
    Failed(ParseError),
    Done(Vec<u8>, usize),
}

/// Decodes a chunked body starting at `start`, exactly as
/// `spec_parse_chunked` says.
pub fn parse_chunked(s: &Vec<u8>, start: usize, lim: &Limits) -> (r: ChunkedResult)
    requires
        start <= s@.len(),
        lim.wf(),
    ensures
        match r {
            ChunkedResult::NeedMore => spec_parse_chunked(s@, start as int, Seq::empty(), *lim)
                == ChunkedOutcome::NeedMore,
            ChunkedResult::Failed(err) => spec_parse_chunked(s@, start as int, Seq::empty(), *lim)
                == ChunkedOutcome::Failed(err),
            ChunkedResult::Done(body, end) => spec_parse_chunked(
                s@,
                start as int,
                Seq::empty(),
                *lim,
            ) == (ChunkedOutcome::Done { body: body@, end: end as int }) && start <= end
                <= s@.len(),
        },
{
    let mut p: usize = start;
    let mut body: Vec<u8> = Vec::new();
    proof {
        assert(body@ =~= Seq::<u8>::empty());
    }
    loop
        invariant
            start <= p <= s@.len(),
            lim.wf(),
            body@.len() <= lim.max_body,
            spec_parse_chunked(s@, start as int, Seq::empty(), *lim) == spec_parse_chunked(
                s@,
                p as int,
                body@,
                *lim,
            ),
        decreases s@.len() - p,
    {
        proof {
            lemma_find_crlf_props(s@, p as int);
        }
        match find_crlf_exec(s, p) {
            None => {
                if s.len() - p > 17 {
                    return ChunkedResult::Failed(ParseError::MalformedChunkSize);
                } else {
                    return ChunkedResult::NeedMore;
                }
            },
            Some(e) => {
                let n0 = s.len();
                proof {
                    assert(p <= e && e + 2 <= n0);
                }
                if e == p || e - p > 16 {
                    return ChunkedResult::Failed(ParseError::MalformedChunkSize);
                }
                let line = sub_vec(s, p, e);
                match parse_hex_bounded(&line, lim.max_body) {
                    NumScan::Bad => {
                        return ChunkedResult::Failed(ParseError::MalformedChunkSize);
                    },
                    NumScan::Over => {
                        return ChunkedResult::Failed(ParseError::BodyTooLarge);
                    },
                    NumScan::Val(n) => {
                        if n == 0 {
                            if n0 - (e + 2) < 2 {
                                return ChunkedResult::NeedMore;
                            }
                            if s[e + 2] == CR && s[e + 3] == LF {
                                return ChunkedResult::Done(body, e + 4);
                            }
                            return ChunkedResult::Failed(ParseError::MalformedChunk);
                        }
                        if body.len() > lim.max_body - n {
                            return ChunkedResult::Failed(ParseError::BodyTooLarge);
                        }
                        let data_start = e + 2;
                        if n0 - data_start < n + 2 {
                            return ChunkedResult::NeedMore;
                        }
                        if s[data_start + n] == CR && s[data_start + n + 1] == LF {
                            let mut part = sub_vec(s, data_start, data_start + n);
                            body.append(&mut part);
                            p = data_start + n + 2;
                        } else {
                            return ChunkedResult::Failed(ParseError::MalformedChunk);
                        }
                    },
                }
            },
        }
    }
}

/// Executable outcome of feeding the parser a (prefix of a) request.
pub enum ParseResult {
    /// The bytes so far are a proper prefix of a well-formed request.
    NeedMore,
    /// The bytes can never grow into an acceptable request.
    Failed(ParseError),
    /// A full request and how many bytes of the stream it occupied.
    Complete(Request, usize),
}

impl ParseResult {
    /// The outcome this executable result stands for.
    pub open spec fn outcome(&self) -> ParseOutcome {
        match self {
            ParseResult::NeedMore => ParseOutcome::NeedMore,
            ParseResult::Failed(err) => ParseOutcome::Failed(*err),
            ParseResult::Complete(req, used) => ParseOutcome::Complete {
                req: req@,
                consumed: *used as int,
            },
        }
    }
}

/// Parses one request from the front of `s`, exactly as the grammar
/// `spec_parse_request` says.
pub fn parse_request(s: &Vec<u8>, lim: &Limits) -> (r: ParseResult)
    requires
        lim.wf(),
    ensures
        r.outcome() == spec_parse_request(s@, *lim),
        r matches ParseResult::Complete(_, used) ==> used <= s@.len(),
{
    let n0 = s.len();
    proof {
        lemma_find_crlf_props(s@, 0);
    }
    match find_crlf_exec(s, 0) {
        None => {
            if n0 > lim.max_request_line && n0 - 1 > lim.max_request_line {
                return ParseResult::Failed(ParseError::RequestLineTooLong);
            } else {
                return ParseResult::NeedMore;
            }
        },
        Some(e) => {
            proof {
                assert(e + 2 <= n0);
            }
            if e > lim.max_request_line {
                return ParseResult::Failed(ParseError::RequestLineTooLong);
            }
            let line = sub_vec(s, 0, e);
            match parse_request_line(&line) {
                None => ParseResult::Failed(ParseError::MalformedRequestLine),
                Some(rl) => {
                    match parse_headers(s, e + 2, e + 2, lim) {
                        HeadersResult::NeedMore => ParseResult::NeedMore,
                        HeadersResult::Failed(err) => ParseResult::Failed(err),
                        HeadersResult::Done(hs, end) => {
                            match framing_of(&hs, lim) {
                                Err(err) => ParseResult::Failed(err),
                                Ok(Framing::Fixed(n)) => {
                                    if n0 - end >= n {
                                        let body = sub_vec(s, end, end + n);
                                        let req = Request {
                                            method: rl.method,
                                            path: rl.path,
                                            query: rl.query,
                                            version: rl.version,
                                            headers: hs,
                                            body,
                                        };
                                        ParseResult::Complete(req, end + n)
                                    } else {
                                        ParseResult::NeedMore
                                    }
                                },
                                Ok(Framing::Chunked) => {
                                    match parse_chunked(s, end, lim) {
                                        ChunkedResult::NeedMore => ParseResult::NeedMore,
                                        ChunkedResult::Failed(err) => ParseResult::Failed(err),
                                        ChunkedResult::Done(body, bend) => {
                                            let req = Request {
                                                method: rl.method,
                                                path: rl.path,
                                                query: rl.query,
                                                version: rl.version,
                                                headers: hs,
                                                body,
                                            };
                                            ParseResult::Complete(req, bend)
                                        },
                                    }
                                },
                            }
                        },
                    }
                },
            }
        },
    }
}

/// Appends a copy of `src` onto `dst`.
pub fn append_bytes(dst: &mut Vec<u8>, src: &Vec<u8>)
    ensures
        final(dst)@ == old(dst)@ + src@,
{
    let mut i: usize = 0;
    proof {
        assert(dst@ =~= old(dst)@ + src@.subrange(0, 0));
    }
    while i < src.len()
        invariant
            i <= src@.len(),
            dst@ == old(dst)@ + src@.subrange(0, i as int),
        decreases src@.len() - i,
    {
        dst.push(src[i]);
        proof {
            assert(old(dst)@ + src@.subrange(0, i + 1) =~= (old(dst)@ + src@.subrange(
                0,
                i as int,
            )).push(src@[i as int]));
        }
        i = i + 1;
    }
    proof {
        assert(src@.subrange(0, src@.len() as int) =~= src@);
    }
}

/// The incremental request parser: it owns the connection's read buffer and
/// accepts arbitrarily fragmented input. Its outcome after any sequence of
/// `feed` calls is `spec_parse_request` of the concatenation of everything
/// fed, so fragmentation can never change what is parsed.
pub struct RequestParser {
    buf: Vec<u8>,
    limits: Limits,
}

impl RequestParser {
    /// Everything fed and not yet consumed, in order.
    pub closed spec fn bytes(&self) -> Seq<u8> {
        self.buf@
    }

    /// The configured limits.
    pub closed spec fn limits_spec(&self) -> Limits {
        self.limits
    }

    /// A fresh parser with an empty buffer.
    pub fn new(limits: Limits) -> (r: RequestParser)
        ensures
            r.bytes() == Seq::<u8>::empty(),
            r.limits_spec() == limits,
    {
        let r = RequestParser { buf: Vec::new(), limits };
        proof {
            assert(r.buf@ =~= Seq::<u8>::empty());
        }
        r
    }

    /// Number of buffered bytes.
    pub fn buffered(&self) -> (r: usize)
        ensures
            r == self.bytes().len(),
    {
        self.buf.len()
    }

    /// Appends one chunk of input and reports the parse outcome of the
    /// whole accumulated stream. Prior progress is never lost: the result
    /// is the grammar applied to everything fed so far.
    pub fn feed(&mut self, chunk: &Vec<u8>) -> (r: ParseResult)
        requires
            old(self).limits_spec().wf(),
        ensures
            final(self).bytes() == old(self).bytes() + chunk@,
            final(self).limits_spec() == old(self).limits_spec(),
            r.outcome() == spec_parse_request(final(self).bytes(), final(self).limits_spec()),
            r matches ParseResult::Complete(_, used) ==> used <= final(self).bytes().len(),
    {
        append_bytes(&mut self.buf, chunk);
        parse_request(&self.buf, &self.limits)
    }

    /// The parse outcome of the bytes buffered so far, without new input.
    pub fn current(&self) -> (r: ParseResult)
        requires
            self.limits_spec().wf(),
        ensures
            r.outcome() == spec_parse_request(self.bytes(), self.limits_spec()),
            r matches ParseResult::Complete(_, used) ==> used <= self.bytes().len(),
    {
        parse_request(&self.buf, &self.limits)
    }

    /// Discards the first `n` buffered bytes: after a completed request,
    /// the bytes it consumed are dropped and any pipelined remainder is
    /// kept for the next cycle.
    pub fn consume(&mut self, n: usize)
        requires
            n <= old(self).bytes().len(),
        ensures
            final(self).bytes() == old(self).bytes().skip(n as int),
            final(self).limits_spec() == old(self).limits_spec(),
    {
        let rest = sub_vec(&self.buf, n, self.buf.len());
        proof {
            assert(self.buf@.subrange(n as int, self.buf@.len() as int) =~= self.buf@.skip(
                n as int,
            ));
        }
        self.buf = rest;
    }
}

/// A declared `Content-Length` over the configured maximum body size can
/// never complete: the grammar rejects the stream outright, so the worker
/// answers with a 4xx and closes, and the application callback is never
/// invoked for it.
pub proof fn lemma_oversized_declared_body_rejected(
    s: Seq<u8>,
    lim: Limits,
    e: int,
    headers: Seq<(Seq<u8>, Seq<u8>)>,
    end: int,
    v: Seq<u8>,
)
    requires
        find_crlf(s, 0) == Some(e),
        0 <= e <= lim.max_request_line,
        spec_parse_request_line(s.subrange(0, e)) is Some,
        spec_parse_headers(s, e + 2, e + 2, lim) == (HeadersOutcome::Done { headers, end }),
        !te_chunked(headers),
        !te_present(headers),
        header_value_in(headers, cl_name()) == Some(v),
        cl_consistent(headers, v),
        v.len() > 0,
        all_digits(v),
        dec_value(v) > lim.max_body,
    ensures
        spec_parse_request(s, lim) == ParseOutcome::Failed(ParseError::BodyTooLarge),
{
}

/// Fragmentation invariance: the parse outcome after any sequence of feeds
/// depends only on the concatenation of the fed chunks. Two deliveries of
/// the same request — one byte at a time, or whole-buffer at once — parse
/// identically, since `feed` guarantees the buffer is exactly the
/// concatenation and the outcome is the grammar applied to it.
pub proof fn lemma_parse_fragmentation_invariant(
    a: Seq<Seq<u8>>,
    b: Seq<Seq<u8>>,
    lim: Limits,
)
    requires
        concat_chunks(a) == concat_chunks(b),
    ensures
        spec_parse_request(concat_chunks(a), lim) == spec_parse_request(concat_chunks(b), lim),
{
}

} // verus!
