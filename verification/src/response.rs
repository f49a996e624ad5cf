use vstd::prelude::*;
use crate::bytes::{lower, is_ws, hex_digit_value, dec_value, hex_value};
use crate::errors::HttpError;
use crate::request::{Header, headers_view};
use crate::codec::{te_name, cl_name, chunked_token, http11_bytes};

verus! {

/// A response body backed by a byte range of an open file, sent by the
/// transport's file-send capability instead of being buffered in memory.
/// The range is bounds-checked against the file's actual size when the
/// wrapper is built; the descriptor itself stays outside the library.
#[derive(Clone, Copy, PartialEq, Eq, Structural, Debug)]
pub struct FileRange {
    pub offset: usize,
    pub length: usize,
    pub file_size: usize,
}

impl FileRange {
    /// The range lies inside the file.
    pub open spec fn wf(self) -> bool {
        self.offset + self.length <= self.file_size
    }

    /// Builds a checked range. Succeeds exactly when the requested range
    /// lies inside the file; a mismatch is a `FileRangeError`.
    pub fn new(offset: usize, length: usize, file_size: usize) -> (r: Result<FileRange, HttpError>)
        ensures
            match r {
                Ok(f) => offset + length <= file_size && f == (FileRange {
                    offset,
                    length,
                    file_size,
                }) && f.wf(),
                Err(e) => offset + length > file_size && e == HttpError::FileRangeError,
            },
    {
        if file_size >= length && offset <= file_size - length {
            Ok(FileRange { offset, length, file_size })
        } else {
            Err(HttpError::FileRangeError)
        }
    }
}

/// The body of a response, as the application contract yields it.
pub enum ResponseBody {
    /// No body bytes at all.
    Empty,
    /// A fully buffered body.
    Bytes(Vec<u8>),
    /// An iterator-style body: a sequence of byte chunks of unknown total
    /// length, sent with chunked transfer encoding.
    Chunks(Vec<Vec<u8>>),
    /// File bytes sent by the transport; only the framing is serialized.
    File(FileRange),
}

/// Mathematical view of a response body.
pub enum BodyView {
    Empty,
    Bytes(Seq<u8>),
    Chunks(Seq<Seq<u8>>),
    File(FileRange),
}

impl View for ResponseBody {
    type V = BodyView;

    open spec fn view(&self) -> BodyView {
        match self {
            ResponseBody::Empty => BodyView::Empty,
            ResponseBody::Bytes(b) => BodyView::Bytes(b@),
            ResponseBody::Chunks(cs) => BodyView::Chunks(cs@.map_values(|c: Vec<u8>| c@)),
            ResponseBody::File(f) => BodyView::File(*f),
        }
    }
}

/// A response as built through the application contract: status with
/// reason, headers in the order supplied (order is wire-significant),
/// and a body.
pub struct Response {
    pub status: u16,
    pub reason: Vec<u8>,
    pub headers: Vec<Header>,
    pub body: ResponseBody,
}

/// Mathematical view of a response.
pub struct RespView {
    pub status: u16,
    pub reason: Seq<u8>,
    pub headers: Seq<(Seq<u8>, Seq<u8>)>,
    pub body: BodyView,
}

impl View for Response {
    type V = RespView;

    open spec fn view(&self) -> RespView {
        RespView {
            status: self.status,
            reason: self.reason@,
            headers: headers_view(self.headers@),
            body: self.body@,
        }
    }
}

/// CRLF as a sequence.
pub open spec fn crlf() -> Seq<u8> {
    seq![13u8, 10u8]
}

/// Decimal numeral of `n`, most significant digit first.
pub open spec fn dec_of(n: nat) -> Seq<u8>
    decreases n,
{
    if n < 10 {
        seq![(48 + n) as u8]
    } else {
        dec_of(n / 10).push((48 + n % 10) as u8)
    }
}

/// One lower-case hexadecimal digit.
pub open spec fn hex_digit_of(d: nat) -> u8 {
    if d < 10 {
        (48 + d) as u8
    } else {
        (87 + d) as u8
    }
}

/// Hexadecimal numeral of `n`, most significant digit first.
pub open spec fn hex_of(n: nat) -> Seq<u8>
    decreases n,
{
    if n < 16 {
        seq![hex_digit_of(n)]
    } else {
        hex_of(n / 16).push(hex_digit_of(n % 16))
    }
}

/// One serialized header line: `name: value CRLF`.
pub open spec fn header_line(h: (Seq<u8>, Seq<u8>)) -> Seq<u8> {
    h.0 + seq![58u8, 32u8] + h.1 + crlf()
}

/// The serialized header block, in supplied order.
pub open spec fn header_block(hs: Seq<(Seq<u8>, Seq<u8>)>) -> Seq<u8>
    decreases hs.len(),
{
    if hs.len() == 0 {
        Seq::empty()
    } else {
        header_line(hs[0]) + header_block(hs.drop_first())
    }
}

/// One encoded chunk: `size CRLF data CRLF`; an empty chunk encodes to
/// nothing, since a zero size would terminate the body early.
pub open spec fn chunk_enc(c: Seq<u8>) -> Seq<u8> {
    if c.len() == 0 {
        Seq::empty()
    } else {
        hex_of(c.len() as nat) + crlf() + c + crlf()
    }
}

/// The encoded chunk payload, without the terminator.
pub open spec fn chunks_payload(cs: Seq<Seq<u8>>) -> Seq<u8>
    decreases cs.len(),
{
    if cs.len() == 0 {
        Seq::empty()
    } else {
        chunks_payload(cs.drop_last()) + chunk_enc(cs.last())
    }
}

/// The chunked-body terminator: a zero-size chunk and an empty trailer.
pub open spec fn chunk_terminator() -> Seq<u8> {
    seq![48u8, 13u8, 10u8, 13u8, 10u8]
}

/// The whole encoded chunked body.
pub open spec fn chunk_encode(cs: Seq<Seq<u8>>) -> Seq<u8> {
    chunks_payload(cs) + chunk_terminator()
}

/// The bytes of all chunks in order: what a conforming client recovers.
pub open spec fn chunks_concat(cs: Seq<Seq<u8>>) -> Seq<u8>
    decreases cs.len(),
{
    if cs.len() == 0 {
        Seq::empty()
    } else {
        chunks_concat(cs.drop_last()) + cs.last()
    }
}

/// The framing header the codec appends when the application did not
/// frame the body itself: a computed `Content-Length`, or
/// `Transfer-Encoding: chunked` for a body of unknown total length.
pub open spec fn framing_header(b: BodyView) -> (Seq<u8>, Seq<u8>) {
    match b {
        BodyView::Empty => (content_length_wire(), dec_of(0)),
        BodyView::Bytes(bs) => (content_length_wire(), dec_of(bs.len() as nat)),
        BodyView::Chunks(cs) => (transfer_encoding_wire(), chunked_token()),
        BodyView::File(f) => (content_length_wire(), dec_of(f.length as nat)),
    }
}

/// The bytes of `Content-Length` as written on the wire.
pub open spec fn content_length_wire() -> Seq<u8> {
    seq![67u8, 111u8, 110u8, 116u8, 101u8, 110u8, 116u8, 45u8, 76u8, 101u8, 110u8, 103u8,
        116u8, 104u8]
}

/// The bytes of `Transfer-Encoding` as written on the wire.
pub open spec fn transfer_encoding_wire() -> Seq<u8> {
    seq![84u8, 114u8, 97u8, 110u8, 115u8, 102u8, 101u8, 114u8, 45u8, 69u8, 110u8, 99u8,
        111u8, 100u8, 105u8, 110u8, 103u8]
}

/// Body bytes that follow the head on the wire. A file body is sent by
/// the transport's file-send path, so nothing of it is serialized here.
pub open spec fn body_encoding(b: BodyView) -> Seq<u8> {
    match b {
        BodyView::Empty => Seq::empty(),
        BodyView::Bytes(bs) => bs,
        BodyView::Chunks(cs) => chunk_encode(cs),
        BodyView::File(f) => Seq::empty(),
    }
}

/// The status line: `HTTP/1.1 SP status SP reason CRLF`.
pub open spec fn status_line(status: u16, reason: Seq<u8>) -> Seq<u8> {
    http11_bytes() + seq![32u8] + dec_of(status as nat) + seq![32u8] + reason + crlf()
}

/// The full wire form of a response: status line, the application's
/// headers in order, the computed framing header, an empty line, then
/// the encoded body.
pub open spec fn spec_serialize_response(r: RespView) -> Seq<u8> {
    status_line(r.status, r.reason) + header_block(r.headers.push(framing_header(r.body)))
        + crlf() + body_encoding(r.body)
}

/// No carriage return or line feed anywhere.
pub open spec fn line_safe(s: Seq<u8>) -> bool {
    forall|i: int| 0 <= i < s.len() ==> s[i] != 13u8 && s[i] != 10u8
}

/// A header name the serializer can emit and any client can parse back.
pub open spec fn name_ok(s: Seq<u8>) -> bool {
    s.len() > 0 && forall|i: int|
        0 <= i < s.len() ==> s[i] != 13u8 && s[i] != 10u8 && s[i] != 58u8 && !is_ws(s[i])
}

/// A header value that survives the trim a parser applies.
pub open spec fn value_ok(s: Seq<u8>) -> bool {
    line_safe(s) && (s.len() > 0 ==> !is_ws(s[0]) && !is_ws(s[s.len() - 1]))
}

/// What the application contract owes: a sane status, a clean reason,
/// clean headers, and no framing header of its own — the codec computes
/// the framing, so it can never conflict with the body.
pub open spec fn resp_wf(r: RespView) -> bool {
    &&& 100 <= r.status <= 999
    &&& line_safe(r.reason)
    &&& forall|i: int|
        0 <= i < r.headers.len() ==> name_ok(#[trigger] r.headers[i].0) && value_ok(
            r.headers[i].1,
        ) && lower(r.headers[i].0) != cl_name() && lower(r.headers[i].0) != te_name()
}

/// Renders `n` in decimal, most significant digit first.
pub fn dec_render(n: usize) -> (r: Vec<u8>)
    ensures
        r@ == dec_of(n as nat),
    decreases n,
{
    if n < 10 {
        let mut v: Vec<u8> = Vec::new();
        v.push(48 + (n as u8));
        proof {
            assert(v@ =~= dec_of(n as nat));
        }
        v
    } else {
        proof {
            assert(n / 10 < n) by (nonlinear_arith)
                requires
                    n >= 10,
            ;
        }
        let mut v = dec_render(n / 10);
        v.push(48 + ((n % 10) as u8));
        proof {
            assert(v@ =~= dec_of(n as nat));
        }
        v
    }
}

/// Renders `n` in lower-case hexadecimal, most significant digit first.
pub fn hex_render(n: usize) -> (r: Vec<u8>)
    ensures
        r@ == hex_of(n as nat),
    decreases n,
{
    if n < 16 {
        let d: u8 = if n < 10 {
            48 + (n as u8)
        } else {
            87 + (n as u8)
        };
        let mut v: Vec<u8> = Vec::new();
        v.push(d);
        proof {
            assert(v@ =~= hex_of(n as nat));
        }
        v
    } else {
        proof {
            assert(n / 16 < n) by (nonlinear_arith)
                requires
                    n >= 16,
            ;
        }
        let mut v = hex_render(n / 16);
        let m = n % 16;
        let d: u8 = if m < 10 {
            48 + (m as u8)
        } else {
            87 + (m as u8)
        };
        v.push(d);
        proof {
            assert(v@ =~= hex_of(n as nat));
        }
        v
    }
}

/// Appending one header to the block appends its line.
pub proof fn lemma_header_block_snoc(hs: Seq<(Seq<u8>, Seq<u8>)>, h: (Seq<u8>, Seq<u8>))
    ensures
        header_block(hs.push(h)) == header_block(hs) + header_line(h),
    decreases hs.len(),
{
    if hs.len() == 0 {
        assert(hs.push(h).drop_first() =~= Seq::<(Seq<u8>, Seq<u8>)>::empty());
        assert(hs.push(h)[0] == h);
        assert(header_block(hs.push(h).drop_first()) =~= Seq::<u8>::empty());
        assert(header_block(hs.push(h)) =~= header_line(h));
        assert(header_block(hs) + header_line(h) =~= header_line(h));
    } else {
        assert(hs.push(h).drop_first() =~= hs.drop_first().push(h));
        lemma_header_block_snoc(hs.drop_first(), h);
        assert(hs.push(h)[0] == hs[0]);
        assert(header_line(hs[0]) + (header_block(hs.drop_first()) + header_line(h)) =~= (
        header_line(hs[0]) + header_block(hs.drop_first())) + header_line(h));
    }
}

/// The bytes of `Content-Length` as an executable vector.
pub fn content_length_wire_vec() -> (r: Vec<u8>)
    ensures
        r@ == content_length_wire(),
{
    let mut v: Vec<u8> = Vec::new();
    v.push(67);
    v.push(111);
    v.push(110);
    v.push(116);
    v.push(101);
    v.push(110);
    v.push(116);
    v.push(45);
    v.push(76);
    v.push(101);
    v.push(110);
    v.push(103);
    v.push(116);
    v.push(104);
    proof {
        assert(v@ =~= content_length_wire());
    }
    v
}

/// The bytes of `Transfer-Encoding` as an executable vector.
pub fn transfer_encoding_wire_vec() -> (r: Vec<u8>)
    ensures
        r@ == transfer_encoding_wire(),
{
    let mut v: Vec<u8> = Vec::new();
    v.push(84);
    v.push(114);
    v.push(97);
    v.push(110);
    v.push(115);
    v.push(102);
    v.push(101);
    v.push(114);
    v.push(45);
    v.push(69);
    v.push(110);
    v.push(99);
    v.push(111);
    v.push(100);
    v.push(105);
    v.push(110);
    v.push(103);
    proof {
        assert(v@ =~= transfer_encoding_wire());
    }
    v
}

/// Appends `name: value CRLF` onto `out`.
fn append_header_line(out: &mut Vec<u8>, name: &Vec<u8>, value: &Vec<u8>)
    ensures
        final(out)@ == old(out)@ + header_line((name@, value@)),
{
    let ghost before = out@;
    crate::codec::append_bytes(out, name);
    out.push(58);
    out.push(32);
    crate::codec::append_bytes(out, value);
    out.push(13);
    out.push(10);
    proof {
        assert(out@ =~= before + header_line((name@, value@)));
    }
}

/// Serializes a response to its full wire form: status line, the
/// application's headers in their order, the computed framing header,
/// an empty line, then the encoded body (nothing for a file body — the
/// transport sends those bytes).
pub fn serialize_response(r: &Response) -> (out: Vec<u8>)
    ensures
        out@ == spec_serialize_response(r@),
{
    let mut out: Vec<u8> = Vec::new();
    let h11 = crate::codec::http11_vec();
    crate::codec::append_bytes(&mut out, &h11);
    out.push(32);
    let st = dec_render(r.status as usize);
    crate::codec::append_bytes(&mut out, &st);
    out.push(32);
    crate::codec::append_bytes(&mut out, &r.reason);
    out.push(13);
    out.push(10);
    let ghost sl = status_line(r.status, r.reason@);
    proof {
        assert(out@ =~= sl);
    }
    let ghost hv = headers_view(r.headers@);
    let mut i: usize = 0;
    proof {
        assert(hv.subrange(0, 0) =~= Seq::<(Seq<u8>, Seq<u8>)>::empty());
        assert(out@ =~= sl + header_block(hv.subrange(0, 0)));
    }
    while i < r.headers.len()
        invariant
            i <= r.headers@.len(),
            hv == headers_view(r.headers@),
            hv.len() == r.headers@.len(),
            sl == status_line(r.status, r.reason@),
            out@ == sl + header_block(hv.subrange(0, i as int)),
        decreases r.headers@.len() - i,
    {
        proof {
            assert(hv[i as int] == r.headers@[i as int]@);
        }
        append_header_line(&mut out, &r.headers[i].name, &r.headers[i].value);
        proof {
            assert(hv.subrange(0, i + 1) =~= hv.subrange(0, i as int).push(hv[i as int]));
            lemma_header_block_snoc(hv.subrange(0, i as int), hv[i as int]);
            assert((sl + header_block(hv.subrange(0, i as int))) + header_line(hv[i as int]) =~= sl
                + header_block(hv.subrange(0, i + 1)));
        }
        i = i + 1;
    }
    proof {
        assert(hv.subrange(0, hv.len() as int) =~= hv);
    }
    // the computed framing header
    let ghost fh = framing_header(r.body@);
    match &r.body {
        ResponseBody::Empty => {
            let name = content_length_wire_vec();
            let zero = dec_render(0);
            append_header_line(&mut out, &name, &zero);
        },
        ResponseBody::Bytes(bs) => {
            let name = content_length_wire_vec();
            let len = dec_render(bs.len());
            append_header_line(&mut out, &name, &len);
        },
        ResponseBody::Chunks(cs) => {
            let name = transfer_encoding_wire_vec();
            let tok = crate::codec::chunked_token_vec();
            append_header_line(&mut out, &name, &tok);
        },
        ResponseBody::File(f) => {
            let name = content_length_wire_vec();
            let len = dec_render(f.length);
            append_header_line(&mut out, &name, &len);
        },
    }
    proof {
        lemma_header_block_snoc(hv, fh);
        assert((sl + header_block(hv)) + header_line(fh) =~= sl + header_block(hv.push(fh)));
    }
    out.push(13);
    out.push(10);
    let ghost head = sl + header_block(hv.push(fh)) + crlf();
    proof {
        assert(out@ =~= head);
    }
    match &r.body {
        ResponseBody::Empty => {
            proof {
                assert(out@ =~= head + body_encoding(r.body@));
            }
        },
        ResponseBody::Bytes(bs) => {
            crate::codec::append_bytes(&mut out, bs);
            proof {
                assert(out@ =~= head + body_encoding(r.body@));
            }
        },
        ResponseBody::File(f) => {
            proof {
                assert(out@ =~= head + body_encoding(r.body@));
            }
        },
        ResponseBody::Chunks(cs) => {
            let ghost cv = cs@.map_values(|c: Vec<u8>| c@);
            let mut k: usize = 0;
            proof {
                assert(cv.subrange(0, 0) =~= Seq::<Seq<u8>>::empty());
                assert(out@ =~= head + chunks_payload(cv.subrange(0, 0)));
            }
            while k < cs.len()
                invariant
                    k <= cs@.len(),
                    cv == cs@.map_values(|c: Vec<u8>| c@),
                    cv.len() == cs@.len(),
                    out@ == head + chunks_payload(cv.subrange(0, k as int)),
                decreases cs@.len() - k,
            {
                let ghost before = out@;
                proof {
                    assert(cv[k as int] == cs@[k as int]@);
                }
                if cs[k].len() > 0 {
                    let sz = hex_render(cs[k].len());
                    crate::codec::append_bytes(&mut out, &sz);
                    out.push(13);
                    out.push(10);
                    crate::codec::append_bytes(&mut out, &cs[k]);
                    out.push(13);
                    out.push(10);
                    proof {
                        assert(out@ =~= before + chunk_enc(cv[k as int]));
                    }
                } else {
                    proof {
                        assert(out@ =~= before + chunk_enc(cv[k as int]));
                    }
                }
                proof {
                    assert(cv.subrange(0, k + 1).drop_last() =~= cv.subrange(0, k as int));
                    assert(cv.subrange(0, k + 1).last() == cv[k as int]);
                    assert((head + chunks_payload(cv.subrange(0, k as int))) + chunk_enc(
                        cv[k as int],
                    ) =~= head + chunks_payload(cv.subrange(0, k + 1)));
                }
                k = k + 1;
            }
            proof {
                assert(cv.subrange(0, cv.len() as int) =~= cv);
            }
            out.push(48);
            out.push(13);
            out.push(10);
            out.push(13);
            out.push(10);
            proof {
                assert(out@ =~= head + (chunks_payload(cv) + chunk_terminator()));
            }
        },
    }
    proof {
        assert(out@ =~= spec_serialize_response(r@));
    }
    out
}

/// Every byte is free of CR and LF.
pub fn is_line_safe(v: &Vec<u8>) -> (b: bool)
    ensures
        b == line_safe(v@),
{
    let mut i: usize = 0;
    while i < v.len()
        invariant
            i <= v@.len(),
            forall|j: int| 0 <= j < i ==> v@[j] != 13u8 && v@[j] != 10u8,
        decreases v@.len() - i,
    {
        let c = v[i];
        if c == 13 || c == 10 {
            assert(!line_safe(v@));
            return false;
        }
        i = i + 1;
    }
    true
}

/// Whether `v` may stand as a header name on the wire.
pub fn is_name_ok(v: &Vec<u8>) -> (b: bool)
    ensures
        b == name_ok(v@),
{
    if v.len() == 0 {
        return false;
    }
    let mut i: usize = 0;
    while i < v.len()
        invariant
            i <= v@.len(),
            forall|j: int|
                0 <= j < i ==> v@[j] != 13u8 && v@[j] != 10u8 && v@[j] != 58u8 && !is_ws(v@[j]),
        decreases v@.len() - i,
    {
        let c = v[i];
        if c == 13 || c == 10 || c == 58 || c == 32 || c == 9 {
            assert(!name_ok(v@));
            return false;
        }
        i = i + 1;
    }
    true
}

/// Whether `v` may stand as a header value and survive a parser's trim.
pub fn is_value_ok(v: &Vec<u8>) -> (b: bool)
    ensures
        b == value_ok(v@),
{
    if !is_line_safe(v) {
        return false;
    }
    if v.len() > 0 {
        let c0 = v[0];
        let c1 = v[v.len() - 1];
        if c0 == 32 || c0 == 9 || c1 == 32 || c1 == 9 {
            return false;
        }
    }
    true
}

/// Checks the application-contract obligations on a response, so an
/// unverified caller can test them before serializing.
pub fn response_wf_check(r: &Response) -> (ok: bool)
    ensures
        ok == resp_wf(r@),
{
    if r.status < 100 || r.status > 999 {
        return false;
    }
    if !is_line_safe(&r.reason) {
        return false;
    }
    let ghost hv = headers_view(r.headers@);
    let cl = crate::codec::cl_name_vec();
    let te = crate::codec::te_name_vec();
    let mut k: usize = 0;
    while k < r.headers.len()
        invariant
            k <= r.headers@.len(),
            100 <= r@.status <= 999,
            line_safe(r@.reason),
            hv == headers_view(r.headers@),
            hv.len() == r.headers@.len(),
            cl@ == cl_name(),
            te@ == te_name(),
            lower(cl@) == cl@,
            lower(te@) == te@,
            forall|j: int|
                0 <= j < k ==> name_ok(#[trigger] hv[j].0) && value_ok(hv[j].1) && lower(hv[j].0)
                    != cl_name() && lower(hv[j].0) != te_name(),
        decreases r.headers@.len() - k,
    {
        proof {
            assert(hv[k as int] == r.headers@[k as int]@);
        }
        if !is_name_ok(&r.headers[k].name) {
            proof {
                assert(r@.headers[k as int] == hv[k as int]);
                assert(!name_ok(r@.headers[k as int].0));
                assert(!resp_wf(r@));
            }
            return false;
        }
        if !is_value_ok(&r.headers[k].value) {
            proof {
                assert(r@.headers[k as int] == hv[k as int]);
                let ghost nm = r@.headers[k as int].0;
                assert(!(name_ok(nm) && value_ok(r@.headers[k as int].1)));
                assert(!resp_wf(r@));
            }
            return false;
        }
        if crate::bytes::eq_ignore_case(&r.headers[k].name, &cl) {
            proof {
                assert(r@.headers[k as int] == hv[k as int]);
                assert(lower(r@.headers[k as int].0) == cl_name());
                assert(!resp_wf(r@));
            }
            return false;
        }
        if crate::bytes::eq_ignore_case(&r.headers[k].name, &te) {
            proof {
                assert(r@.headers[k as int] == hv[k as int]);
                assert(lower(r@.headers[k as int].0) == te_name());
                assert(!resp_wf(r@));
            }
            return false;
        }
        k = k + 1;
    }
    true
}

} // verus!
