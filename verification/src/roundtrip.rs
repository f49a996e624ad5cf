use vstd::prelude::*;
use crate::bytes::{
    find_crlf, is_crlf_at, trim_ws, lower, all_digits, dec_value, all_hex_digits, hex_value,
    is_ws, lemma_find_crlf_is, lemma_find_byte_is,
};
use crate::codec::{
    spec_parse_header_line, te_name, cl_name, chunked_token, http11_bytes,
};
use crate::request::header_value_in;
use crate::response::{
    RespView, BodyView, crlf, dec_of, hex_of, hex_digit_of, header_line, header_block, chunk_enc,
    chunks_payload, chunk_terminator, chunks_concat, framing_header, content_length_wire,
    transfer_encoding_wire, body_encoding, status_line, spec_serialize_response, resp_wf,
    name_ok, value_ok,
};

verus! {

// ---------------------------------------------------------------------
// The conforming client: how any correct HTTP/1.1 client reads a response
// stream back. It is the measure the serializer is held to.
// ---------------------------------------------------------------------

/// What a conforming client recovers from a response stream.
pub struct ClientView {
    pub status: int,
    pub reason: Seq<u8>,
    pub headers: Seq<(Seq<u8>, Seq<u8>)>,
    pub body: Seq<u8>,
}

/// Header lines until the empty line, as a client reads them: the same
/// line grammar the request parser uses, with no server-side limits.
pub open spec fn client_headers(s: Seq<u8>, p: int) -> Option<(Seq<(Seq<u8>, Seq<u8>)>, int)>
    decreases s.len() - p,
{
    match find_crlf(s, p) {
        Option::None => Option::None,
        Option::Some(e) => if e < p || e + 2 > s.len() {
            // never reached: find_crlf only returns in-range positions
            Option::None
        } else if e == p {
            Option::Some((Seq::empty(), p + 2))
        } else {
            match spec_parse_header_line(s.subrange(p, e)) {
                Option::None => Option::None,
                Option::Some(h) => match client_headers(s, e + 2) {
                    Option::Some((hs, end)) => Option::Some((seq![h] + hs, end)),
                    Option::None => Option::None,
                },
            }
        },
    }
}

/// A chunked body as a client decodes it: `size CRLF data CRLF` until the
/// zero chunk and empty trailer. No server-side limits apply.
pub open spec fn client_dechunk(s: Seq<u8>, p: int, body: Seq<u8>) -> Option<(Seq<u8>, int)>
    decreases s.len() - p,
{
    match find_crlf(s, p) {
        Option::None => Option::None,
        Option::Some(e) => if e < p || e + 2 > s.len() {
            // never reached: find_crlf only returns in-range positions
            Option::None
        } else if e == p || !all_hex_digits(s.subrange(p, e)) {
            Option::None
        } else {
            let n = hex_value(s.subrange(p, e)) as int;
            if n == 0 {
                if e + 4 <= s.len() && s[e + 2] == 13u8 && s[e + 3] == 10u8 {
                    Option::Some((body, e + 4))
                } else {
                    Option::None
                }
            } else {
                let data_start = e + 2;
                if s.len() >= data_start + n + 2 && s[data_start + n] == 13u8 && s[data_start + n
                    + 1] == 10u8 {
                    client_dechunk(s, data_start + n + 2, body + s.subrange(data_start, data_start + n))
                } else {
                    Option::None
                }
            }
        },
    }
}

/// The whole response stream as a conforming client reads it: status line
/// `HTTP/1.1 SP 3-digit-status SP reason CRLF`, headers to the empty
/// line, then the body under the framing the headers declare.
pub open spec fn spec_client_parse(s: Seq<u8>) -> Option<ClientView> {
    if s.len() >= 13 && s.subrange(0, 9) == http11_bytes() + seq![32u8] && all_digits(
        s.subrange(9, 12),
    ) && s[12] == 32u8 {
        match find_crlf(s, 13) {
            Option::None => Option::None,
            Option::Some(e) => {
                let status = dec_value(s.subrange(9, 12)) as int;
                let reason = s.subrange(13, e);
                match client_headers(s, e + 2) {
                    Option::None => Option::None,
                    Option::Some((headers, hend)) => {
                        if exists|i: int|
                            0 <= i < headers.len() && lower(#[trigger] headers[i].0) == te_name()
                                && lower(headers[i].1) == chunked_token() {
                            match client_dechunk(s, hend, Seq::empty()) {
                                Option::Some((body, _)) => Option::Some(
                                    ClientView { status, reason, headers, body },
                                ),
                                Option::None => Option::None,
                            }
                        } else {
                            match header_value_in(headers, cl_name()) {
                                Option::None => Option::Some(
                                    ClientView { status, reason, headers, body: Seq::empty() },
                                ),
                                Option::Some(v) => if all_digits(v) && v.len() > 0 && hend
                                    + dec_value(v) <= s.len() {
                                    Option::Some(
                                        ClientView {
                                            status,
                                            reason,
                                            headers,
                                            body: s.subrange(hend, hend + dec_value(v)),
                                        },
                                    )
                                } else {
                                    Option::None
                                },
                            }
                        }
                    },
                }
            },
        }
    } else {
        Option::None
    }
}

// ---------------------------------------------------------------------
// Numerals round-trip.
// ---------------------------------------------------------------------

/// A decimal numeral the serializer renders reads back to its value.
pub proof fn lemma_dec_of_value(n: nat)
    ensures
        dec_of(n).len() >= 1,
        all_digits(dec_of(n)),
        dec_value(dec_of(n)) == n,
    decreases n,
{
    if n < 10 {
        assert(dec_of(n) =~= seq![(48 + n) as u8]);
        assert(dec_value(dec_of(n)) == dec_value(dec_of(n).drop_last()) * 10 + ((dec_of(
            n,
        ).last() - 48) as nat));
        assert(dec_of(n).drop_last() =~= Seq::<u8>::empty());
    } else {
        assert(n / 10 < n && n / 10 >= 1 && n % 10 < 10 && n == (n / 10) * 10 + n % 10)
            by (nonlinear_arith)
            requires
                n >= 10,
        ;
        lemma_dec_of_value(n / 10);
        let w = dec_of(n);
        assert(w == dec_of(n / 10).push((48 + n % 10) as u8));
        assert(w.drop_last() =~= dec_of(n / 10));
        assert(dec_value(w) == dec_value(dec_of(n / 10)) * 10 + ((w.last() - 48) as nat));
        assert(forall|i: int|
            0 <= i < w.len() ==> #[trigger] w[i] == if i < w.len() - 1 {
                dec_of(n / 10)[i]
            } else {
                (48 + n % 10) as u8
            });
        assert(all_digits(w));
    }
}

/// A hexadecimal numeral the serializer renders reads back to its value.
pub proof fn lemma_hex_of_value(n: nat)
    ensures
        hex_of(n).len() >= 1,
        all_hex_digits(hex_of(n)),
        hex_value(hex_of(n)) == n,
    decreases n,
{
    if n < 16 {
        assert(hex_of(n) =~= seq![hex_digit_of(n)]);
        assert(hex_of(n).drop_last() =~= Seq::<u8>::empty());
        assert(crate::bytes::is_hex_digit(hex_digit_of(n)));
        assert(crate::bytes::hex_digit_value(hex_digit_of(n)) == n);
        assert(all_hex_digits(hex_of(n)));
        assert(hex_value(hex_of(n)) == hex_value(hex_of(n).drop_last()) * 16
            + crate::bytes::hex_digit_value(hex_of(n).last()));
    } else {
        assert(n / 16 < n && n / 16 >= 1 && n % 16 < 16 && n == (n / 16) * 16 + n % 16)
            by (nonlinear_arith)
            requires
                n >= 16,
        ;
        lemma_hex_of_value(n / 16);
        let w = hex_of(n);
        assert(w == hex_of(n / 16).push(hex_digit_of(n % 16)));
        assert(w.drop_last() =~= hex_of(n / 16));
        assert(crate::bytes::hex_digit_value(hex_digit_of(n % 16)) == n % 16);
        assert(hex_value(w) == hex_value(hex_of(n / 16)) * 16 + crate::bytes::hex_digit_value(
            w.last(),
        ));
        assert(forall|i: int|
            0 <= i < w.len() ==> #[trigger] w[i] == if i < w.len() - 1 {
                hex_of(n / 16)[i]
            } else {
                hex_digit_of(n % 16)
            });
        assert(all_hex_digits(w));
    }
}

/// Decimal digits are never CR, LF, or a colon.
pub proof fn lemma_dec_of_chars(n: nat)
    ensures
        forall|i: int|
            0 <= i < dec_of(n).len() ==> 48 <= #[trigger] dec_of(n)[i] <= 57,
    decreases n,
{
    if n < 10 {
    } else {
        assert(n % 10 < 10) by (nonlinear_arith);
        lemma_dec_of_chars(n / 10);
        assert(forall|i: int|
            0 <= i < dec_of(n).len() ==> #[trigger] dec_of(n)[i] == if i < dec_of(n).len() - 1 {
                dec_of(n / 10)[i]
            } else {
                (48 + n % 10) as u8
            });
    }
}

/// Hexadecimal digits as rendered are never CR or LF.
pub proof fn lemma_hex_of_chars(n: nat)
    ensures
        forall|i: int|
            0 <= i < hex_of(n).len() ==> (48 <= #[trigger] hex_of(n)[i] <= 57 || 97 <= hex_of(
                n,
            )[i] <= 102),
    decreases n,
{
    if n < 16 {
    } else {
        assert(n % 16 < 16) by (nonlinear_arith);
        lemma_hex_of_chars(n / 16);
        assert(forall|i: int|
            0 <= i < hex_of(n).len() ==> #[trigger] hex_of(n)[i] == if i < hex_of(n).len() - 1 {
                hex_of(n / 16)[i]
            } else {
                hex_digit_of(n % 16)
            });
    }
}

// ---------------------------------------------------------------------
// Structure of the serialized stream.
// ---------------------------------------------------------------------

/// Where a CR-free line ends: the first CRLF after it is its terminator,
/// the line reads back unchanged, and what follows the terminator is the
/// rest of the stream.
pub proof fn lemma_line_at_offset(s: Seq<u8>, p: int, line: Seq<u8>, rest: Seq<u8>)
    requires
        0 <= p <= s.len(),
        s.skip(p) == line + crlf() + rest,
        forall|i: int| 0 <= i < line.len() ==> line[i] != 13u8,
    ensures
        find_crlf(s, p) == Some(p + line.len()),
        s.subrange(p, p + line.len()) == line,
        s.skip(p + line.len() + 2) == rest,
        s.len() == p + line.len() + 2 + rest.len(),
{
    let ll = line.len() as int;
    let lp = p + ll;
    assert(s.skip(p).len() == s.len() - p);
    assert forall|j: int| p <= j < lp implies !is_crlf_at(s, j) by {
        assert(s[j] == s.skip(p)[j - p]);
        assert(s.skip(p)[j - p] == line[j - p]);
    }
    assert(s[lp] == s.skip(p)[ll] && s.skip(p)[ll] == 13u8);
    assert(s[lp + 1] == s.skip(p)[ll + 1] && s.skip(p)[ll + 1] == 10u8);
    assert(is_crlf_at(s, lp));
    lemma_find_crlf_is(s, p, lp);
    assert forall|i: int| 0 <= i < ll implies s.subrange(p, lp)[i] == line[i] by {
        assert(s.subrange(p, lp)[i] == s[p + i]);
        assert(s[p + i] == s.skip(p)[i]);
    }
    assert(s.subrange(p, lp) =~= line);
    assert forall|i: int| 0 <= i < rest.len() implies s.skip(lp + 2)[i] == rest[i] by {
        assert(s.skip(lp + 2)[i] == s[lp + 2 + i]);
        assert(s[lp + 2 + i] == s.skip(p)[ll + 2 + i]);
    }
    assert(s.skip(lp + 2) =~= rest);
}

/// Trimming undoes the single space the serializer writes after the colon.
pub proof fn lemma_trim_space_value(v: Seq<u8>)
    requires
        value_ok(v),
    ensures
        trim_ws(seq![32u8] + v) == v,
{
    let s = seq![32u8] + v;
    assert(s.len() == 1 + v.len());
    assert(s[0] == 32u8 && is_ws(s[0]));
    if v.len() == 0 {
        assert(crate::bytes::first_non_ws(s, 1) == 1);
        assert(crate::bytes::first_non_ws(s, 0) == 1);
        assert(crate::bytes::last_non_ws_end(s, 0) == 0);
        assert(crate::bytes::last_non_ws_end(s, 1) == 0);
        assert(trim_ws(s) =~= v);
    } else {
        assert(s[1] == v[0] && !is_ws(s[1]));
        assert(crate::bytes::first_non_ws(s, 0) == crate::bytes::first_non_ws(s, 1));
        assert(crate::bytes::first_non_ws(s, 1) == 1);
        assert(s[s.len() - 1] == v[v.len() - 1] && !is_ws(s[s.len() - 1]));
        assert(crate::bytes::last_non_ws_end(s, s.len() as int) == s.len());
        assert(s.subrange(1, s.len() as int) =~= v);
    }
}

/// A client reads a serialized header block back line for line.
pub proof fn lemma_client_headers_of_block(
    s: Seq<u8>,
    p: int,
    hs: Seq<(Seq<u8>, Seq<u8>)>,
    tail: Seq<u8>,
)
    requires
        0 <= p <= s.len(),
        s.skip(p) == header_block(hs) + crlf() + tail,
        forall|i: int| 0 <= i < hs.len() ==> name_ok(#[trigger] hs[i].0) && value_ok(hs[i].1),
    ensures
        client_headers(s, p) == Some((hs, p + header_block(hs).len() + 2)),
    decreases hs.len(),
{
    if hs.len() == 0 {
        assert(header_block(hs) =~= Seq::<u8>::empty());
        assert(s.skip(p) =~= Seq::<u8>::empty() + crlf() + tail);
        lemma_line_at_offset(s, p, Seq::empty(), tail);
        assert(client_headers(s, p) == Some((Seq::<(Seq<u8>, Seq<u8>)>::empty(), p + 2)));
        assert(hs =~= Seq::<(Seq<u8>, Seq<u8>)>::empty());
    } else {
        let h = hs[0];
        let lc = h.0 + seq![58u8, 32u8] + h.1;
        let rest2 = header_block(hs.drop_first()) + crlf() + tail;
        assert(header_block(hs) == header_line(h) + header_block(hs.drop_first()));
        assert(s.skip(p) =~= lc + crlf() + rest2);
        assert forall|i: int| 0 <= i < lc.len() implies lc[i] != 13u8 by {
            if i < h.0.len() {
                assert(lc[i] == h.0[i]);
            } else if i < h.0.len() + 2 {
            } else {
                assert(lc[i] == h.1[i - h.0.len() - 2]);
            }
        }
        lemma_line_at_offset(s, p, lc, rest2);
        let e = p + lc.len();
        // the line splits at the colon the serializer wrote
        assert forall|j: int| 0 <= j < h.0.len() implies lc[j] != 58u8 by {
            assert(lc[j] == h.0[j]);
        }
        assert(lc[h.0.len() as int] == 58u8);
        lemma_find_byte_is(lc, 0, h.0.len() as int, 58u8);
        assert(lc.subrange(0, h.0.len() as int) =~= h.0);
        assert(lc.subrange(h.0.len() as int + 1, lc.len() as int) =~= seq![32u8] + h.1);
        lemma_trim_space_value(h.1);
        assert(spec_parse_header_line(s.subrange(p, e)) == Some(h));
        assert(s.skip(e + 2) == rest2);
        lemma_client_headers_of_block(s, e + 2, hs.drop_first(), tail);
        assert(seq![h] + hs.drop_first() =~= hs);
        assert(header_block(hs).len() == header_line(h).len() + header_block(
            hs.drop_first(),
        ).len());
    }
}

/// For a status in 100..=999 the rendered numeral is exactly three digits.
pub proof fn lemma_dec_of_status_len(n: nat)
    requires
        100 <= n <= 999,
    ensures
        dec_of(n).len() == 3,
{
    assert(n / 10 >= 10 && n / 10 <= 99 && n / 10 / 10 == n / 100 && 1 <= n / 100 <= 9)
        by (nonlinear_arith)
        requires
            100 <= n <= 999,
    ;
    assert(dec_of(n / 100).len() == 1);
    assert(dec_of(n / 10).len() == 2);
    assert(dec_of(n).len() == 3);
}

/// Looking a name up in a block that does not hold it finds exactly the
/// pushed entry.
pub proof fn lemma_header_value_in_push(
    hs: Seq<(Seq<u8>, Seq<u8>)>,
    h: (Seq<u8>, Seq<u8>),
    name: Seq<u8>,
)
    requires
        forall|i: int| 0 <= i < hs.len() ==> lower(#[trigger] hs[i].0) != name,
    ensures
        header_value_in(hs.push(h), name) == if lower(h.0) == name {
            Some(h.1)
        } else {
            None::<Seq<u8>>
        },
    decreases hs.len(),
{
    if hs.len() == 0 {
        assert(hs.push(h)[0] == h);
        assert(hs.push(h).drop_first() =~= Seq::<(Seq<u8>, Seq<u8>)>::empty());
        assert(header_value_in(Seq::<(Seq<u8>, Seq<u8>)>::empty(), name) is None);
        assert(header_value_in(hs.push(h), name) == if lower(h.0) == name {
            Some(h.1)
        } else {
            None::<Seq<u8>>
        });
    } else {
        assert(hs.push(h)[0] == hs[0]);
        assert(lower(hs[0].0) != name);
        assert(hs.push(h).drop_first() =~= hs.drop_first().push(h));
        assert(forall|i: int|
            0 <= i < hs.drop_first().len() ==> lower(#[trigger] hs.drop_first()[i].0) != name);
        lemma_header_value_in_push(hs.drop_first(), h, name);
    }
}

/// The wire spellings of the framing headers lower to the names the
/// parsers look up, and satisfy the header grammar.
pub proof fn lemma_wire_tokens()
    ensures
        lower(content_length_wire()) == cl_name(),
        lower(transfer_encoding_wire()) == te_name(),
        lower(chunked_token()) == chunked_token(),
        cl_name() != te_name(),
        name_ok(content_length_wire()),
        name_ok(transfer_encoding_wire()),
        value_ok(chunked_token()),
{
    assert(lower(content_length_wire()) =~= cl_name());
    assert(lower(transfer_encoding_wire()) =~= te_name());
    assert(lower(chunked_token()) =~= chunked_token());
    assert(cl_name().len() != te_name().len());
    assert forall|i: int| 0 <= i < content_length_wire().len() implies content_length_wire()[i]
        != 13u8 && content_length_wire()[i] != 10u8 && content_length_wire()[i] != 58u8 && !is_ws(content_length_wire()[i]) by {}
    assert forall|i: int| 0 <= i < transfer_encoding_wire().len() implies transfer_encoding_wire()[i]
        != 13u8 && transfer_encoding_wire()[i] != 10u8 && transfer_encoding_wire()[i] != 58u8
        && !is_ws(transfer_encoding_wire()[i]) by {}
    assert forall|i: int| 0 <= i < chunked_token().len() implies chunked_token()[i] != 13u8
        && chunked_token()[i] != 10u8 by {}
    assert(!is_ws(chunked_token()[0]) && !is_ws(chunked_token()[chunked_token().len() - 1]));
}

/// The rendered numerals pass the header-value grammar.
pub proof fn lemma_numeral_values_ok(n: nat)
    ensures
        value_ok(dec_of(n)),
{
    lemma_dec_of_chars(n);
    lemma_dec_of_value(n);
    assert(!is_ws(dec_of(n)[0]));
    assert(!is_ws(dec_of(n)[dec_of(n).len() - 1]));
}

/// The chunk payload taken from the front: the first chunk's encoding,
/// then the rest.
pub proof fn lemma_chunks_payload_cons(cs: Seq<Seq<u8>>)
    requires
        cs.len() > 0,
    ensures
        chunks_payload(cs) == chunk_enc(cs[0]) + chunks_payload(cs.drop_first()),
    decreases cs.len(),
{
    if cs.len() == 1 {
        assert(cs.drop_last() =~= Seq::<Seq<u8>>::empty());
        assert(cs.drop_first() =~= Seq::<Seq<u8>>::empty());
        assert(cs.last() == cs[0]);
        assert(chunks_payload(cs) =~= chunk_enc(cs[0]) + chunks_payload(cs.drop_first()));
    } else {
        lemma_chunks_payload_cons(cs.drop_last());
        assert(cs.drop_last()[0] == cs[0]);
        assert(cs.drop_last().drop_first() =~= cs.drop_first().drop_last());
        assert(cs.drop_first().last() == cs.last());
        assert(chunks_payload(cs) == chunks_payload(cs.drop_last()) + chunk_enc(cs.last()));
        assert(chunks_payload(cs.drop_last()) == chunk_enc(cs[0]) + chunks_payload(
            cs.drop_first().drop_last(),
        ));
        assert(chunks_payload(cs.drop_first()) == chunks_payload(cs.drop_first().drop_last())
            + chunk_enc(cs.drop_first().last()));
        assert((chunk_enc(cs[0]) + chunks_payload(cs.drop_first().drop_last())) + chunk_enc(
            cs.last(),
        ) =~= chunk_enc(cs[0]) + (chunks_payload(cs.drop_first().drop_last()) + chunk_enc(
            cs.last(),
        )));
    }
}

/// The concatenated chunk bytes taken from the front.
pub proof fn lemma_chunks_concat_cons(cs: Seq<Seq<u8>>)
    requires
        cs.len() > 0,
    ensures
        chunks_concat(cs) == cs[0] + chunks_concat(cs.drop_first()),
    decreases cs.len(),
{
    if cs.len() == 1 {
        assert(cs.drop_last() =~= Seq::<Seq<u8>>::empty());
        assert(cs.drop_first() =~= Seq::<Seq<u8>>::empty());
        assert(chunks_concat(cs) =~= cs[0] + chunks_concat(cs.drop_first()));
    } else {
        lemma_chunks_concat_cons(cs.drop_last());
        assert(cs.drop_last()[0] == cs[0]);
        assert(cs.drop_last().drop_first() =~= cs.drop_first().drop_last());
        assert(cs.drop_first().last() == cs.last());
        assert(chunks_concat(cs) == chunks_concat(cs.drop_last()) + cs.last());
        assert(chunks_concat(cs.drop_first()) == chunks_concat(cs.drop_first().drop_last())
            + cs.drop_first().last());
        assert((cs[0] + chunks_concat(cs.drop_first().drop_last())) + cs.last() =~= cs[0] + (
        chunks_concat(cs.drop_first().drop_last()) + cs.last()));
    }
}

/// A client decodes a serialized chunked body back to exactly the
/// concatenated chunk bytes, consuming the whole stream.
#[verifier::rlimit(100)]
pub proof fn lemma_client_dechunk_of_encode(s: Seq<u8>, p: int, cs: Seq<Seq<u8>>, acc: Seq<u8>)
    requires
        0 <= p <= s.len(),
        s.skip(p) == chunks_payload(cs) + chunk_terminator(),
    ensures
        client_dechunk(s, p, acc) == Some((acc + chunks_concat(cs), s.len() as int)),
    decreases cs.len(),
{
    if cs.len() == 0 {
        assert(chunks_payload(cs) =~= Seq::<u8>::empty());
        assert(s.skip(p) =~= chunk_terminator());
        let zl = seq![48u8];
        assert(s.skip(p) =~= zl + crlf() + crlf());
        lemma_line_at_offset(s, p, zl, crlf());
        let e = p + 1;
        assert(s.subrange(p, e) == zl);
        assert(crate::bytes::is_hex_digit(48u8) && crate::bytes::hex_digit_value(48u8) == 0);
        assert(all_hex_digits(zl));
        assert(zl.drop_last() =~= Seq::<u8>::empty());
        assert(hex_value(Seq::<u8>::empty()) == 0);
        assert(zl.last() == 48u8);
        assert(hex_value(zl) == hex_value(zl.drop_last()) * 16 + crate::bytes::hex_digit_value(
            zl.last(),
        ));
        assert(hex_value(zl) == 0);
        assert(find_crlf(s, p) == Some(e));
        assert(s.skip(e + 2) == crlf());
        assert(s[e + 2] == s.skip(e + 2)[0] && s.skip(e + 2)[0] == 13u8);
        assert(s[e + 3] == s.skip(e + 2)[1] && s.skip(e + 2)[1] == 10u8);
        assert(e + 4 == s.len());
        assert(client_dechunk(s, p, acc) == Some((acc, e + 4)));
        assert(chunks_concat(cs) =~= Seq::<u8>::empty());
        assert(acc + chunks_concat(cs) =~= acc);
    } else {
        lemma_chunks_payload_cons(cs);
        lemma_chunks_concat_cons(cs);
        let c0 = cs[0];
        if c0.len() == 0 {
            assert(chunk_enc(c0) =~= Seq::<u8>::empty());
            assert(chunks_payload(cs) =~= chunks_payload(cs.drop_first()));
            lemma_client_dechunk_of_encode(s, p, cs.drop_first(), acc);
            assert(c0 + chunks_concat(cs.drop_first()) =~= chunks_concat(cs.drop_first()));
        } else {
            let m = c0.len() as nat;
            lemma_hex_of_value(m);
            lemma_hex_of_chars(m);
            let sz = hex_of(m);
            let rest2 = chunks_payload(cs.drop_first()) + chunk_terminator();
            assert(chunk_enc(c0) == sz + crlf() + c0 + crlf());
            assert(s.skip(p) =~= sz + crlf() + (c0 + crlf() + rest2));
            assert forall|i: int| 0 <= i < sz.len() implies sz[i] != 13u8 by {}
            lemma_line_at_offset(s, p, sz, c0 + crlf() + rest2);
            let e = p + sz.len();
            assert(s.subrange(p, e) == sz);
            assert(hex_value(s.subrange(p, e)) == m);
            let ds = e + 2;
            assert(s.skip(ds) == c0 + crlf() + rest2);
            assert(s.len() == ds + c0.len() + 2 + rest2.len());
            assert(s[ds + m] == s.skip(ds)[c0.len() as int] && s.skip(ds)[c0.len() as int]
                == 13u8);
            assert(s[ds + m + 1] == s.skip(ds)[c0.len() as int + 1] && s.skip(ds)[c0.len() as int + 1] == 10u8);
            assert forall|i: int| 0 <= i < m implies s.subrange(ds, ds + m as int)[i] == c0[i] by {
                assert(s.subrange(ds, ds + m as int)[i] == s[ds + i]);
                assert(s[ds + i] == s.skip(ds)[i]);
            }
            assert(s.subrange(ds, ds + m as int) =~= c0);
            assert forall|i: int| 0 <= i < rest2.len() implies s.skip(ds + m + 2)[i] == rest2[i]
                by {
                assert(s.skip(ds + m + 2)[i] == s[ds + m + 2 + i]);
                assert(s[ds + m + 2 + i] == s.skip(ds)[c0.len() + 2 + i]);
            }
            assert(s.skip(ds + m + 2) =~= rest2);
            lemma_client_dechunk_of_encode(s, ds + m as int + 2, cs.drop_first(), acc + c0);
            assert((acc + c0) + chunks_concat(cs.drop_first()) =~= acc + (c0 + chunks_concat(
                cs.drop_first(),
            )));
        }
    }
}

/// The body bytes a conforming client recovers for each body kind the
/// serializer frames itself. A file body's bytes travel through the
/// transport's file-send path, outside the serialized head, so it is not
/// part of this byte-level law.
pub open spec fn client_body_of(b: BodyView) -> Seq<u8> {
    match b {
        BodyView::Empty => Seq::empty(),
        BodyView::Bytes(bs) => bs,
        BodyView::Chunks(cs) => chunks_concat(cs),
        BodyView::File(f) => Seq::empty(),
    }
}

/// Round trip: any response meeting the application contract, serialized
/// and read back by a conforming client, recovers the identical status,
/// the identical reason, the application's headers in their exact order
/// followed only by the codec's computed framing header, and exactly the
/// body bytes.
#[verifier::rlimit(100)]
pub proof fn lemma_serialize_parse_round_trip(r: RespView)
    requires
        resp_wf(r),
        !(r.body is File),
    ensures
        spec_client_parse(spec_serialize_response(r)) == Some(
            ClientView {
                status: r.status as int,
                reason: r.reason,
                headers: r.headers.push(framing_header(r.body)),
                body: client_body_of(r.body),
            },
        ),
{
    let s = spec_serialize_response(r);
    let st = r.status as nat;
    let fh = framing_header(r.body);
    let hs2 = r.headers.push(fh);
    let sl = http11_bytes() + seq![32u8] + dec_of(st) + seq![32u8] + r.reason;
    let after = header_block(hs2) + crlf() + body_encoding(r.body);
    lemma_dec_of_status_len(st);
    lemma_dec_of_value(st);
    lemma_dec_of_chars(st);
    lemma_wire_tokens();
    assert(status_line(r.status, r.reason) =~= sl + crlf());
    assert(s =~= sl + crlf() + after);
    assert(s.skip(0) =~= s);
    assert(sl.len() == 13 + r.reason.len());
    assert forall|i: int| 0 <= i < sl.len() implies sl[i] != 13u8 by {
        if i < 9 {
            assert(sl[i] == (http11_bytes() + seq![32u8])[i]);
        } else if i < 12 {
            assert(sl[i] == dec_of(st)[i - 9]);
        } else if i == 12 {
            assert(sl[i] == 32u8);
        } else {
            assert(sl[i] == r.reason[i - 13]);
        }
    }
    lemma_line_at_offset(s, 0, sl, after);
    let rl_end = sl.len() as int;
    // the status-line prefix reads back
    assert forall|i: int| 0 <= i < 13 implies s[i] == sl[i] by {
        assert(s[i] == s.skip(0)[i]);
    }
    assert(s.subrange(0, 9) =~= http11_bytes() + seq![32u8]);
    assert(s.subrange(9, 12) =~= dec_of(st));
    assert(all_digits(s.subrange(9, 12)));
    assert(s[12] == 32u8);
    assert(dec_value(s.subrange(9, 12)) == st);
    // the reason ends at the first CRLF after position 13
    assert forall|j: int| 13 <= j < rl_end implies !is_crlf_at(s, j) by {
        assert(s[j] == s.skip(0)[j]);
        assert(s[j] == sl[j]);
    }
    assert(is_crlf_at(s, rl_end));
    lemma_find_crlf_is(s, 13, rl_end);
    assert(s.subrange(0, rl_end) == sl);
    assert forall|k: int| 0 <= k < r.reason.len() implies s.subrange(13, rl_end)[k] == r.reason[k]
        by {
        assert(s.subrange(13, rl_end)[k] == s[13 + k]);
        assert(s[13 + k] == s.skip(0)[13 + k]);
        assert(s[13 + k] == sl[13 + k]);
    }
    assert(s.subrange(13, rl_end) =~= r.reason);
    // the header block reads back entry for entry
    assert(s.skip(rl_end + 2) == after);
    assert(s.skip(rl_end + 2) =~= header_block(hs2) + crlf() + body_encoding(r.body));
    assert forall|i: int| 0 <= i < hs2.len() implies name_ok(#[trigger] hs2[i].0) && value_ok(
        hs2[i].1,
    ) by {
        if i < r.headers.len() {
            assert(hs2[i] == r.headers[i]);
        } else {
            assert(hs2[i] == fh);
            match r.body {
                BodyView::Empty => {
                    lemma_numeral_values_ok(0);
                },
                BodyView::Bytes(bs) => {
                    lemma_numeral_values_ok(bs.len() as nat);
                },
                BodyView::Chunks(cs) => {},
                BodyView::File(f) => {},
            }
        }
    }
    lemma_client_headers_of_block(s, rl_end + 2, hs2, body_encoding(r.body));
    let hend = rl_end + 2 + header_block(hs2).len() as int + 2;
    assert(client_headers(s, rl_end + 2) == Some((hs2, hend)));
    assert(s.len() == hend + body_encoding(r.body).len());
    assert forall|i: int| 0 <= i < body_encoding(r.body).len() implies s.skip(hend)[i]
        == body_encoding(r.body)[i] by {
        assert(s.skip(hend)[i] == s[hend + i]);
        assert(s[hend + i] == s.skip(rl_end + 2)[header_block(hs2).len() + 2 + i]);
    }
    assert(s.skip(hend) =~= body_encoding(r.body));
    // framing: the appended header decides, since the application never
    // supplies content-length or transfer-encoding itself
    match r.body {
        BodyView::Chunks(cs) => {
            assert(lower(hs2[hs2.len() - 1].0) == te_name() && lower(hs2[hs2.len() - 1].1)
                == chunked_token());
            assert(exists|i: int|
                0 <= i < hs2.len() && lower(#[trigger] hs2[i].0) == te_name() && lower(hs2[i].1)
                    == chunked_token());
            assert(s.skip(hend) =~= chunks_payload(cs) + chunk_terminator());
            lemma_client_dechunk_of_encode(s, hend, cs, Seq::empty());
            assert(Seq::<u8>::empty() + chunks_concat(cs) =~= chunks_concat(cs));
        },
        _ => {
            assert forall|i: int| 0 <= i < hs2.len() implies !(lower(#[trigger] hs2[i].0)
                == te_name() && lower(hs2[i].1) == chunked_token()) by {
                if i < r.headers.len() {
                    assert(hs2[i] == r.headers[i]);
                } else {
                    assert(hs2[i] == fh);
                    assert(lower(fh.0) == cl_name());
                }
            }
            assert(forall|i: int| 0 <= i < r.headers.len() ==> lower(#[trigger] r.headers[i].0)
                != cl_name());
            lemma_header_value_in_push(r.headers, fh, cl_name());
            match r.body {
                BodyView::Empty => {
                    lemma_dec_of_value(0);
                    assert(header_value_in(hs2, cl_name()) == Some(dec_of(0)));
                    assert(body_encoding(r.body) =~= Seq::<u8>::empty());
                    assert(s.subrange(hend, hend + 0) =~= Seq::<u8>::empty());
                },
                BodyView::Bytes(bs) => {
                    lemma_dec_of_value(bs.len() as nat);
                    assert(header_value_in(hs2, cl_name()) == Some(dec_of(bs.len() as nat)));
                    assert forall|i: int| 0 <= i < bs.len() implies s.subrange(
                        hend,
                        hend + bs.len() as int,
                    )[i] == bs[i] by {
                        assert(s.subrange(hend, hend + bs.len() as int)[i] == s[hend + i]);
                        assert(s[hend + i] == s.skip(hend)[i]);
                    }
                    assert(s.subrange(hend, hend + bs.len() as int) =~= bs);
                },
                _ => {},
            }
        },
    }
}

} // verus!
