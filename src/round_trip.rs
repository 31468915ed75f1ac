//! What decoding makes of encoded frames: the frame itself, whatever bytes
//! follow it, and "not yet" for every strict prefix of its bytes.

use vstd::prelude::*;
use vstd::utf8::*;
use crate::frame::{
    Frame, FrameError, FrameModel, TAG_ARRAY, elements_error, encode_error, TAG_BINARY, all_digits, crlf, crlf_at, decimal, decimal_at, digits_value,
    elements_at, encode_elements, encode_frame, encode_scalar, frame_at, is_digit, line_end, scalar_at,
};

verus! {

broadcast use vstd::utf8::group_utf8_lib;

/// Some `\r\n` lies in `s`.
pub open spec fn has_crlf(s: Seq<u8>) -> bool {
    exists|i: int| crlf_at(s, i)
}

/// `s` lies in `buf` from position `p` on.
pub open spec fn holds_at(buf: Seq<u8>, p: int, s: Seq<u8>) -> bool {
    &&& 0 <= p
    &&& p + s.len() <= buf.len()
    &&& forall|i: int| 0 <= i < s.len() ==> buf[p + i] == #[trigger] s[i]
}

/// `buf` ends with a strict prefix of `s` that starts at position `p`.
pub open spec fn cut_at(buf: Seq<u8>, p: int, s: Seq<u8>) -> bool {
    &&& 0 <= p <= buf.len()
    &&& buf.len() < p + s.len()
    &&& forall|i: int| 0 <= i < buf.len() - p ==> buf[p + i] == #[trigger] s[i]
}

/// A frame other than an array that decoding gives back: text without
/// `\r\n` in its bytes, or binary data.
pub open spec fn scalar_wire_safe(f: FrameModel) -> bool {
    match f {
        FrameModel::Text(s) => !has_crlf(encode_utf8(s)),
        FrameModel::Error(s) => !has_crlf(encode_utf8(s)),
        FrameModel::Binary(b) => b.len() <= usize::MAX,
        _ => false,
    }
}

/// A frame that decoding gives back: a safe scalar, or an array of them.
pub open spec fn wire_safe(f: FrameModel) -> bool {
    match f {
        FrameModel::Array(items) => items.len() <= usize::MAX && forall|i: int|
            0 <= i < items.len() ==> scalar_wire_safe(#[trigger] items[i]),
        _ => scalar_wire_safe(f),
    }
}

proof fn lemma_decimal(n: nat)
    ensures
        decimal(n).len() >= 1,
        all_digits(decimal(n)),
        digits_value(decimal(n)) == n,
    decreases n,
{
    if n >= 10 {
        lemma_decimal(n / 10);
        let d = decimal(n);
        assert(d.drop_last() =~= decimal(n / 10));
    } else {
        assert(digits_value(decimal(n).drop_last()) == 0);
    }
}

/// A line with no `\r\n` in it, then `\r\n`, ends where the line does.
proof fn lemma_line_found(buf: Seq<u8>, start: int, line: Seq<u8>)
    requires
        holds_at(buf, start, line + crlf()),
        !has_crlf(line),
    ensures
        line_end(buf, start) == Some(start + line.len()),
        buf.subrange(start, start + line.len()) == line,
{
    let s = line + crlf();
    let e = start + line.len();
    assert(buf[e] == s[line.len() as int]);
    assert(buf[e + 1] == s[line.len() + 1int]);
    assert(crlf_at(buf, e));
    assert forall|i: int| start <= i < e implies !crlf_at(buf, i) by {
        assert(buf[i] == s[i - start]);
        if i + 1 < e {
            assert(buf[i + 1] == s[i + 1 - start]);
            if crlf_at(buf, i) {
                assert(crlf_at(line, i - start));
            }
        } else {
            assert(buf[i + 1] == s[line.len() as int]);
        }
    }
    lemma_line_end_from(buf, start, e);
    assert(buf.subrange(start, e) =~= line) by {
        assert forall|i: int| 0 <= i < line.len() implies buf.subrange(start, e)[i] == line[i] by {
            assert(buf[start + i] == s[i]);
        }
    }
}

proof fn lemma_line_end_from(buf: Seq<u8>, start: int, e: int)
    requires
        0 <= start <= e,
        crlf_at(buf, e),
        forall|i: int| start <= i < e ==> !crlf_at(buf, i),
    ensures
        line_end(buf, start) == Some(e),
    decreases e - start,
{
    if start < e {
        lemma_line_end_from(buf, start + 1, e);
    }
}

proof fn lemma_line_end_none(buf: Seq<u8>, start: int)
    requires
        0 <= start,
        forall|i: int| start <= i ==> !crlf_at(buf, i),
    ensures
        line_end(buf, start) is None,
    decreases buf.len() - start,
{
    if start + 1 < buf.len() {
        lemma_line_end_none(buf, start + 1);
    }
}

/// A line cut before its `\r\n` is complete has no end yet.
proof fn lemma_line_cut(buf: Seq<u8>, start: int, line: Seq<u8>)
    requires
        cut_at(buf, start, line + crlf()),
        !has_crlf(line),
    ensures
        line_end(buf, start) is None,
{
    let s = line + crlf();
    let e = start + line.len();
    assert forall|i: int| start <= i implies !crlf_at(buf, i) by {
        if crlf_at(buf, i) {
            assert(i + 1 < buf.len());
            assert(buf[i] == s[i - start]);
            assert(buf[i + 1] == s[i + 1 - start]);
            if i + 1 < e {
                assert(crlf_at(line, i - start));
            } else {
                assert(i + 1 - start == line.len());
            }
        }
    }
    lemma_line_end_none(buf, start);
}

proof fn lemma_digits_no_crlf(d: Seq<u8>)
    requires
        all_digits(d),
    ensures
        !has_crlf(d),
{
    if has_crlf(d) {
        let i = choose|i: int| crlf_at(d, i);
        assert(is_digit(d[i]));
    }
}

/// A frame other than an array decodes from its own bytes, whatever follows.
pub proof fn lemma_scalar_decodes(f: FrameModel, buf: Seq<u8>, p: int)
    requires
        scalar_wire_safe(f),
        holds_at(buf, p, encode_scalar(f)),
    ensures
        scalar_at(buf, p) == Ok::<(FrameModel, int), FrameError>((f, p + encode_scalar(f).len())),
{
    let enc = encode_scalar(f);
    assert(buf[p] == enc[0]);
    match f {
        FrameModel::Text(s) | FrameModel::Error(s) => {
            let u = encode_utf8(s);
            let tag = enc[0];
            assert(enc == seq![tag] + (u + crlf()));
            assert(holds_at(buf, p + 1, u + crlf())) by {
                assert forall|i: int| 0 <= i < (u + crlf()).len() implies buf[p + 1 + i] == #[trigger] (u + crlf())[i] by {
                    assert(buf[p + (1 + i)] == enc[1 + i]);
                }
            }
            lemma_line_found(buf, p + 1, u);
        },
        FrameModel::Binary(b) => {
            let n = b.len();
            let d = decimal(n);
            lemma_decimal(n);
            lemma_digits_no_crlf(d);
            let tail = d + crlf() + b + crlf();
            assert(enc =~= seq![TAG_BINARY] + tail);
            assert(holds_at(buf, p + 1, d + crlf())) by {
                assert forall|i: int| 0 <= i < (d + crlf()).len() implies buf[p + 1 + i] == #[trigger] (d + crlf())[i] by {
                    assert(buf[p + (1 + i)] == enc[1 + i]);
                }
            }
            lemma_line_found(buf, p + 1, d);
            let q = p + 1 + d.len() + 2;
            assert(decimal_at(buf, p + 1) == Ok::<(u64, int), FrameError>((n as u64, q)));
            assert(buf[q + n] == enc[1int + d.len() + 2 + n]);
            assert(buf[q + n + 1] == enc[1int + d.len() + 2 + n + 1]);
            assert(buf.subrange(q, q + n) =~= b) by {
                assert forall|i: int| 0 <= i < n implies buf.subrange(q, q + n)[i] == b[i] by {
                    assert(buf[q + i] == enc[1int + d.len() + 2 + i]);
                }
            }
        },
        _ => {},
    }
}

/// A frame other than an array, cut short, is incomplete.
pub proof fn lemma_scalar_cut(f: FrameModel, buf: Seq<u8>, p: int)
    requires
        scalar_wire_safe(f),
        p < buf.len(),
        cut_at(buf, p, encode_scalar(f)),
    ensures
        scalar_at(buf, p) == Err::<(FrameModel, int), FrameError>(FrameError::Incomplete),
{
    let enc = encode_scalar(f);
    assert(buf[p] == enc[0]);
    match f {
        FrameModel::Text(s) | FrameModel::Error(s) => {
            let u = encode_utf8(s);
            let tag = enc[0];
            assert(enc == seq![tag] + (u + crlf()));
            assert(cut_at(buf, p + 1, u + crlf())) by {
                assert forall|i: int| 0 <= i < buf.len() - (p + 1) implies buf[p + 1 + i] == #[trigger] (u + crlf())[i] by {
                    assert(buf[p + (1 + i)] == enc[1 + i]);
                }
            }
            lemma_line_cut(buf, p + 1, u);
        },
        FrameModel::Binary(b) => {
            let n = b.len();
            let d = decimal(n);
            lemma_decimal(n);
            lemma_digits_no_crlf(d);
            assert(enc =~= seq![TAG_BINARY] + (d + crlf() + b + crlf()));
            if buf.len() < p + 1 + d.len() + 2 {
                assert(cut_at(buf, p + 1, d + crlf())) by {
                    assert forall|i: int| 0 <= i < buf.len() - (p + 1) implies buf[p + 1 + i] == #[trigger] (d + crlf())[i] by {
                        assert(buf[p + (1 + i)] == enc[1 + i]);
                    }
                }
                lemma_line_cut(buf, p + 1, d);
            } else {
                assert(holds_at(buf, p + 1, d + crlf())) by {
                    assert forall|i: int| 0 <= i < (d + crlf()).len() implies buf[p + 1 + i] == #[trigger] (d + crlf())[i] by {
                        assert(buf[p + (1 + i)] == enc[1 + i]);
                    }
                }
                lemma_line_found(buf, p + 1, d);
            }
        },
        _ => {},
    }
}


proof fn lemma_holds_split(buf: Seq<u8>, p: int, a: Seq<u8>, b: Seq<u8>)
    requires
        holds_at(buf, p, a + b),
    ensures
        holds_at(buf, p, a),
        holds_at(buf, p + a.len(), b),
{
    assert forall|i: int| 0 <= i < a.len() implies buf[p + i] == #[trigger] a[i] by {
        assert((a + b)[i] == a[i]);
    }
    assert forall|i: int| 0 <= i < b.len() implies buf[p + a.len() + i] == #[trigger] b[i] by {
        assert((a + b)[a.len() + i] == b[i]);
        assert(buf[p + (a.len() + i)] == (a + b)[a.len() + i]);
    }
}

proof fn lemma_cut_split(buf: Seq<u8>, p: int, a: Seq<u8>, b: Seq<u8>)
    requires
        cut_at(buf, p, a + b),
    ensures
        buf.len() < p + a.len() ==> cut_at(buf, p, a),
        buf.len() >= p + a.len() ==> holds_at(buf, p, a) && cut_at(buf, p + a.len(), b),
{
    assert forall|i: int| 0 <= i < a.len() && i < buf.len() - p implies buf[p + i] == #[trigger] a[i] by {
        assert((a + b)[i] == a[i]);
    }
    if buf.len() >= p + a.len() {
        assert forall|i: int| 0 <= i < buf.len() - (p + a.len()) implies buf[p + a.len() + i] == #[trigger] b[i] by {
            assert((a + b)[a.len() + i] == b[i]);
            assert(buf[p + (a.len() + i)] == (a + b)[a.len() + i]);
        }
    }
}

proof fn lemma_scalar_encoding_nonempty(f: FrameModel)
    requires
        scalar_wire_safe(f),
    ensures
        encode_scalar(f).len() >= 3,
{
    if let FrameModel::Binary(b) = f {
        lemma_decimal(b.len());
    }
}

proof fn lemma_elements_decode(items: Seq<FrameModel>, buf: Seq<u8>, q: int, k: int)
    requires
        forall|i: int| 0 <= i < items.len() ==> scalar_wire_safe(#[trigger] items[i]),
        0 <= k <= items.len(),
        holds_at(buf, q, encode_elements(items.take(k))),
    ensures
        elements_at(buf, q, k as nat) == Ok::<(Seq<FrameModel>, int), FrameError>(
            (items.take(k), q + encode_elements(items.take(k)).len()),
        ),
    decreases k,
{
    if k > 0 {
        let prev = items.take(k - 1);
        assert(items.take(k).drop_last() =~= prev);
        let ep = encode_elements(prev);
        let es = encode_scalar(items[k - 1]);
        lemma_holds_split(buf, q, ep, es);
        lemma_elements_decode(items, buf, q, k - 1);
        lemma_scalar_decodes(items[k - 1], buf, q + ep.len());
        lemma_scalar_encoding_nonempty(items[k - 1]);
        assert(prev.push(items[k - 1]) =~= items.take(k));
    } else {
        assert(items.take(0) =~= Seq::<FrameModel>::empty());
    }
}

proof fn lemma_elements_cut(items: Seq<FrameModel>, buf: Seq<u8>, q: int)
    requires
        forall|i: int| 0 <= i < items.len() ==> scalar_wire_safe(#[trigger] items[i]),
        cut_at(buf, q, encode_elements(items)),
    ensures
        elements_at(buf, q, items.len()) == Err::<(Seq<FrameModel>, int), FrameError>(FrameError::Incomplete),
    decreases items.len(),
{
    let m = items.len();
    let prev = items.drop_last();
    let ep = encode_elements(prev);
    let es = encode_scalar(items[m - 1]);
    lemma_cut_split(buf, q, ep, es);
    if buf.len() < q + ep.len() {
        lemma_elements_cut(prev, buf, q);
    } else {
        assert(items.take(m - 1) =~= prev);
        lemma_elements_decode(items, buf, q, m - 1);
        if q + ep.len() < buf.len() {
            lemma_scalar_cut(items[m - 1], buf, q + ep.len());
        }
    }
}

/// A frame decodes from its own bytes at `p`, whatever follows them.
proof fn lemma_frame_decodes(f: FrameModel, buf: Seq<u8>, p: int)
    requires
        wire_safe(f),
        holds_at(buf, p, encode_frame(f)),
    ensures
        frame_at(buf, p) == Ok::<Option<(FrameModel, int)>, FrameError>(Some((f, p + encode_frame(f).len()))),
{
    let enc = encode_frame(f);
    if let FrameModel::Array(items) = f {
        let n = items.len();
        let d = decimal(n);
        lemma_decimal(n);
        lemma_digits_no_crlf(d);
        let body = encode_elements(items);
        assert(enc =~= seq![TAG_ARRAY] + (d + crlf()) + body);
        lemma_holds_split(buf, p, seq![TAG_ARRAY] + (d + crlf()), body);
        lemma_holds_split(buf, p, seq![TAG_ARRAY], d + crlf());
        assert(buf[p] == seq![TAG_ARRAY][0]);
        lemma_line_found(buf, p + 1, d);
        let q = p + 1 + d.len() + 2;
        assert(decimal_at(buf, p + 1) == Ok::<(u64, int), FrameError>((n as u64, q)));
        assert(items.take(n as int) =~= items);
        lemma_elements_decode(items, buf, q, n as int);
    } else {
        lemma_scalar_decodes(f, buf, p);
        lemma_scalar_encoding_nonempty(f);
        assert(buf[p] == enc[0]);
    }
}

/// A frame's bytes cut short decode to "no frame yet": nothing at all when
/// no byte of it is there, else `Incomplete`.
proof fn lemma_frame_cut(f: FrameModel, buf: Seq<u8>, p: int)
    requires
        wire_safe(f),
        cut_at(buf, p, encode_frame(f)),
    ensures
        frame_at(buf, p) == (if p == buf.len() {
            Ok::<Option<(FrameModel, int)>, FrameError>(None)
        } else {
            Err::<Option<(FrameModel, int)>, FrameError>(FrameError::Incomplete)
        }),
{
    let enc = encode_frame(f);
    if p < buf.len() {
        if let FrameModel::Array(items) = f {
            let n = items.len();
            let d = decimal(n);
            lemma_decimal(n);
            lemma_digits_no_crlf(d);
            let body = encode_elements(items);
            let head = seq![TAG_ARRAY] + (d + crlf());
            assert(enc =~= head + body);
            lemma_cut_split(buf, p, head, body);
            assert(buf[p] == enc[0]);
            if buf.len() < p + head.len() {
                assert(cut_at(buf, p + 1, d + crlf())) by {
                    assert forall|i: int| 0 <= i < buf.len() - (p + 1) implies buf[p + 1 + i] == #[trigger] (d + crlf())[i] by {
                        assert(buf[p + (1 + i)] == head[1 + i]);
                    }
                }
                lemma_line_cut(buf, p + 1, d);
            } else {
                lemma_holds_split(buf, p, seq![TAG_ARRAY], d + crlf());
                lemma_line_found(buf, p + 1, d);
                let q = p + head.len();
                assert(decimal_at(buf, p + 1) == Ok::<(u64, int), FrameError>((n as u64, q)));
                lemma_elements_cut(items, buf, q);
            }
        } else {
            assert(buf[p] == enc[0]);
            lemma_scalar_cut(f, buf, p);
        }
    }
}

proof fn lemma_wire_safe_encodes(f: FrameModel)
    requires
        wire_safe(f),
    ensures
        encode_error(f) is None,
{
    if let FrameModel::Array(items) = f {
        lemma_elements_no_error(items);
    }
}

proof fn lemma_elements_no_error(items: Seq<FrameModel>)
    requires
        forall|i: int| 0 <= i < items.len() ==> scalar_wire_safe(#[trigger] items[i]),
    ensures
        elements_error(items) is None,
    decreases items.len(),
{
    if items.len() > 0 {
        let prev = items.drop_last();
        assert forall|i: int| 0 <= i < prev.len() implies scalar_wire_safe(#[trigger] prev[i]) by {
            assert(prev[i] == items[i]);
        }
        lemma_elements_no_error(prev);
        assert(scalar_wire_safe(items[items.len() - 1]));
    }
}

/// Decoding what `Frame::encode` wrote gives the frame back and stops where
/// its bytes end, whatever bytes follow. This holds of every frame but `Null`,
/// an array holding an array or `Null`, and text whose bytes hold `\r\n`.
pub proof fn lemma_round_trip(f: Frame, rest: Seq<u8>)
    requires
        wire_safe(f@),
    ensures
        encode_error(f@) is None,
        frame_at(encode_frame(f@), 0) == Ok::<Option<(FrameModel, int)>, FrameError>(
            Some((f@, encode_frame(f@).len() as int)),
        ),
        frame_at(encode_frame(f@) + rest, 0) == Ok::<Option<(FrameModel, int)>, FrameError>(
            Some((f@, encode_frame(f@).len() as int)),
        ),
{
    let enc = encode_frame(f@);
    lemma_wire_safe_encodes(f@);
    lemma_frame_decodes(f@, enc, 0);
    assert forall|i: int| 0 <= i < enc.len() implies (enc + rest)[0 + i] == #[trigger] enc[i] by {}
    lemma_frame_decodes(f@, enc + rest, 0);
}

/// The bytes of a frame split at any point: the first part alone decodes to
/// "no frame yet" (nothing when it is empty, else `Incomplete`), and the two
/// parts together decode to the frame, as the whole does.
pub proof fn lemma_split_delivery(f: Frame, k: int)
    requires
        wire_safe(f@),
        0 <= k <= encode_frame(f@).len(),
    ensures
        k < encode_frame(f@).len() ==> frame_at(encode_frame(f@).take(k), 0) == (if k == 0 {
            Ok::<Option<(FrameModel, int)>, FrameError>(None)
        } else {
            Err::<Option<(FrameModel, int)>, FrameError>(FrameError::Incomplete)
        }),
        frame_at(encode_frame(f@).take(k) + encode_frame(f@).skip(k), 0) == frame_at(encode_frame(f@), 0),
        frame_at(encode_frame(f@), 0) == Ok::<Option<(FrameModel, int)>, FrameError>(
            Some((f@, encode_frame(f@).len() as int)),
        ),
{
    let enc = encode_frame(f@);
    lemma_frame_decodes(f@, enc, 0);
    if k < enc.len() {
        let first = enc.take(k);
        assert forall|i: int| 0 <= i < first.len() - 0 implies first[0 + i] == #[trigger] enc[i] by {}
        lemma_frame_cut(f@, first, 0);
    }
    assert(enc.take(k) + enc.skip(k) =~= enc);
}

} // verus!
