//! The wire frame and its codec.
//!
//! A frame is one of
//! - `+<text>\r\n`: text,
//! - `-<text>\r\n`: an error message,
//! - `$<length>\r\n<bytes>\r\n`: binary data,
//! - `*<count>\r\n` followed by `count` frames: an array.
//!
//! Arrays do not nest: encoding refuses an array inside an array, and so
//! does decoding. That keeps decoding to one level, however deep an
//! attacker would like it to go.

use vstd::prelude::*;
use vstd::string::*;
use vstd::utf8::*;
use bytes::Bytes;
use crate::buf::{bytes_as_slice, bytes_copy_from_slice, bytes_view, str_from_utf8};

verus! {

broadcast use vstd::utf8::group_utf8_lib;

pub const CR: u8 = 13;

pub const LF: u8 = 10;

pub const TAG_TEXT: u8 = 43;

pub const TAG_ERROR: u8 = 45;

pub const TAG_BINARY: u8 = 36;

pub const TAG_ARRAY: u8 = 42;

/// One unit of the wire protocol.
#[derive(Debug, PartialEq, Eq)]
pub enum Frame {
    Text(String),
    Error(String),
    Binary(Bytes),
    Array(Vec<Frame>),
    Null,
}

/// Why a frame could not be decoded or encoded.
#[derive(Clone, Copy, Debug, PartialEq, Eq, Structural)]
pub enum FrameError {
    /// The bytes end before the frame does: read more and try again.
    Incomplete,
    /// An array inside an array.
    Recursive,
    /// A length or count that is not a decimal number in range.
    InvalidLength,
    /// Text that is not well-formed UTF-8.
    InvalidUtf8,
    /// Binary data not followed by `\r\n`.
    MissingCrlf,
    /// A first byte that names no kind of frame.
    UnknownType,
    /// `Null` has no form on the wire.
    Unsupported,
}

/// The value of a frame, with text as characters and data as bytes.
pub enum FrameModel {
    Text(Seq<char>),
    Error(Seq<char>),
    Binary(Seq<u8>),
    Array(Seq<FrameModel>),
    Null,
}

impl View for Frame {
    type V = FrameModel;

    open spec fn view(&self) -> FrameModel
        decreases self,
    {
        match self {
            Frame::Text(s) => FrameModel::Text(s@),
            Frame::Error(s) => FrameModel::Error(s@),
            Frame::Binary(b) => FrameModel::Binary(bytes_view(*b)),
            Frame::Array(v) => FrameModel::Array(
                Seq::new(
                    v.len() as nat,
                    |i: int|
                        if 0 <= i < v.len() {
                            v[i].view()
                        } else {
                            FrameModel::Null
                        },
                ),
            ),
            Frame::Null => FrameModel::Null,
        }
    }
}

// ---------------------------------------------------------------------------
// The wire format, as functions on byte sequences.

pub open spec fn crlf_at(buf: Seq<u8>, i: int) -> bool {
    0 <= i && i + 1 < buf.len() && buf[i] == CR && buf[i + 1] == LF
}

/// The position of the first `\r\n` at or after `start`.
pub open spec fn line_end(buf: Seq<u8>, start: int) -> Option<int>
    decreases buf.len() - start,
{
    if start < 0 || start + 1 >= buf.len() {
        None
    } else if crlf_at(buf, start) {
        Some(start)
    } else {
        line_end(buf, start + 1)
    }
}

pub open spec fn is_digit(b: u8) -> bool {
    48 <= b <= 57
}

pub open spec fn all_digits(s: Seq<u8>) -> bool {
    forall|i: int| 0 <= i < s.len() ==> is_digit(#[trigger] s[i])
}

/// The number that a string of decimal digits denotes.
pub open spec fn digits_value(s: Seq<u8>) -> nat
    decreases s.len(),
{
    if s.len() == 0 {
        0
    } else {
        digits_value(s.drop_last()) * 10 + (s.last() - 48) as nat
    }
}

/// The decimal digits of `n`, without leading zeros.
pub open spec fn decimal(n: nat) -> Seq<u8>
    decreases n,
{
    if n < 10 {
        seq![(48 + n) as u8]
    } else {
        decimal(n / 10).push((48 + n % 10) as u8)
    }
}

pub open spec fn crlf() -> Seq<u8> {
    seq![CR, LF]
}

/// A decimal line starting at `p`: its value and the position after it.
pub open spec fn decimal_at(buf: Seq<u8>, p: int) -> Result<(u64, int), FrameError> {
    match line_end(buf, p) {
        None => Err(FrameError::Incomplete),
        Some(e) => {
            let line = buf.subrange(p, e);
            if line.len() == 0 || !all_digits(line) || digits_value(line) > u64::MAX {
                Err(FrameError::InvalidLength)
            } else {
                Ok((digits_value(line) as u64, e + 2))
            }
        },
    }
}

/// A text line starting at `p`: its characters and the position after it.
pub open spec fn text_at(buf: Seq<u8>, p: int) -> Result<(Seq<char>, int), FrameError> {
    match line_end(buf, p) {
        None => Err(FrameError::Incomplete),
        Some(e) => {
            let line = buf.subrange(p, e);
            if valid_utf8(line) {
                Ok((decode_utf8(line), e + 2))
            } else {
                Err(FrameError::InvalidUtf8)
            }
        },
    }
}

/// A frame other than an array, starting at `p < buf.len()`.
pub open spec fn scalar_at(buf: Seq<u8>, p: int) -> Result<(FrameModel, int), FrameError> {
    let tag = buf[p];
    if tag == TAG_TEXT {
        match text_at(buf, p + 1) {
            Ok((s, q)) => Ok((FrameModel::Text(s), q)),
            Err(e) => Err(e),
        }
    } else if tag == TAG_ERROR {
        match text_at(buf, p + 1) {
            Ok((s, q)) => Ok((FrameModel::Error(s), q)),
            Err(e) => Err(e),
        }
    } else if tag == TAG_BINARY {
        match decimal_at(buf, p + 1) {
            Err(e) => Err(e),
            Ok((n, q)) => if n > usize::MAX {
                Err(FrameError::InvalidLength)
            } else if q + n + 2 > buf.len() {
                Err(FrameError::Incomplete)
            } else if !crlf_at(buf, q + n) {
                Err(FrameError::MissingCrlf)
            } else {
                Ok((FrameModel::Binary(buf.subrange(q, q + n)), q + n + 2))
            },
        }
    } else if tag == TAG_ARRAY {
        Err(FrameError::Recursive)
    } else {
        Err(FrameError::UnknownType)
    }
}

/// The first `n` elements of an array whose elements start at `q`.
pub open spec fn elements_at(buf: Seq<u8>, q: int, n: nat) -> Result<(Seq<FrameModel>, int), FrameError>
    decreases n,
{
    if n == 0 {
        Ok((Seq::empty(), q))
    } else {
        match elements_at(buf, q, (n - 1) as nat) {
            Err(e) => Err(e),
            Ok((items, r)) => if r >= buf.len() {
                Err(FrameError::Incomplete)
            } else {
                match scalar_at(buf, r) {
                    Err(e) => Err(e),
                    Ok((f, r2)) => Ok((items.push(f), r2)),
                }
            },
        }
    }
}

/// Decoding at `p`: no frame when no byte is left, else the frame and the
/// position after it, or why there is none.
pub open spec fn frame_at(buf: Seq<u8>, p: int) -> Result<Option<(FrameModel, int)>, FrameError> {
    if p >= buf.len() {
        Ok(None)
    } else if buf[p] == TAG_ARRAY {
        match decimal_at(buf, p + 1) {
            Err(e) => Err(e),
            Ok((n, q)) => match elements_at(buf, q, n as nat) {
                Err(e) => Err(e),
                Ok((items, r)) => Ok(Some((FrameModel::Array(items), r))),
            },
        }
    } else {
        match scalar_at(buf, p) {
            Err(e) => Err(e),
            Ok((f, q)) => Ok(Some((f, q))),
        }
    }
}

// ---------------------------------------------------------------------------
// A read position over a byte slice.

/// A position in a byte slice, moved forward as frames are read.
pub struct Cursor<'a> {
    inner: &'a [u8],
    pos: usize,
}

impl<'a> Cursor<'a> {
    pub closed spec fn data(&self) -> Seq<u8> {
        self.inner@
    }

    pub closed spec fn pos(&self) -> int {
        self.pos as int
    }

    pub fn new(inner: &'a [u8]) -> (r: Cursor<'a>)
        ensures
            r.data() == inner@,
            r.pos() == 0,
    {
        Cursor { inner, pos: 0 }
    }

    pub fn position(&self) -> (r: usize)
        ensures
            r == self.pos(),
    {
        self.pos
    }

    pub fn set_position(&mut self, pos: usize)
        ensures
            final(self).data() == old(self).data(),
            final(self).pos() == pos,
    {
        self.pos = pos;
    }

    pub fn get_ref(&self) -> (r: &'a [u8])
        ensures
            r@ == self.data(),
    {
        self.inner
    }
}

/// The line from the position up to the next `\r\n`, which the cursor then
/// passes.
fn get_line_bump<'a>(src: &mut Cursor<'a>) -> (r: Option<&'a [u8]>)
    ensures
        final(src).data() == old(src).data(),
        match line_end(old(src).data(), old(src).pos()) {
            None => r is None && final(src).pos() == old(src).pos(),
            Some(e) => r is Some && r->0@ == old(src).data().subrange(old(src).pos(), e)
                && final(src).pos() == e + 2,
        },
{
    let start = src.pos;
    let buf = src.inner;
    if buf.len() < 2 || start >= buf.len() - 1 {
        return None;
    }
    let end = buf.len() - 1;
    let mut i = start;
    while i < end
        invariant
            start <= i <= end,
            end == buf@.len() - 1,
            src.inner == buf,
            src.pos == start,
            buf@ == old(src).data(),
            start == old(src).pos(),
            line_end(buf@, start as int) == line_end(buf@, i as int),
        decreases end - i,
    {
        if buf[i] == CR && buf[i + 1] == LF {
            src.pos = i + 2;
            return Some(&buf[start..i]);
        }
        i += 1;
    }
    None
}

fn get_u8_bump(src: &mut Cursor) -> (r: Option<u8>)
    ensures
        final(src).data() == old(src).data(),
        old(src).pos() < old(src).data().len() ==> r == Some(old(src).data()[old(src).pos()])
            && final(src).pos() == old(src).pos() + 1,
        old(src).pos() >= old(src).data().len() ==> r is None && final(src).pos() == old(src).pos(),
{
    if src.pos >= src.inner.len() {
        return None;
    }
    let b = src.inner[src.pos];
    src.pos = src.pos + 1;
    Some(b)
}

/// Moves past `n` bytes, or fails with `Incomplete` where fewer are left.
fn skip(src: &mut Cursor, n: usize) -> (r: Result<(), FrameError>)
    ensures
        final(src).data() == old(src).data(),
        old(src).pos() + n <= old(src).data().len() || n == 0 ==> r is Ok && final(src).pos() == old(src).pos() + n,
        !(old(src).pos() + n <= old(src).data().len() || n == 0) ==> r == Err::<(), FrameError>(
            FrameError::Incomplete,
        ) && final(src).pos() == old(src).pos(),
{
    if n == 0 {
        return Ok(());
    }
    let len = src.inner.len();
    if src.pos >= len || len - src.pos < n {
        return Err(FrameError::Incomplete);
    }
    src.pos = src.pos + n;
    Ok(())
}

/// The value of a line of decimal digits, as `decimal_at` reads it.
fn get_decimal_bump(src: &mut Cursor) -> (r: Result<u64, FrameError>)
    ensures
        final(src).data() == old(src).data(),
        match decimal_at(old(src).data(), old(src).pos()) {
            Ok((n, q)) => r == Ok::<u64, FrameError>(n) && final(src).pos() == q,
            Err(e) => r == Err::<u64, FrameError>(e),
        },
{
    let line = match get_line_bump(src) {
        Some(line) => line,
        None => return Err(FrameError::Incomplete),
    };
    parse_decimal(line)
}

/// The value of a non-empty string of decimal digits that fits in a `u64`.
pub fn parse_decimal(line: &[u8]) -> (r: Result<u64, FrameError>)
    ensures
        (line@.len() == 0 || !all_digits(line@) || digits_value(line@) > u64::MAX) ==> r
            == Err::<u64, FrameError>(FrameError::InvalidLength),
        !(line@.len() == 0 || !all_digits(line@) || digits_value(line@) > u64::MAX) ==> r
            == Ok::<u64, FrameError>(digits_value(line@) as u64),
{
    if line.len() == 0 {
        return Err(FrameError::InvalidLength);
    }
    let mut value: u64 = 0;
    let mut i: usize = 0;
    while i < line.len()
        invariant
            i <= line@.len(),
            all_digits(line@.take(i as int)),
            value == digits_value(line@.take(i as int)),
        decreases line@.len() - i,
    {
        let b = line[i];
        proof {
            assert(line@.take(i + 1).drop_last() =~= line@.take(i as int));
        }
        if b < 48 || b > 57 {
            proof {
                assert(!is_digit(line@[i as int]));
            }
            return Err(FrameError::InvalidLength);
        }
        let d = (b - 48) as u64;
        if value > (u64::MAX - d) / 10 {
            proof {
                let t = line@.take(i + 1);
                assert(t.drop_last() =~= line@.take(i as int));
                assert(value * 10 + d > u64::MAX) by (nonlinear_arith)
                    requires
                        value > (u64::MAX - d) / 10,
                        d <= 9,
                ;
                if all_digits(line@) {
                    lemma_digits_value_prefix(line@, i + 1);
                }
            }
            return Err(FrameError::InvalidLength);
        }
        value = value * 10 + d;
        i += 1;
    }
    proof {
        assert(line@.take(line@.len() as int) =~= line@);
    }
    Ok(value)
}

/// A prefix of a digit string denotes at most what the whole does.
proof fn lemma_digits_value_prefix(s: Seq<u8>, k: int)
    requires
        all_digits(s),
        0 <= k <= s.len(),
    ensures
        digits_value(s.take(k)) <= digits_value(s),
    decreases s.len(),
{
    if k == s.len() {
        assert(s.take(k) =~= s);
    } else {
        let s2 = s.drop_last();
        assert(all_digits(s2)) by {
            assert forall|i: int| 0 <= i < s2.len() implies is_digit(#[trigger] s2[i]) by {
                assert(s2[i] == s[i]);
            }
        }
        lemma_digits_value_prefix(s2, k);
        assert(s2.take(k) =~= s.take(k));
    }
}


/// Where an element of an array fails, the array fails with it.
proof fn lemma_elements_error(buf: Seq<u8>, q: int, i: nat, n: nat, e: FrameError)
    requires
        i <= n,
        elements_at(buf, q, i) == Err::<(Seq<FrameModel>, int), FrameError>(e),
    ensures
        elements_at(buf, q, n) == Err::<(Seq<FrameModel>, int), FrameError>(e),
    decreases n - i,
{
    if i < n {
        lemma_elements_error(buf, q, i, (n - 1) as nat, e);
    }
}

pub open spec fn views(v: Seq<Frame>) -> Seq<FrameModel> {
    v.map_values(|f: Frame| f@)
}

/// The text of a line at the cursor, as `text_at` reads it.
fn read_text(src: &mut Cursor) -> (r: Result<String, FrameError>)
    ensures
        final(src).data() == old(src).data(),
        match text_at(old(src).data(), old(src).pos()) {
            Ok((t, q)) => r is Ok && r->Ok_0@ == t && final(src).pos() == q,
            Err(e) => r == Err::<String, FrameError>(e),
        },
{
    let line = match get_line_bump(src) {
        Some(line) => line,
        None => return Err(FrameError::Incomplete),
    };
    match str_from_utf8(line) {
        Some(text) => Ok(text.to_owned()),
        None => Err(FrameError::InvalidUtf8),
    }
}

/// Checks a line at the cursor as `text_at` reads it, without copying it.
fn check_text(src: &mut Cursor) -> (r: Result<(), FrameError>)
    ensures
        final(src).data() == old(src).data(),
        match text_at(old(src).data(), old(src).pos()) {
            Ok((t, q)) => r is Ok && final(src).pos() == q,
            Err(e) => r == Err::<(), FrameError>(e),
        },
{
    let line = match get_line_bump(src) {
        Some(line) => line,
        None => return Err(FrameError::Incomplete),
    };
    match str_from_utf8(line) {
        Some(_) => Ok(()),
        None => Err(FrameError::InvalidUtf8),
    }
}

/// The length line and payload of binary data at the cursor, as
/// `scalar_at` reads them after the tag: the payload's range in the data.
fn binary_span(src: &mut Cursor) -> (r: Result<(usize, usize), FrameError>)
    requires
        1 <= old(src).pos() <= old(src).data().len(),
        old(src).data()[old(src).pos() - 1] == TAG_BINARY,
    ensures
        final(src).data() == old(src).data(),
        match scalar_at(old(src).data(), old(src).pos() - 1) {
            Ok((m, q)) => r is Ok && final(src).pos() == q && m == FrameModel::Binary(
                old(src).data().subrange(r->Ok_0.0 as int, r->Ok_0.1 as int),
            ) && r->Ok_0.0 <= r->Ok_0.1 <= old(src).data().len(),
            Err(e) => r == Err::<(usize, usize), FrameError>(e),
        },
{
    let len = match get_decimal_bump(src) {
        Ok(len) => len,
        Err(e) => return Err(e),
    };
    if len > usize::MAX as u64 {
        return Err(FrameError::InvalidLength);
    }
    let n = len as usize;
    let start = src.position();
    let buf = src.get_ref();
    let total = buf.len();
    if start >= total || total - start < 2 || total - start - 2 < n {
        return Err(FrameError::Incomplete);
    }
    if buf[start + n] != CR || buf[start + n + 1] != LF {
        return Err(FrameError::MissingCrlf);
    }
    match skip(src, n + 2) {
        Ok(()) => Ok((start, start + n)),
        Err(e) => Err(e),
    }
}

/// Checks a frame other than an array whose tag the cursor has just passed.
fn check_scalar(src: &mut Cursor, tag: u8) -> (r: Result<(), FrameError>)
    requires
        1 <= old(src).pos() <= old(src).data().len(),
        old(src).data()[old(src).pos() - 1] == tag,
    ensures
        final(src).data() == old(src).data(),
        match scalar_at(old(src).data(), old(src).pos() - 1) {
            Ok((m, q)) => r is Ok && final(src).pos() == q,
            Err(e) => r == Err::<(), FrameError>(e),
        },
{
    if tag == TAG_TEXT || tag == TAG_ERROR {
        check_text(src)
    } else if tag == TAG_BINARY {
        match binary_span(src) {
            Ok(_) => Ok(()),
            Err(e) => Err(e),
        }
    } else if tag == TAG_ARRAY {
        Err(FrameError::Recursive)
    } else {
        Err(FrameError::UnknownType)
    }
}

/// Reads a frame other than an array whose tag the cursor has just passed.
fn parse_scalar(src: &mut Cursor, tag: u8) -> (r: Result<Frame, FrameError>)
    requires
        1 <= old(src).pos() <= old(src).data().len(),
        old(src).data()[old(src).pos() - 1] == tag,
    ensures
        final(src).data() == old(src).data(),
        match scalar_at(old(src).data(), old(src).pos() - 1) {
            Ok((m, q)) => r is Ok && r->Ok_0@ == m && final(src).pos() == q,
            Err(e) => r == Err::<Frame, FrameError>(e),
        },
{
    if tag == TAG_TEXT {
        match read_text(src) {
            Ok(t) => Ok(Frame::Text(t)),
            Err(e) => Err(e),
        }
    } else if tag == TAG_ERROR {
        match read_text(src) {
            Ok(t) => Ok(Frame::Error(t)),
            Err(e) => Err(e),
        }
    } else if tag == TAG_BINARY {
        match binary_span(src) {
            Ok((start, end)) => {
                let buf = src.get_ref();
                Ok(Frame::Binary(bytes_copy_from_slice(&buf[start..end])))
            },
            Err(e) => Err(e),
        }
    } else if tag == TAG_ARRAY {
        Err(FrameError::Recursive)
    } else {
        Err(FrameError::UnknownType)
    }
}

impl Frame {
    /// Whether a whole frame starts at the cursor, moving the cursor past
    /// it; `None` when no byte is left. Nothing is copied.
    pub fn check(src: &mut Cursor) -> (r: Result<Option<()>, FrameError>)
        ensures
            final(src).data() == old(src).data(),
            match frame_at(old(src).data(), old(src).pos()) {
                Ok(None) => r == Ok::<Option<()>, FrameError>(None) && final(src).pos() == old(src).pos(),
                Ok(Some((m, q))) => r == Ok::<Option<()>, FrameError>(Some(())) && final(src).pos() == q,
                Err(e) => r == Err::<Option<()>, FrameError>(e),
            },
    {
        let tag = match get_u8_bump(src) {
            Some(tag) => tag,
            None => return Ok(None),
        };
        if tag != TAG_ARRAY {
            return match check_scalar(src, tag) {
                Ok(()) => Ok(Some(())),
                Err(e) => Err(e),
            };
        }
        let len = match get_decimal_bump(src) {
            Ok(len) => len,
            Err(e) => return Err(e),
        };
        let ghost buf = src.data();
        let ghost q = src.pos();
        let mut i: u64 = 0;
        while i < len
            invariant
                src.data() == buf,
                i <= len,
                buf == old(src).data(),
                old(src).pos() < buf.len(),
                buf[old(src).pos()] == TAG_ARRAY,
                decimal_at(buf, old(src).pos() + 1) == Ok::<(u64, int), FrameError>((len, q)),
                match elements_at(buf, q, i as nat) {
                    Ok((items, p)) => src.pos() == p,
                    Err(_) => false,
                },
            decreases len - i,
        {
            let tag = match get_u8_bump(src) {
                Some(tag) => tag,
                None => {
                    proof {
                        assert(elements_at(buf, q, (i + 1) as nat) == Err::<(Seq<FrameModel>, int), FrameError>(FrameError::Incomplete));
                        lemma_elements_error(buf, q, (i + 1) as nat, len as nat, FrameError::Incomplete);
                    }
                    return Err(FrameError::Incomplete);
                },
            };
            match check_scalar(src, tag) {
                Ok(()) => {},
                Err(e) => {
                    proof {
                        assert(elements_at(buf, q, (i + 1) as nat) == Err::<(Seq<FrameModel>, int), FrameError>(e));
                        lemma_elements_error(buf, q, (i + 1) as nat, len as nat, e);
                    }
                    return Err(e);
                },
            }
            i += 1;
        }
        Ok(Some(()))
    }

    /// Reads the frame that starts at the cursor, moving the cursor past it;
    /// `None` when no byte is left.
    pub fn parse(src: &mut Cursor) -> (r: Result<Option<Frame>, FrameError>)
        ensures
            final(src).data() == old(src).data(),
            match frame_at(old(src).data(), old(src).pos()) {
                Ok(None) => r is Ok && r->Ok_0 is None && final(src).pos() == old(src).pos(),
                Ok(Some((m, q))) => r is Ok && r->Ok_0 is Some && r->Ok_0->0@ == m && final(src).pos() == q,
                Err(e) => r == Err::<Option<Frame>, FrameError>(e),
            },
    {
        let tag = match get_u8_bump(src) {
            Some(tag) => tag,
            None => return Ok(None),
        };
        if tag != TAG_ARRAY {
            return match parse_scalar(src, tag) {
                Ok(f) => Ok(Some(f)),
                Err(e) => Err(e),
            };
        }
        let len = match get_decimal_bump(src) {
            Ok(len) => len,
            Err(e) => return Err(e),
        };
        let ghost buf = src.data();
        let ghost q = src.pos();
        let mut out: Vec<Frame> = Vec::new();
        let mut i: u64 = 0;
        while i < len
            invariant
                src.data() == buf,
                i <= len,
                buf == old(src).data(),
                old(src).pos() < buf.len(),
                buf[old(src).pos()] == TAG_ARRAY,
                decimal_at(buf, old(src).pos() + 1) == Ok::<(u64, int), FrameError>((len, q)),
                match elements_at(buf, q, i as nat) {
                    Ok((items, p)) => src.pos() == p && items == views(out@),
                    Err(_) => false,
                },
            decreases len - i,
        {
            let tag = match get_u8_bump(src) {
                Some(tag) => tag,
                None => {
                    proof {
                        assert(elements_at(buf, q, (i + 1) as nat) == Err::<(Seq<FrameModel>, int), FrameError>(FrameError::Incomplete));
                        lemma_elements_error(buf, q, (i + 1) as nat, len as nat, FrameError::Incomplete);
                    }
                    return Err(FrameError::Incomplete);
                },
            };
            let ghost before = out@;
            match parse_scalar(src, tag) {
                Ok(f) => {
                    out.push(f);
                    proof {
                        assert(views(out@) =~= views(before).push(out@.last()@));
                    }
                },
                Err(e) => {
                    proof {
                        assert(elements_at(buf, q, (i + 1) as nat) == Err::<(Seq<FrameModel>, int), FrameError>(e));
                        lemma_elements_error(buf, q, (i + 1) as nat, len as nat, e);
                    }
                    return Err(e);
                },
            }
            i += 1;
        }
        let r = Frame::Array(out);
        proof {
            assert(r@ == FrameModel::Array(views(out@))) by {
                if let FrameModel::Array(items) = r@ {
                    assert(items =~= views(out@));
                }
            }
        }
        Ok(Some(r))
    }
}


// ---------------------------------------------------------------------------
// Encoding.

pub open spec fn encode_text(tag: u8, s: Seq<char>) -> Seq<u8> {
    seq![tag] + encode_utf8(s) + crlf()
}

/// The bytes of a frame other than an array; nothing for one that has no
/// such form.
pub open spec fn encode_scalar(f: FrameModel) -> Seq<u8> {
    match f {
        FrameModel::Text(s) => encode_text(TAG_TEXT, s),
        FrameModel::Error(s) => encode_text(TAG_ERROR, s),
        FrameModel::Binary(b) => seq![TAG_BINARY] + decimal(b.len()) + crlf() + b + crlf(),
        _ => Seq::empty(),
    }
}

pub open spec fn encode_elements(items: Seq<FrameModel>) -> Seq<u8>
    decreases items.len(),
{
    if items.len() == 0 {
        Seq::empty()
    } else {
        encode_elements(items.drop_last()) + encode_scalar(items.last())
    }
}

/// The bytes of a frame on the wire.
pub open spec fn encode_frame(f: FrameModel) -> Seq<u8> {
    match f {
        FrameModel::Array(items) => seq![TAG_ARRAY] + decimal(items.len()) + crlf() + encode_elements(items),
        _ => encode_scalar(f),
    }
}

/// Why a frame cannot stand as an element of an array, if it cannot.
pub open spec fn scalar_error(f: FrameModel) -> Option<FrameError> {
    match f {
        FrameModel::Array(_) => Some(FrameError::Recursive),
        FrameModel::Null => Some(FrameError::Unsupported),
        _ => None,
    }
}

/// The error of the first element that cannot stand in an array.
pub open spec fn elements_error(items: Seq<FrameModel>) -> Option<FrameError>
    decreases items.len(),
{
    if items.len() == 0 {
        None
    } else {
        match elements_error(items.drop_last()) {
            Some(e) => Some(e),
            None => scalar_error(items.last()),
        }
    }
}

/// Why a frame cannot be encoded, if it cannot.
pub open spec fn encode_error(f: FrameModel) -> Option<FrameError> {
    match f {
        FrameModel::Array(items) => elements_error(items),
        _ => scalar_error(f),
    }
}

fn write_bytes(dst: &mut Vec<u8>, src: &[u8])
    ensures
        final(dst)@ == old(dst)@ + src@,
{
    let mut i: usize = 0;
    while i < src.len()
        invariant
            i <= src@.len(),
            dst@ == old(dst)@ + src@.take(i as int),
        decreases src@.len() - i,
    {
        dst.push(src[i]);
        i += 1;
        proof {
            assert(src@.take(i as int) =~= src@.take(i - 1).push(src@[i - 1]));
        }
    }
    proof {
        assert(src@.take(src@.len() as int) =~= src@);
    }
}

fn write_crlf(dst: &mut Vec<u8>)
    ensures
        final(dst)@ == old(dst)@ + crlf(),
{
    dst.push(CR);
    dst.push(LF);
    proof {
        assert(dst@ =~= old(dst)@ + crlf());
    }
}

/// Appends `val` in decimal, then `\r\n`.
fn write_decimal(dst: &mut Vec<u8>, val: u64)
    ensures
        final(dst)@ == old(dst)@ + decimal(val as nat) + crlf(),
{
    let mut digits: Vec<u8> = Vec::new();
    let mut v = val;
    while v >= 10
        invariant
            decimal(val as nat) == decimal(v as nat) + digits@.reverse(),
        decreases v,
    {
        let ghost before = digits@;
        digits.push((48 + v % 10) as u8);
        proof {
            assert(digits@.reverse() =~= seq![(48 + v % 10) as u8] + before.reverse());
            assert(decimal(v as nat) == decimal((v / 10) as nat).push((48 + v % 10) as u8));
            assert(decimal(v as nat) + before.reverse() =~= decimal((v / 10) as nat) + digits@.reverse());
        }
        v = v / 10;
    }
    let ghost before = digits@;
    digits.push((48 + v) as u8);
    proof {
        assert(digits@.reverse() =~= seq![(48 + v) as u8] + before.reverse());
        assert(decimal(val as nat) =~= digits@.reverse());
    }
    let mut i = digits.len();
    while i > 0
        invariant
            i <= digits@.len(),
            dst@ == old(dst)@ + digits@.reverse().take(digits@.len() - i),
        decreases i,
    {
        i -= 1;
        dst.push(digits[i]);
        proof {
            let r = digits@.reverse();
            assert(r.take(digits@.len() - i) =~= r.take(digits@.len() - i - 1).push(digits@[i as int]));
        }
    }
    proof {
        assert(digits@.reverse().take(digits@.len() as int) =~= digits@.reverse());
    }
    write_crlf(dst);
}

/// Appends the bytes of a frame other than an array; fails, writing
/// nothing, with `Recursive` for an array and `Unsupported` for `Null`.
pub fn write_scalar(frame: &Frame, dst: &mut Vec<u8>) -> (r: Result<(), FrameError>)
    ensures
        match scalar_error(frame@) {
            None => r is Ok && final(dst)@ == old(dst)@ + encode_scalar(frame@),
            Some(e) => r == Err::<(), FrameError>(e) && final(dst)@ == old(dst)@,
        },
{
    match frame {
        Frame::Text(s) => {
            dst.push(TAG_TEXT);
            write_bytes(dst, s.as_str().as_bytes());
            write_crlf(dst);
        },
        Frame::Error(s) => {
            dst.push(TAG_ERROR);
            write_bytes(dst, s.as_str().as_bytes());
            write_crlf(dst);
        },
        Frame::Binary(b) => {
            let data = bytes_as_slice(b);
            dst.push(TAG_BINARY);
            write_decimal(dst, data.len() as u64);
            write_bytes(dst, data);
            write_crlf(dst);
        },
        Frame::Array(_) => return Err(FrameError::Recursive),
        Frame::Null => return Err(FrameError::Unsupported),
    }
    proof {
        assert(dst@ =~= old(dst)@ + encode_scalar(frame@));
    }
    Ok(())
}

impl Frame {
    /// The bytes of this frame on the wire. An array is written as its
    /// count and then its elements, each as `write_scalar` writes it; the
    /// first element that cannot stand in an array decides the error.
    pub fn encode(&self) -> (r: Result<Vec<u8>, FrameError>)
        ensures
            match encode_error(self@) {
                None => r is Ok && r->Ok_0@ == encode_frame(self@),
                Some(e) => r == Err::<Vec<u8>, FrameError>(e),
            },
    {
        let mut dst: Vec<u8> = Vec::new();
        match self {
            Frame::Array(val) => {
                dst.push(TAG_ARRAY);
                write_decimal(&mut dst, val.len() as u64);
                let ghost head = dst@;
                let ghost items = views(val@);
                proof {
                    assert(self@ == FrameModel::Array(items)) by {
                        if let FrameModel::Array(its) = self@ {
                            assert(its =~= items);
                        }
                    }
                }
                let mut i: usize = 0;
                while i < val.len()
                    invariant
                        i <= val@.len(),
                        items == views(val@),
                        self@ == FrameModel::Array(items),
                        elements_error(items.take(i as int)) is None,
                        dst@ == head + encode_elements(items.take(i as int)),
                    decreases val@.len() - i,
                {
                    proof {
                        assert(items.take(i + 1).drop_last() =~= items.take(i as int));
                        assert(items.take(i + 1).last() == val@[i as int]@);
                    }
                    match write_scalar(&val[i], &mut dst) {
                        Ok(()) => {},
                        Err(e) => {
                            proof {
                                lemma_elements_error_prefix(items, i as int + 1);
                            }
                            return Err(e);
                        },
                    }
                    i += 1;
                }
                proof {
                    assert(items.take(val@.len() as int) =~= items);
                }
            },
            _ => {
                match write_scalar(self, &mut dst) {
                    Ok(()) => {},
                    Err(e) => return Err(e),
                }
                proof {
                    assert(dst@ =~= encode_frame(self@));
                }
            },
        }
        Ok(dst)
    }
}

/// The first failing element of a prefix is the first failing element of
/// the whole.
proof fn lemma_elements_error_prefix(items: Seq<FrameModel>, k: int)
    requires
        0 <= k <= items.len(),
        elements_error(items.take(k)) is Some,
    ensures
        elements_error(items) == elements_error(items.take(k)),
    decreases items.len() - k,
{
    if k < items.len() {
        assert(items.take(k + 1).drop_last() =~= items.take(k));
        lemma_elements_error_prefix(items, k + 1);
    } else {
        assert(items.take(k) =~= items);
    }
}


proof fn lemma_line_end_bounds(buf: Seq<u8>, start: int)
    ensures
        line_end(buf, start) matches Some(e) ==> start <= e && e + 2 <= buf.len(),
    decreases buf.len() - start,
{
    if !(start < 0 || start + 1 >= buf.len()) && !crlf_at(buf, start) {
        lemma_line_end_bounds(buf, start + 1);
    }
}

proof fn lemma_scalar_end_bounds(buf: Seq<u8>, p: int)
    requires
        0 <= p < buf.len(),
    ensures
        scalar_at(buf, p) matches Ok((_, q)) ==> p < q <= buf.len(),
{
    lemma_line_end_bounds(buf, p + 1);
}

proof fn lemma_elements_end_bounds(buf: Seq<u8>, q: int, n: nat)
    requires
        0 <= q <= buf.len(),
    ensures
        elements_at(buf, q, n) matches Ok((_, r)) ==> q <= r <= buf.len(),
    decreases n,
{
    if n > 0 {
        lemma_elements_end_bounds(buf, q, (n - 1) as nat);
        if let Ok((_, r)) = elements_at(buf, q, (n - 1) as nat) {
            if r < buf.len() {
                lemma_scalar_end_bounds(buf, r);
            }
        }
    }
}

/// A decoded frame ends inside the bytes it was decoded from.
pub proof fn lemma_frame_end_bounds(buf: Seq<u8>, p: int)
    requires
        0 <= p,
    ensures
        frame_at(buf, p) matches Ok(Some((_, q))) ==> p < q <= buf.len(),
{
    if p < buf.len() {
        if buf[p] == TAG_ARRAY {
            lemma_line_end_bounds(buf, p + 1);
            if let Ok((n, q)) = decimal_at(buf, p + 1) {
                lemma_elements_end_bounds(buf, q, n as nat);
            }
        } else {
            lemma_scalar_end_bounds(buf, p);
        }
    }
}

} // verus!
