//! RESP2 frames: the wire format between clients and the server.
//!
//! `check` tells whether a whole frame can be decoded from a buffer, `parse` decodes
//! it and `write_to_buf` encodes one. Inline commands (a plain line such as
//! `PING\r\n`) decode as an array of bulk strings, one per whitespace-separated word.
use crate::number::{
    decimal_text, digits_of, lemma_decimal_roundtrip, parse_i64_bytes, parse_i64_text,
    push_decimal_i64, push_decimal_u64,
};
use vstd::prelude::*;
use vstd::utf8::*;

verus! {

/// A read position over a byte buffer.
pub struct Cursor<'a> {
    inner: &'a [u8],
    pos: usize,
}

impl<'a> View for Cursor<'a> {
    type V = (Seq<u8>, int);

    closed spec fn view(&self) -> (Seq<u8>, int) {
        (self.inner@, self.pos as int)
    }
}

impl<'a> Cursor<'a> {
    pub fn new(inner: &'a [u8]) -> (r: Cursor<'a>)
        ensures
            r@ == (inner@, 0int),
    {
        Cursor { inner, pos: 0 }
    }

    pub fn position(&self) -> (r: usize)
        ensures
            r == self@.1,
    {
        self.pos
    }

    pub fn set_position(&mut self, pos: usize)
        ensures
            final(self)@ == (old(self)@.0, pos as int),
    {
        self.pos = pos;
    }

    pub fn get_ref(&self) -> (r: &'a [u8])
        ensures
            r@ == self@.0,
    {
        self.inner
    }

    pub fn has_remaining(&self) -> (r: bool)
        ensures
            r == (self@.1 < self@.0.len()),
    {
        self.pos < self.inner.len()
    }

    /// The number of bytes after the position (zero past the end).
    pub fn remaining(&self) -> (r: usize)
        ensures
            r == (if self@.1 < self@.0.len() {
                self@.0.len() - self@.1
            } else {
                0
            }),
    {
        if self.pos < self.inner.len() {
            self.inner.len() - self.pos
        } else {
            0
        }
    }
}

/// A protocol frame.
#[derive(Debug, PartialEq)]
pub enum Frame {
    Simple(String),
    Error(String),
    Integer(i64),
    Bulk(Vec<u8>),
    Null,
    Array(Vec<Frame>),
}

/// Why a frame could not be decoded.
#[derive(Debug, PartialEq)]
pub enum FrameError {
    /// Not enough data is available to parse a frame.
    Incomplete,
    /// Invalid frame format, with a message.
    Other(String),
}

/// The mathematical value of a frame.
pub enum FrameModel {
    Simple(Seq<char>),
    Error(Seq<char>),
    Integer(int),
    Bulk(Seq<u8>),
    Null,
    Array(Seq<FrameModel>),
}

/// The mathematical value of a decoding failure.
pub enum ErrorModel {
    Incomplete,
    Other(Seq<char>),
}

impl Frame {
    pub open spec fn model(&self) -> FrameModel
        decreases self,
    {
        match self {
            Frame::Simple(s) => FrameModel::Simple(s@),
            Frame::Error(s) => FrameModel::Error(s@),
            Frame::Integer(i) => FrameModel::Integer(*i as int),
            Frame::Bulk(b) => FrameModel::Bulk(b@),
            Frame::Null => FrameModel::Null,
            Frame::Array(v) => FrameModel::Array(
                Seq::new(
                    v@.len(),
                    |i: int|
                        if 0 <= i < v@.len() {
                            v@[i].model()
                        } else {
                            FrameModel::Null
                        },
                ),
            ),
        }
    }
}

/// The models of a vector of frames.
pub open spec fn models(v: Seq<Frame>) -> Seq<FrameModel> {
    Seq::new(v.len(), |i: int| v[i].model())
}

impl FrameError {
    pub open spec fn model(&self) -> ErrorModel {
        match self {
            FrameError::Incomplete => ErrorModel::Incomplete,
            FrameError::Other(s) => ErrorModel::Other(s@),
        }
    }
}

/// A message becomes a format error.
impl From<String> for FrameError {
    fn from(src: String) -> (r: FrameError) {
        FrameError::Other(src)
    }
}

impl vstd::std_specs::convert::FromSpecImpl<String> for FrameError {
    open spec fn obeys_from_spec() -> bool {
        true
    }

    open spec fn from_spec(v: String) -> FrameError {
        FrameError::Other(v)
    }
}

// ---------------------------------------------------------------------------
// The format, as spec functions over a buffer and a read position
// ---------------------------------------------------------------------------
/// A CR LF pair starts at `i`.
pub open spec fn crlf_at(buf: Seq<u8>, i: int) -> bool {
    0 <= i && i + 1 < buf.len() && buf[i] == 13u8 && buf[i + 1] == 10u8
}

/// The first CR LF at or after `start`.
pub open spec fn find_crlf(buf: Seq<u8>, start: int) -> Option<int>
    decreases buf.len() - start,
{
    if start < 0 || start + 1 >= buf.len() {
        None
    } else if crlf_at(buf, start) {
        Some(start)
    } else {
        find_crlf(buf, start + 1)
    }
}

pub proof fn lemma_find_crlf(buf: Seq<u8>, start: int)
    ensures
        find_crlf(buf, start) matches Some(i) ==> start <= i && crlf_at(buf, i),
    decreases buf.len() - start,
{
    if !(start < 0 || start + 1 >= buf.len()) && !crlf_at(buf, start) {
        lemma_find_crlf(buf, start + 1);
    }
}

/// The line that starts at `pos` (without its CR LF) and the position after it.
pub open spec fn line_at(buf: Seq<u8>, pos: int) -> Option<(Seq<u8>, int)> {
    match find_crlf(buf, pos) {
        Some(i) => Some((buf.subrange(pos, i), i + 2)),
        None => None,
    }
}

pub open spec fn msg_utf8_integer() -> Seq<char> {
    "invalid utf8 integer"@
}

pub open spec fn msg_integer_digits() -> Seq<char> {
    "invalid integer digits"@
}

pub open spec fn msg_invalid_null() -> Seq<char> {
    "invalid null bulk string"@
}

pub open spec fn msg_negative_bulk() -> Seq<char> {
    "negative bulk string length"@
}

pub open spec fn msg_bulk_crlf() -> Seq<char> {
    "bulk string not followed by CRLF"@
}

pub open spec fn msg_negative_array() -> Seq<char> {
    "negative array length"@
}

pub open spec fn msg_int_conversion() -> Seq<char> {
    "protocol error; invalid integer conversion"@
}

pub open spec fn msg_utf8_string() -> Seq<char> {
    "protocol error; invalid utf8 string"@
}

pub open spec fn msg_utf8_inline() -> Seq<char> {
    "invalid utf8 inline command"@
}

/// A line holding a signed decimal integer.
pub open spec fn decimal_at(buf: Seq<u8>, pos: int) -> Result<(i64, int), ErrorModel> {
    match line_at(buf, pos) {
        None => Err(ErrorModel::Incomplete),
        Some((l, n)) => if !valid_utf8(l) {
            Err(ErrorModel::Other(msg_utf8_integer()))
        } else {
            match parse_i64_text(l) {
                Some(v) => Ok((v, n)),
                None => Err(ErrorModel::Other(msg_integer_digits())),
            }
        },
    }
}

/// The bytes `-1`: the length of a null bulk string.
pub open spec fn is_minus_one(l: Seq<u8>) -> bool {
    l =~= seq![45u8, 49u8]
}

/// Where a whole frame that starts at `pos` ends, or why there is none.
pub open spec fn check_at(buf: Seq<u8>, pos: int) -> Result<int, ErrorModel>
    decreases buf.len() - pos, 0int, 0int,
{
    if pos < 0 || pos >= buf.len() {
        Err(ErrorModel::Incomplete)
    } else {
        let b = buf[pos];
        let p1 = pos + 1;
        if b == 43u8 || b == 45u8 {
            match line_at(buf, p1) {
                None => Err(ErrorModel::Incomplete),
                Some((_, n)) => Ok(n),
            }
        } else if b == 58u8 {
            match decimal_at(buf, p1) {
                Err(e) => Err(e),
                Ok((_, n)) => Ok(n),
            }
        } else if b == 36u8 {
            if p1 >= buf.len() {
                Err(ErrorModel::Incomplete)
            } else if buf[p1] == 45u8 {
                match line_at(buf, p1) {
                    None => Err(ErrorModel::Incomplete),
                    Some((l, n)) => if is_minus_one(l) {
                        Ok(n)
                    } else {
                        Err(ErrorModel::Other(msg_invalid_null()))
                    },
                }
            } else {
                match decimal_at(buf, p1) {
                    Err(e) => Err(e),
                    Ok((v, n)) => if v < 0 {
                        Err(ErrorModel::Other(msg_negative_bulk()))
                    } else if v > usize::MAX {
                        Err(ErrorModel::Other(msg_int_conversion()))
                    } else if buf.len() - n < v + 2 {
                        Err(ErrorModel::Incomplete)
                    } else if buf[n + v] != 13u8 || buf[n + v + 1] != 10u8 {
                        Err(ErrorModel::Other(msg_bulk_crlf()))
                    } else {
                        Ok(n + v + 2)
                    },
                }
            }
        } else if b == 42u8 {
            match decimal_at(buf, p1) {
                Err(e) => Err(e),
                Ok((v, n)) => if v < 0 {
                    Err(ErrorModel::Other(msg_negative_array()))
                } else if pos < n <= buf.len() {
                    check_items(buf, n, v as int)
                } else {
                    Err(ErrorModel::Incomplete)
                },
            }
        } else {
            match line_at(buf, pos) {
                None => Err(ErrorModel::Incomplete),
                Some((_, n)) => Ok(n),
            }
        }
    }
}

/// Where `count` whole frames that follow one another from `pos` end.
pub open spec fn check_items(buf: Seq<u8>, pos: int, count: int) -> Result<int, ErrorModel>
    decreases buf.len() - pos, 1int, count,
{
    if count <= 0 {
        Ok(pos)
    } else {
        match check_at(buf, pos) {
            Err(e) => Err(e),
            Ok(p2) => if pos < p2 <= buf.len() {
                check_items(buf, p2, count - 1)
            } else {
                Err(ErrorModel::Incomplete)
            },
        }
    }
}

/// `char::is_whitespace`: the Unicode White_Space property.
pub open spec fn is_white_space(c: char) -> bool {
    let u = c as u32;
    (9 <= u <= 13) || u == 32 || u == 0x85 || u == 0xA0 || u == 0x1680 || (0x2000 <= u
        <= 0x200A) || u == 0x2028 || u == 0x2029 || u == 0x202F || u == 0x205F || u == 0x3000
}

/// The length of the run of non-whitespace characters that starts `s`.
pub open spec fn word_len(s: Seq<char>) -> nat
    decreases s.len(),
{
    if s.len() == 0 || is_white_space(s[0]) {
        0
    } else {
        1 + word_len(s.drop_first())
    }
}

/// `str::split_whitespace`: the maximal runs of non-whitespace characters.
pub open spec fn words(s: Seq<char>) -> Seq<Seq<char>>
    decreases s.len(),
{
    if s.len() == 0 {
        seq![]
    } else if is_white_space(s[0]) {
        words(s.drop_first())
    } else {
        let k = word_len(s);
        if 0 < k <= s.len() {
            seq![s.take(k as int)] + words(s.skip(k as int))
        } else {
            seq![]
        }
    }
}

/// The frames that an inline command line decodes to.
pub open spec fn inline_frames(chars: Seq<char>) -> Seq<FrameModel> {
    Seq::new(words(chars).len(), |i: int| FrameModel::Bulk(encode_utf8(words(chars)[i])))
}

/// The frame that starts at `pos` and the position after it, or why there is none.
pub open spec fn parse_at(buf: Seq<u8>, pos: int) -> Result<(FrameModel, int), ErrorModel>
    decreases buf.len() - pos, 0int, 0int,
{
    if pos < 0 || pos >= buf.len() {
        Err(ErrorModel::Incomplete)
    } else {
        let b = buf[pos];
        let p1 = pos + 1;
        if b == 43u8 || b == 45u8 {
            match line_at(buf, p1) {
                None => Err(ErrorModel::Incomplete),
                Some((l, n)) => if !valid_utf8(l) {
                    Err(ErrorModel::Other(msg_utf8_string()))
                } else if b == 43u8 {
                    Ok((FrameModel::Simple(decode_utf8(l)), n))
                } else {
                    Ok((FrameModel::Error(decode_utf8(l)), n))
                },
            }
        } else if b == 58u8 {
            match decimal_at(buf, p1) {
                Err(e) => Err(e),
                Ok((v, n)) => Ok((FrameModel::Integer(v as int), n)),
            }
        } else if b == 36u8 {
            if p1 >= buf.len() {
                Err(ErrorModel::Incomplete)
            } else if buf[p1] == 45u8 {
                match line_at(buf, p1) {
                    None => Err(ErrorModel::Incomplete),
                    Some((l, n)) => if is_minus_one(l) {
                        Ok((FrameModel::Null, n))
                    } else {
                        Err(ErrorModel::Other(msg_invalid_null()))
                    },
                }
            } else {
                match decimal_at(buf, p1) {
                    Err(e) => Err(e),
                    Ok((v, n)) => if v < 0 || v > usize::MAX {
                        Err(ErrorModel::Other(msg_int_conversion()))
                    } else if buf.len() - n < v + 2 {
                        Err(ErrorModel::Incomplete)
                    } else if buf[n + v] != 13u8 || buf[n + v + 1] != 10u8 {
                        Err(ErrorModel::Other(msg_bulk_crlf()))
                    } else {
                        Ok((FrameModel::Bulk(buf.subrange(n, n + v)), n + v + 2))
                    },
                }
            }
        } else if b == 42u8 {
            match decimal_at(buf, p1) {
                Err(e) => Err(e),
                Ok((v, n)) => if v < 0 || v > usize::MAX {
                    Err(ErrorModel::Other(msg_int_conversion()))
                } else if pos < n <= buf.len() {
                    match parse_items(buf, n, v as int) {
                        Err(e) => Err(e),
                        Ok((items, m)) => Ok((FrameModel::Array(items), m)),
                    }
                } else {
                    Err(ErrorModel::Incomplete)
                },
            }
        } else {
            match line_at(buf, pos) {
                None => Err(ErrorModel::Incomplete),
                Some((l, n)) => if !valid_utf8(l) {
                    Err(ErrorModel::Other(msg_utf8_inline()))
                } else {
                    Ok((FrameModel::Array(inline_frames(decode_utf8(l))), n))
                },
            }
        }
    }
}

/// `count` frames that follow one another from `pos`, and the position after them.
pub open spec fn parse_items(buf: Seq<u8>, pos: int, count: int) -> Result<
    (Seq<FrameModel>, int),
    ErrorModel,
>
    decreases buf.len() - pos, 1int, count,
{
    if count <= 0 {
        Ok((seq![], pos))
    } else {
        match parse_at(buf, pos) {
            Err(e) => Err(e),
            Ok((f, p2)) => if pos < p2 <= buf.len() {
                match parse_items(buf, p2, count - 1) {
                    Err(e) => Err(e),
                    Ok((rest, m)) => Ok((seq![f] + rest, m)),
                }
            } else {
                Err(ErrorModel::Incomplete)
            },
        }
    }
}

pub open spec fn crlf() -> Seq<u8> {
    seq![13u8, 10u8]
}

/// The bytes that encode a frame.
pub open spec fn encode(f: FrameModel) -> Seq<u8>
    decreases f,
{
    match f {
        FrameModel::Simple(s) => seq![43u8] + encode_utf8(s) + crlf(),
        FrameModel::Error(s) => seq![45u8] + encode_utf8(s) + crlf(),
        FrameModel::Integer(v) => seq![58u8] + decimal_text(v) + crlf(),
        FrameModel::Null => seq![36u8, 45u8, 49u8, 13u8, 10u8],
        FrameModel::Bulk(b) => seq![36u8] + digits_of(b.len()) + crlf() + b + crlf(),
        FrameModel::Array(items) => seq![42u8] + digits_of(items.len()) + crlf() + encode_all(
            items,
        ),
    }
}

/// The bytes that encode frames one after another.
pub open spec fn encode_all(items: Seq<FrameModel>) -> Seq<u8>
    decreases items,
{
    if items.len() == 0 {
        seq![]
    } else {
        encode_all(items.drop_last()) + encode(items.last())
    }
}

// ---------------------------------------------------------------------------
// Trusted calls into std
// ---------------------------------------------------------------------------
/// `std::str::from_utf8`: the text that valid UTF-8 bytes hold, and `None` for
/// bytes that are not valid UTF-8.
#[verifier::external_body]
pub(crate) fn utf8_str(bytes: &[u8]) -> (r: Option<&str>)
    ensures
        r is Some <==> valid_utf8(bytes@),
        r matches Some(s) ==> s@ == decode_utf8(bytes@),
{
    std::str::from_utf8(bytes).ok()
}

/// `str::split_whitespace`: the words of `s`, each as its UTF-8 bytes.
#[verifier::external_body]
pub(crate) fn split_words(s: &str) -> (r: Vec<Vec<u8>>)
    ensures
        r@.len() == words(s@).len(),
        forall|i: int| 0 <= i < r@.len() ==> #[trigger] r@[i]@ == encode_utf8(words(s@)[i]),
{
    s.split_whitespace().map(|w| w.as_bytes().to_vec()).collect()
}

/// An owned copy of a string.
pub fn text(s: &str) -> (r: String)
    ensures
        r@ == s@,
{
    s.to_owned()
}

// ---------------------------------------------------------------------------
// Reading
// ---------------------------------------------------------------------------
/// The byte at the position, without moving.
pub fn peek_u8(src: &mut Cursor) -> (r: Result<u8, FrameError>)
    ensures
        final(src)@ == old(src)@,
        old(src)@.1 < old(src)@.0.len() ==> r == Ok::<u8, FrameError>(old(src)@.0[old(src)@.1]),
        old(src)@.1 >= old(src)@.0.len() ==> r matches Err(FrameError::Incomplete),
{
    if !src.has_remaining() {
        return Err(FrameError::Incomplete);
    }
    Ok(src.inner[src.pos])
}

/// The byte at the position, moving past it.
pub fn get_u8(src: &mut Cursor) -> (r: Result<u8, FrameError>)
    ensures
        final(src)@.0 == old(src)@.0,
        old(src)@.1 < old(src)@.0.len() ==> r == Ok::<u8, FrameError>(old(src)@.0[old(src)@.1])
            && final(src)@.1 == old(src)@.1 + 1,
        old(src)@.1 >= old(src)@.0.len() ==> (r matches Err(FrameError::Incomplete))
            && final(src)@ == old(src)@,
{
    if !src.has_remaining() {
        return Err(FrameError::Incomplete);
    }
    let b = src.inner[src.pos];
    src.pos = src.pos + 1;
    Ok(b)
}

/// The line at the position (without its CR LF), moving past its CR LF; the position
/// stays where no CR LF follows it.
pub fn get_line<'a>(src: &mut Cursor<'a>) -> (r: Result<&'a [u8], FrameError>)
    ensures
        final(src)@.0 == old(src)@.0,
        match line_at(old(src)@.0, old(src)@.1) {
            Some((l, n)) => r matches Ok(s) && s@ == l && final(src)@.1 == n,
            None => r matches Err(FrameError::Incomplete) && final(src)@ == old(src)@,
        },
{
    let start = src.pos;
    let end = src.inner.len();
    let buf = src.inner;
    if start >= end {
        return Err(FrameError::Incomplete);
    }
    let mut i = start;
    while i < end
        invariant
            start <= i <= end,
            end == buf@.len(),
            buf@ == src@.0,
            src@ == old(src)@,
            start == src@.1,
            find_crlf(buf@, start as int) == find_crlf(buf@, i as int),
        decreases end - i,
    {
        if buf[i] == 13 && i + 1 < end && buf[i + 1] == 10 {
            src.pos = i + 2;
            return Ok(&buf[start..i]);
        }
        i = i + 1;
    }
    Err(FrameError::Incomplete)
}

/// Reads a line holding a signed decimal integer.
pub fn get_decimal(src: &mut Cursor) -> (r: Result<i64, FrameError>)
    ensures
        final(src)@.0 == old(src)@.0,
        match decimal_at(old(src)@.0, old(src)@.1) {
            Ok((v, n)) => r == Ok::<i64, FrameError>(v) && final(src)@.1 == n,
            Err(e) => r matches Err(x) && x.model() == e,
        },
        r is Err ==> final(src)@.1 == old(src)@.1 || line_at(old(src)@.0, old(src)@.1) is Some,
        line_at(old(src)@.0, old(src)@.1) matches Some((_, n)) ==> final(src)@.1 == n,
{
    let line = match get_line(src) {
        Ok(l) => l,
        Err(e) => return Err(e),
    };
    if utf8_str(line).is_none() {
        return Err(FrameError::Other(text("invalid utf8 integer")));
    }
    proof {
        assert(line@.subrange(0, line@.len() as int) =~= line@);
    }
    match parse_i64_bytes(line, 0, line.len()) {
        Some(v) => Ok(v),
        None => Err(FrameError::Other(text("invalid integer digits"))),
    }
}

/// Joins a check result with its specification.
pub open spec fn check_agrees(r: Result<(), FrameError>, pos: int, s: Result<int, ErrorModel>) -> bool {
    match s {
        Ok(n) => r is Ok && pos == n,
        Err(e) => r matches Err(x) && x.model() == e,
    }
}


/// `models(pre)` put before the frames of a parse result.
pub open spec fn prepend(
    pre: Seq<FrameModel>,
    r: Result<(Seq<FrameModel>, int), ErrorModel>,
) -> Result<(Seq<FrameModel>, int), ErrorModel> {
    match r {
        Ok((rest, m)) => Ok((pre + rest, m)),
        Err(e) => Err(e),
    }
}

/// Joins a parse result with its specification.
pub open spec fn parse_agrees(
    r: Result<Frame, FrameError>,
    pos: int,
    s: Result<(FrameModel, int), ErrorModel>,
) -> bool {
    match s {
        Ok((f, n)) => r matches Ok(x) && x.model() == f && pos == n,
        Err(e) => r matches Err(x) && x.model() == e,
    }
}

impl Frame {
    /// Checks whether an entire frame can be decoded from the position, moving past it.
    pub fn check(src: &mut Cursor) -> (r: Result<(), FrameError>)
        ensures
            final(src)@.0 == old(src)@.0,
            check_agrees(r, final(src)@.1, check_at(old(src)@.0, old(src)@.1)),
            r is Ok ==> old(src)@.1 < final(src)@.1 <= old(src)@.0.len(),
        decreases old(src)@.0.len() - old(src)@.1,
    {
        let ghost buf = src@.0;
        let ghost pos = src@.1;
        proof {
            lemma_find_crlf(buf, pos);
            lemma_find_crlf(buf, pos + 1);
        }
        if !src.has_remaining() {
            return Err(FrameError::Incomplete);
        }
        let b = match peek_u8(src) {
            Ok(b) => b,
            Err(e) => return Err(e),
        };
        if b == 43 || b == 45 {
            let _ = get_u8(src);
            match get_line(src) {
                Ok(_) => Ok(()),
                Err(e) => Err(e),
            }
        } else if b == 58 {
            let _ = get_u8(src);
            match get_decimal(src) {
                Ok(_) => Ok(()),
                Err(e) => Err(e),
            }
        } else if b == 36 {
            let _ = get_u8(src);
            let p = match peek_u8(src) {
                Ok(p) => p,
                Err(e) => return Err(e),
            };
            if p == 45 {
                let line = match get_line(src) {
                    Ok(l) => l,
                    Err(e) => return Err(e),
                };
                if line.len() == 2 && line[0] == 45 && line[1] == 49 {
                    return Ok(());
                }
                return Err(FrameError::Other(text("invalid null bulk string")));
            }
            let len = match get_decimal(src) {
                Ok(v) => v,
                Err(e) => return Err(e),
            };
            if len < 0 {
                return Err(FrameError::Other(text("negative bulk string length")));
            }
            if (len as u64 as u128) > (usize::MAX as u128) {
                return Err(FrameError::Other(text("protocol error; invalid integer conversion")));
            }
            let len = len as usize;
            if (src.remaining() as u128) < (len as u128) + 2 {
                return Err(FrameError::Incomplete);
            }
            assert(src.pos + len + 2 <= src.inner.len());
            src.pos = src.pos + len;
            let c1 = match get_u8(src) {
                Ok(c) => c,
                Err(e) => return Err(e),
            };
            if c1 != 13 {
                return Err(FrameError::Other(text("bulk string not followed by CRLF")));
            }
            let c2 = match get_u8(src) {
                Ok(c) => c,
                Err(e) => return Err(e),
            };
            if c2 != 10 {
                return Err(FrameError::Other(text("bulk string not followed by CRLF")));
            }
            Ok(())
        } else if b == 42 {
            let _ = get_u8(src);
            let len = match get_decimal(src) {
                Ok(v) => v,
                Err(e) => return Err(e),
            };
            if len < 0 {
                return Err(FrameError::Other(text("negative array length")));
            }
            let ghost start = src@.1;
            let mut i: i64 = 0;
            while i < len
                invariant
                    0 <= i <= len,
                    src@.0 == buf,
                    buf == old(src)@.0,
                    pos == old(src)@.1,
                    pos < start <= src@.1 <= buf.len(),
                    check_items(buf, start, len as int) == check_items(buf, src@.1, len - i),
                    check_at(buf, pos) == check_items(buf, start, len as int),
                decreases len - i,
            {
                let ghost before = src@.1;
                match Frame::check(src) {
                    Ok(()) => {},
                    Err(e) => {
                        assert(check_items(buf, before, len - i) == Err::<int, ErrorModel>(e.model()));
                        return Err(e);
                    },
                }
                i = i + 1;
            }
            Ok(())
        } else {
            match get_line(src) {
                Ok(_) => Ok(()),
                Err(e) => Err(e),
            }
        }
    }

    /// Decodes the frame at the position, moving past it.
    pub fn parse(src: &mut Cursor) -> (r: Result<Frame, FrameError>)
        ensures
            final(src)@.0 == old(src)@.0,
            parse_agrees(r, final(src)@.1, parse_at(old(src)@.0, old(src)@.1)),
            r is Ok ==> old(src)@.1 < final(src)@.1 <= old(src)@.0.len(),
        decreases old(src)@.0.len() - old(src)@.1,
    {
        let ghost buf = src@.0;
        let ghost pos = src@.1;
        proof {
            lemma_find_crlf(buf, pos);
            lemma_find_crlf(buf, pos + 1);
        }
        let b = match peek_u8(src) {
            Ok(b) => b,
            Err(e) => return Err(e),
        };
        if b == 43 || b == 45 {
            let _ = get_u8(src);
            let line = match get_line(src) {
                Ok(l) => l,
                Err(e) => return Err(e),
            };
            match utf8_str(line) {
                Some(s) => {
                    if b == 43 {
                        Ok(Frame::Simple(text(s)))
                    } else {
                        Ok(Frame::Error(text(s)))
                    }
                },
                None => Err(FrameError::Other(text("protocol error; invalid utf8 string"))),
            }
        } else if b == 58 {
            let _ = get_u8(src);
            match get_decimal(src) {
                Ok(v) => Ok(Frame::Integer(v)),
                Err(e) => Err(e),
            }
        } else if b == 36 {
            let _ = get_u8(src);
            let p = match peek_u8(src) {
                Ok(p) => p,
                Err(e) => return Err(e),
            };
            if p == 45 {
                let line = match get_line(src) {
                    Ok(l) => l,
                    Err(e) => return Err(e),
                };
                if line.len() == 2 && line[0] == 45 && line[1] == 49 {
                    return Ok(Frame::Null);
                }
                return Err(FrameError::Other(text("invalid null bulk string")));
            }
            let len = match get_decimal(src) {
                Ok(v) => v,
                Err(e) => return Err(e),
            };
            if len < 0 || (len as u64 as u128) > (usize::MAX as u128) {
                return Err(FrameError::Other(text("protocol error; invalid integer conversion")));
            }
            let n = len as usize;
            if (src.remaining() as u128) < (n as u128) + 2 {
                return Err(FrameError::Incomplete);
            }
            let start = src.pos;
            assert(start + n + 2 <= src.inner.len());
            let data = vstd::slice::slice_to_vec(vstd::slice::slice_subrange(src.inner, start, start + n));
            src.pos = start + n;
            let c1 = match get_u8(src) {
                Ok(c) => c,
                Err(e) => return Err(e),
            };
            if c1 != 13 {
                return Err(FrameError::Other(text("bulk string not followed by CRLF")));
            }
            let c2 = match get_u8(src) {
                Ok(c) => c,
                Err(e) => return Err(e),
            };
            if c2 != 10 {
                return Err(FrameError::Other(text("bulk string not followed by CRLF")));
            }
            Ok(Frame::Bulk(data))
        } else if b == 42 {
            let _ = get_u8(src);
            let len = match get_decimal(src) {
                Ok(v) => v,
                Err(e) => return Err(e),
            };
            if len < 0 || (len as u64 as u128) > (usize::MAX as u128) {
                return Err(FrameError::Other(text("protocol error; invalid integer conversion")));
            }
            let n = len as usize;
            let ghost start = src@.1;
            let mut out: Vec<Frame> = Vec::new();
            let mut i: usize = 0;
            proof {
                assert(models(out@) + seq![] =~= models(out@));
            }
            while i < n
                invariant
                    0 <= i <= n,
                    n == len,
                    src@.0 == buf,
                    buf == old(src)@.0,
                    pos == old(src)@.1,
                    pos < start <= src@.1 <= buf.len(),
                    out@.len() == i,
                    parse_items(buf, start, n as int) == prepend(
                        models(out@),
                        parse_items(buf, src@.1, n - i),
                    ),
                    parse_at(buf, pos) == match parse_items(buf, start, n as int) {
                        Err(e) => Err(e),
                        Ok((items, m)) => Ok((FrameModel::Array(items), m)),
                    },
                decreases n - i,
            {
                let ghost before = src@.1;
                let ghost old_out = out@;
                match Frame::parse(src) {
                    Ok(f) => {
                        out.push(f);
                        proof {
                            assert(models(out@) =~= models(old_out).push(f.model()));
                            match parse_items(buf, src@.1, n - i - 1) {
                                Ok((rest, m)) => {
                                    assert(models(old_out) + (seq![f.model()] + rest) =~= models(
                                        out@,
                                    ) + rest);
                                },
                                Err(_) => {},
                            }
                        }
                    },
                    Err(e) => {
                        assert(parse_items(buf, before, n - i) == Err::<
                            (Seq<FrameModel>, int),
                            ErrorModel,
                        >(e.model()));
                        return Err(e);
                    },
                }
                i = i + 1;
            }
            proof {
                assert(models(out@) + seq![] =~= models(out@));
            }
            let r = Frame::Array(out);
            assert(r.model() == FrameModel::Array(models(out@))) by {
                assert(r.model()->Array_0 =~= models(out@));
            }
            Ok(r)
        } else {
            let line = match get_line(src) {
                Ok(l) => l,
                Err(e) => return Err(e),
            };
            let s = match utf8_str(line) {
                Some(s) => s,
                None => return Err(FrameError::Other(text("invalid utf8 inline command"))),
            };
            let ws = split_words(s);
            let mut parts: Vec<Frame> = Vec::new();
            let mut i: usize = 0;
            while i < ws.len()
                invariant
                    i <= ws@.len(),
                    parts@.len() == i,
                    ws@.len() == words(s@).len(),
                    forall|j: int| 0 <= j < ws@.len() ==> #[trigger] ws@[j]@ == encode_utf8(words(s@)[j]),
                    forall|j: int| 0 <= j < i ==> #[trigger] parts@[j].model() == FrameModel::Bulk(
                        encode_utf8(words(s@)[j]),
                    ),
                decreases ws@.len() - i,
            {
                let w = vstd::slice::slice_to_vec(ws[i].as_slice());
                parts.push(Frame::Bulk(w));
                i = i + 1;
            }
            let r = Frame::Array(parts);
            assert(r.model() == FrameModel::Array(inline_frames(s@))) by {
                assert forall|j: int| 0 <= j < parts@.len() implies r.model()->Array_0[j]
                    == inline_frames(s@)[j] by {
                    assert(parts@[j].model() == FrameModel::Bulk(encode_utf8(words(s@)[j])));
                }
                assert(r.model()->Array_0 =~= inline_frames(s@));
            }
            Ok(r)
        }
    }
}

/// Appends the bytes of `src`.
fn push_all(dst: &mut Vec<u8>, src: &[u8])
    ensures
        final(dst)@ == old(dst)@ + src@,
{
    let mut i: usize = 0;
    while i < src.len()
        invariant
            i <= src@.len(),
            dst@ == old(dst)@ + src@.take(i as int),
        decreases src@.len() - i,
    {
        dst.push(src[i]);
        i = i + 1;
        assert(dst@ =~= old(dst)@ + src@.take(i as int));
    }
    assert(src@.take(i as int) =~= src@);
}

fn push_crlf(dst: &mut Vec<u8>)
    ensures
        final(dst)@ == old(dst)@ + crlf(),
{
    dst.push(13);
    dst.push(10);
    assert(final(dst)@ =~= old(dst)@ + crlf());
}

impl Frame {
    /// Encodes the frame and appends it to `dst`.
    pub fn write_to_buf(&self, dst: &mut Vec<u8>)
        ensures
            final(dst)@ == old(dst)@ + encode(self.model()),
        decreases self,
    {
        let ghost d0 = dst@;
        match self {
            Frame::Simple(val) => {
                dst.push(43);
                push_all(dst, val.as_str().as_bytes());
                push_crlf(dst);
                assert(dst@ =~= d0 + encode(self.model()));
            },
            Frame::Error(val) => {
                dst.push(45);
                push_all(dst, val.as_str().as_bytes());
                push_crlf(dst);
                assert(dst@ =~= d0 + encode(self.model()));
            },
            Frame::Integer(val) => {
                dst.push(58);
                push_decimal_i64(dst, *val);
                push_crlf(dst);
                assert(dst@ =~= d0 + encode(self.model()));
            },
            Frame::Null => {
                dst.push(36);
                dst.push(45);
                dst.push(49);
                push_crlf(dst);
                assert(dst@ =~= d0 + encode(self.model()));
            },
            Frame::Bulk(val) => {
                dst.push(36);
                push_decimal_u64(dst, val.len() as u64);
                push_crlf(dst);
                push_all(dst, val.as_slice());
                push_crlf(dst);
                assert(dst@ =~= d0 + encode(self.model()));
            },
            Frame::Array(frames) => {
                dst.push(42);
                push_decimal_u64(dst, frames.len() as u64);
                push_crlf(dst);
                let ghost head = dst@;
                let ghost ms = self.model()->Array_0;
                assert(ms.take(0) =~= Seq::<FrameModel>::empty());
                let mut i: usize = 0;
                while i < frames.len()
                    invariant
                        i <= frames@.len(),
                        *self == Frame::Array(*frames),
                        ms.len() == frames@.len(),
                        forall|j: int| 0 <= j < frames@.len() ==> ms[j] == #[trigger] frames@[j].model(),
                        dst@ == head + encode_all(ms.take(i as int)),
                    decreases frames@.len() - i,
                {
                    proof {
                        assert((*self)->Array_0 == *frames);
                        assert(decreases_to!(*self => (*self)->Array_0));
                        assert(decreases_to!(frames => frames@));
                        assert(0 <= i < frames@.len());
                        assert(decreases_to!(frames@ => frames@[i as int]));
                    }
                    frames[i].write_to_buf(dst);
                    assert(ms.take(i + 1).drop_last() =~= ms.take(i as int));
                    i = i + 1;
                    assert(dst@ =~= head + encode_all(ms.take(i as int)));
                }
                assert(ms.take(i as int) =~= ms);
                assert(dst@ =~= d0 + encode(self.model()));
            },
        }
    }

    /// The message of an error frame.
    pub fn to_error(&self) -> (r: Option<&str>)
        ensures
            match self {
                Frame::Error(msg) => r matches Some(m) && m@ == msg@,
                _ => r is None,
            },
    {
        match self {
            Frame::Error(msg) => Some(msg.as_str()),
            _ => None,
        }
    }
}


/// What `parse_frame` answers for a buffer: the frame at its front and the number of
/// bytes it takes, nothing where more bytes are needed, or the decoding error.
pub open spec fn front_frame(buf: Seq<u8>) -> Result<Option<(FrameModel, int)>, ErrorModel> {
    match check_at(buf, 0) {
        Ok(n) => match parse_at(buf, 0) {
            Ok((f, _)) => Ok(Some((f, n))),
            Err(e) => Err(e),
        },
        Err(ErrorModel::Incomplete) => Ok(None),
        Err(e) => Err(e),
    }
}

/// Decodes the frame at the front of a read buffer, if it is all there: the frame
/// and the number of bytes it takes, `None` where more bytes are needed, or the
/// decoding error.
pub fn parse_frame(buf: &[u8]) -> (r: Result<Option<(Frame, usize)>, FrameError>)
    ensures
        match front_frame(buf@) {
            Ok(Some((f, n))) => r matches Ok(Some((x, len))) && x.model() == f && len == n,
            Ok(None) => r matches Ok(None),
            Err(e) => r matches Err(x) && x.model() == e,
        },
{
    let mut cursor = Cursor::new(buf);
    match Frame::check(&mut cursor) {
        Ok(()) => {
            let len = cursor.position();
            cursor.set_position(0);
            match Frame::parse(&mut cursor) {
                Ok(frame) => Ok(Some((frame, len))),
                Err(e) => Err(e),
            }
        },
        Err(FrameError::Incomplete) => Ok(None),
        Err(e) => Err(e),
    }
}

} // verus!
