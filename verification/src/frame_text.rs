//! Frames as text: the human-readable rendering, and the debug rendering that error
//! replies quote.
use crate::frame::{text, utf8_str, Frame, FrameModel};
use crate::frame_laws::lemma_ascii_valid_utf8;
use crate::number::{decimal_text, digits_of, lemma_digits_of_roundtrip, push_decimal_i64, push_decimal_u64};
use vstd::prelude::*;
use vstd::string::StringExecFns;
use vstd::utf8::*;

verus! {

/// What `Debug` prints for a text: quoted, with quotes, backslashes and control
/// characters escaped.
pub uninterp spec fn str_debug(s: Seq<char>) -> Seq<char>;

/// `format!("{:?}", s)` for a `str`, named `str_debug`.
#[verifier::external_body]
fn quoted_debug(s: &str) -> (r: String)
    ensures
        r@ == str_debug(s@),
{
    format!("{:?}", s)
}

/// The decimal text of an integer, as characters.
pub open spec fn decimal_chars(v: int) -> Seq<char> {
    decode_utf8(decimal_text(v))
}

/// The bytes as `Debug` prints them inside brackets: decimals joined by `, `.
pub open spec fn byte_list(b: Seq<u8>) -> Seq<char>
    decreases b.len(),
{
    if b.len() == 0 {
        Seq::empty()
    } else if b.len() == 1 {
        decimal_chars(b[0] as int)
    } else {
        byte_list(b.drop_last()) + ", "@ + decimal_chars(b.last() as int)
    }
}

/// How `Debug` prints a frame.
pub open spec fn debug_repr(f: FrameModel) -> Seq<char>
    decreases f, 1int,
{
    match f {
        FrameModel::Simple(s) => "Simple("@ + str_debug(s) + ")"@,
        FrameModel::Error(s) => "Error("@ + str_debug(s) + ")"@,
        FrameModel::Integer(i) => "Integer("@ + decimal_chars(i) + ")"@,
        FrameModel::Bulk(b) => "Bulk(["@ + byte_list(b) + "])"@,
        FrameModel::Null => "Null"@,
        FrameModel::Array(items) => "Array(["@ + debug_list(items) + "])"@,
    }
}

/// The frames as `Debug` prints them inside brackets, joined by `, `.
pub open spec fn debug_list(items: Seq<FrameModel>) -> Seq<char>
    decreases items, 0int,
{
    if items.len() == 0 {
        Seq::empty()
    } else if items.len() == 1 {
        debug_repr(items[0])
    } else {
        debug_list(items.drop_last()) + ", "@ + debug_repr(items.last())
    }
}

/// The human-readable rendering of a frame: quoted strings, `ERR:` before errors,
/// `(nil)` for null, bracketed arrays, and bytes that are not UTF-8 as a byte list.
pub open spec fn display_repr(f: FrameModel) -> Seq<char>
    decreases f, 1int,
{
    match f {
        FrameModel::Simple(s) => "\""@ + s + "\""@,
        FrameModel::Error(s) => "ERR: "@ + s,
        FrameModel::Integer(i) => decimal_chars(i),
        FrameModel::Bulk(b) => if valid_utf8(b) {
            "\""@ + decode_utf8(b) + "\""@
        } else {
            "["@ + byte_list(b) + "]"@
        },
        FrameModel::Null => "(nil)"@,
        FrameModel::Array(items) => "["@ + display_list(items) + "]"@,
    }
}

/// The frames rendered and joined by `, `.
pub open spec fn display_list(items: Seq<FrameModel>) -> Seq<char>
    decreases items, 0int,
{
    if items.len() == 0 {
        Seq::empty()
    } else if items.len() == 1 {
        display_repr(items[0])
    } else {
        display_list(items.drop_last()) + ", "@ + display_repr(items.last())
    }
}

/// The decimal text of `v`.
pub(crate) fn decimal_string(v: i64) -> (r: String)
    ensures
        r@ == decimal_chars(v as int),
{
    let mut digits: Vec<u8> = Vec::new();
    push_decimal_i64(&mut digits, v);
    proof {
        let t = decimal_text(v as int);
        assert(digits@ =~= t);
        let m: nat = if v < 0 {
            (-(v as int)) as nat
        } else {
            v as nat
        };
        lemma_digits_of_roundtrip(m);
        assert forall|i: int| 0 <= i < t.len() implies #[trigger] t[i] < 128u8 by {
            if v < 0 {
                if i > 0 {
                    assert(t[i] == digits_of(m)[i - 1]);
                    assert(crate::number::is_digit(digits_of(m)[i - 1]));
                }
            } else {
                assert(crate::number::is_digit(digits_of(m)[i]));
            }
        }
        lemma_ascii_valid_utf8(t);
    }
    match utf8_str(digits.as_slice()) {
        Some(s) => text(s),
        None => {
            assert(false);
            String::new()
        },
    }
}

/// The decimal text of `v`.
pub(crate) fn decimal_string_u64(v: u64) -> (r: String)
    ensures
        r@ == decimal_chars(v as int),
{
    let mut digits: Vec<u8> = Vec::new();
    push_decimal_u64(&mut digits, v);
    proof {
        let t = decimal_text(v as int);
        assert(digits@ =~= t);
        lemma_digits_of_roundtrip(v as nat);
        assert forall|i: int| 0 <= i < t.len() implies #[trigger] t[i] < 128u8 by {
            assert(crate::number::is_digit(digits_of(v as nat)[i]));
        }
        lemma_ascii_valid_utf8(t);
    }
    match utf8_str(digits.as_slice()) {
        Some(s) => text(s),
        None => {
            assert(false);
            String::new()
        },
    }
}

/// The bytes as a list of decimals joined by `, `.
fn byte_list_string(b: &[u8]) -> (r: String)
    ensures
        r@ == byte_list(b@),
{
    let mut out = String::new();
    let mut i: usize = 0;
    assert(b@.take(0) =~= Seq::<u8>::empty());
    while i < b.len()
        invariant
            i <= b@.len(),
            out@ == byte_list(b@.take(i as int)),
        decreases b@.len() - i,
    {
        assert(b@.take(i + 1).drop_last() =~= b@.take(i as int));
        assert(b@.take(i + 1).last() == b@[i as int]);
        if i > 0 {
            out.append(", ");
        }
        let d = decimal_string(b[i] as i64);
        out.append(d.as_str());
        i = i + 1;
        if i == 1 {
            assert(b@.take(1)[0] == b@[0]);
        }
    }
    assert(b@.take(i as int) =~= b@);
    out
}

impl Frame {
    /// How `Debug` prints the frame.
    pub fn debug_text(&self) -> (r: String)
        ensures
            r@ == debug_repr(self.model()),
        decreases self,
    {
        let mut out = String::new();
        match self {
            Frame::Simple(s) => {
                out.append("Simple(");
                out.append(quoted_debug(s.as_str()).as_str());
                out.append(")");
            },
            Frame::Error(s) => {
                out.append("Error(");
                out.append(quoted_debug(s.as_str()).as_str());
                out.append(")");
            },
            Frame::Integer(i) => {
                out.append("Integer(");
                out.append(decimal_string(*i).as_str());
                out.append(")");
            },
            Frame::Bulk(b) => {
                out.append("Bulk([");
                out.append(byte_list_string(b.as_slice()).as_str());
                out.append("])");
            },
            Frame::Null => {
                out.append("Null");
            },
            Frame::Array(frames) => {
                out.append("Array([");
                let ghost head = out@;
                let ghost ms = self.model()->Array_0;
                let mut inner = String::new();
                let mut i: usize = 0;
                assert(ms.take(0) =~= Seq::<FrameModel>::empty());
                while i < frames.len()
                    invariant
                        i <= frames@.len(),
                        *self == Frame::Array(*frames),
                        ms.len() == frames@.len(),
                        forall|j: int| 0 <= j < frames@.len() ==> ms[j] == #[trigger] frames@[j].model(),
                        inner@ == debug_list(ms.take(i as int)),
                    decreases frames@.len() - i,
                {
                    proof {
                        assert((*self)->Array_0 == *frames);
                        assert(decreases_to!(*self => (*self)->Array_0));
                        assert(decreases_to!(frames => frames@));
                        assert(0 <= i < frames@.len());
                        assert(decreases_to!(frames@ => frames@[i as int]));
                    }
                    assert(ms.take(i + 1).drop_last() =~= ms.take(i as int));
                    assert(ms.take(i + 1).last() == ms[i as int]);
                    if i > 0 {
                        inner.append(", ");
                    }
                    let t = frames[i].debug_text();
                    inner.append(t.as_str());
                    i = i + 1;
                    if i == 1 {
                        assert(ms.take(1)[0] == ms[0]);
                    }
                }
                assert(ms.take(i as int) =~= ms);
                out.append(inner.as_str());
                out.append("])");
            },
        }
        assert(out@ =~= debug_repr(self.model()));
        out
    }

    /// The human-readable rendering of the frame.
    pub fn display_text(&self) -> (r: String)
        ensures
            r@ == display_repr(self.model()),
        decreases self,
    {
        let mut out = String::new();
        match self {
            Frame::Simple(s) => {
                out.append("\"");
                out.append(s.as_str());
                out.append("\"");
            },
            Frame::Error(s) => {
                out.append("ERR: ");
                out.append(s.as_str());
            },
            Frame::Integer(i) => {
                out.append(decimal_string(*i).as_str());
            },
            Frame::Bulk(b) => match utf8_str(b.as_slice()) {
                Some(st) => {
                    out.append("\"");
                    out.append(st);
                    out.append("\"");
                },
                None => {
                    out.append("[");
                    out.append(byte_list_string(b.as_slice()).as_str());
                    out.append("]");
                },
            },
            Frame::Null => {
                out.append("(nil)");
            },
            Frame::Array(frames) => {
                out.append("[");
                let ghost ms = self.model()->Array_0;
                let mut inner = String::new();
                let mut i: usize = 0;
                assert(ms.take(0) =~= Seq::<FrameModel>::empty());
                while i < frames.len()
                    invariant
                        i <= frames@.len(),
                        *self == Frame::Array(*frames),
                        ms.len() == frames@.len(),
                        forall|j: int| 0 <= j < frames@.len() ==> ms[j] == #[trigger] frames@[j].model(),
                        inner@ == display_list(ms.take(i as int)),
                    decreases frames@.len() - i,
                {
                    proof {
                        assert((*self)->Array_0 == *frames);
                        assert(decreases_to!(*self => (*self)->Array_0));
                        assert(decreases_to!(frames => frames@));
                        assert(0 <= i < frames@.len());
                        assert(decreases_to!(frames@ => frames@[i as int]));
                    }
                    assert(ms.take(i + 1).drop_last() =~= ms.take(i as int));
                    assert(ms.take(i + 1).last() == ms[i as int]);
                    if i > 0 {
                        inner.append(", ");
                    }
                    let t = frames[i].display_text();
                    inner.append(t.as_str());
                    i = i + 1;
                    if i == 1 {
                        assert(ms.take(1)[0] == ms[0]);
                    }
                }
                assert(ms.take(i as int) =~= ms);
                out.append(inner.as_str());
                out.append("]");
            },
        }
        assert(out@ =~= display_repr(self.model()));
        out
    }
}

} // verus!
