//! What holds of the wire format as a whole: a decoded frame is the frame that was
//! encoded, whatever bytes follow it, and `parse` consumes exactly what `check`
//! measured.
use crate::frame::{
    check_at, check_items, crlf, crlf_at, decimal_at, encode, encode_all, find_crlf, line_at,
    parse_at, parse_items, ErrorModel, FrameModel,
};
use crate::number::{
    all_digits, decimal_text, digits_of, is_digit, lemma_decimal_roundtrip,
    lemma_digits_of_roundtrip, parse_i64_text,
};
use vstd::prelude::*;
use vstd::utf8::*;

verus! {

/// No CR LF pair inside the bytes.
pub open spec fn no_crlf(b: Seq<u8>) -> bool {
    forall|i: int| 0 <= i < b.len() - 1 ==> !(#[trigger] b[i] == 13u8 && b[i + 1] == 10u8)
}

/// A frame that `write_to_buf` can encode so that it decodes back: simple strings and
/// errors hold no CR LF, and lengths fit in the integers that carry them.
pub open spec fn well_formed(f: FrameModel) -> bool
    decreases f,
{
    match f {
        FrameModel::Simple(s) => no_crlf(encode_utf8(s)),
        FrameModel::Error(s) => no_crlf(encode_utf8(s)),
        FrameModel::Integer(v) => i64::MIN <= v <= i64::MAX,
        FrameModel::Null => true,
        FrameModel::Bulk(b) => b.len() <= i64::MAX && b.len() <= usize::MAX,
        FrameModel::Array(items) => items.len() <= i64::MAX && items.len() <= usize::MAX
            && all_well_formed(items),
    }
}

/// Every frame of the sequence is well formed.
pub open spec fn all_well_formed(items: Seq<FrameModel>) -> bool
    decreases items,
{
    if items.len() == 0 {
        true
    } else {
        all_well_formed(items.drop_last()) && well_formed(items.last())
    }
}

pub proof fn lemma_all_well_formed(items: Seq<FrameModel>)
    ensures
        all_well_formed(items) <==> forall|i: int|
            0 <= i < items.len() ==> #[trigger] well_formed(items[i]),
    decreases items.len(),
{
    if items.len() > 0 {
        lemma_all_well_formed(items.drop_last());
        if all_well_formed(items) {
            assert forall|i: int| 0 <= i < items.len() implies #[trigger] well_formed(items[i]) by {
                if i < items.len() - 1 {
                    assert(items.drop_last()[i] == items[i]);
                }
            }
        }
        if forall|i: int| 0 <= i < items.len() ==> #[trigger] well_formed(items[i]) {
            assert forall|i: int| 0 <= i < items.drop_last().len() implies #[trigger] well_formed(
                items.drop_last()[i],
            ) by {
                assert(items.drop_last()[i] == items[i]);
            }
            assert(well_formed(items[items.len() - 1]));
        }
    }
}

pub proof fn lemma_ascii_valid_utf8(b: Seq<u8>)
    requires
        forall|i: int| 0 <= i < b.len() ==> #[trigger] b[i] < 128u8,
    ensures
        valid_utf8(b),
    decreases b.len(),
{
    if b.len() > 0 {
        assert(is_leading_byte_width_1(b[0]));
        assert(pop_first_scalar(b) =~= b.drop_first());
        let t = b.drop_first();
        assert forall|i: int| 0 <= i < t.len() implies #[trigger] t[i] < 128u8 by {
            assert(t[i] == b[i + 1]);
        }
        lemma_ascii_valid_utf8(b.drop_first());
    }
}

/// Scanning for CR LF skips a stretch that holds none.
pub proof fn lemma_find_crlf_skip(buf: Seq<u8>, start: int, end: int)
    requires
        0 <= start <= end,
        end + 1 < buf.len(),
        forall|i: int| start <= i < end ==> !crlf_at(buf, i),
    ensures
        find_crlf(buf, start) == find_crlf(buf, end),
    decreases end - start,
{
    if start < end {
        lemma_find_crlf_skip(buf, start + 1, end);
    }
}

/// The line of `body` when `pre + body + CR LF + rest` is read from `pre.len()`.
pub proof fn lemma_line(pre: Seq<u8>, body: Seq<u8>, rest: Seq<u8>)
    requires
        no_crlf(body),
    ensures
        line_at(pre + body + crlf() + rest, pre.len() as int) == Some(
            (body, (pre.len() + body.len() + 2) as int),
        ),
{
    let buf = pre + body + crlf() + rest;
    let p = pre.len() as int;
    let e = p + body.len();
    assert forall|i: int| p <= i < e implies !crlf_at(buf, i) by {
        assert(buf[i] == body[i - p]);
        if i + 1 < e {
            assert(buf[i + 1] == body[i + 1 - p]);
        } else {
            assert(buf[i + 1] == 13u8);
        }
    }
    lemma_find_crlf_skip(buf, p, e);
    assert(crlf_at(buf, e));
    assert(buf.subrange(p, e) =~= body);
}

/// The decimal of `v` reads back as `v`.
pub proof fn lemma_decimal(pre: Seq<u8>, v: i64, rest: Seq<u8>)
    ensures
        decimal_at(pre + decimal_text(v as int) + crlf() + rest, pre.len() as int) == Ok::<
            (i64, int),
            ErrorModel,
        >((v, (pre.len() + decimal_text(v as int).len() + 2) as int)),
{
    let t = decimal_text(v as int);
    lemma_decimal_roundtrip(v);
    assert(no_crlf(t)) by {
        assert forall|i: int| 0 <= i < t.len() - 1 implies !(#[trigger] t[i] == 13u8 && t[i + 1]
            == 10u8) by {
            assert(t[i] != 13u8);
        }
    }
    lemma_line(pre, t, rest);
    assert forall|i: int| 0 <= i < t.len() implies #[trigger] t[i] < 128u8 by {
        if v < 0 {
            if i > 0 {
                lemma_digits_of_roundtrip((-(v as int)) as nat);
                assert(t[i] == digits_of((-(v as int)) as nat)[i - 1]);
                assert(is_digit(digits_of((-(v as int)) as nat)[i - 1]));
            }
        } else {
            lemma_digits_of_roundtrip(v as nat);
            assert(is_digit(digits_of(v as nat)[i]));
        }
    }
    lemma_ascii_valid_utf8(t);
}

/// Encoding the frames `[f] + tail` writes `f` first.
pub proof fn lemma_encode_all_front(f: FrameModel, tail: Seq<FrameModel>)
    ensures
        encode_all(seq![f] + tail) == encode(f) + encode_all(tail),
    decreases tail.len(),
{
    if tail.len() == 0 {
        assert(seq![f] + tail =~= seq![f]);
        assert(seq![f].drop_last() =~= Seq::<FrameModel>::empty());
        assert(encode_all(Seq::<FrameModel>::empty()) =~= Seq::<u8>::empty());
        assert(encode_all(seq![f]) == encode_all(seq![f].drop_last()) + encode(seq![f].last()));
        assert(encode_all(seq![f]) =~= encode(f));
        assert(encode(f) + encode_all(tail) =~= encode(f));
    } else {
        let all = seq![f] + tail;
        assert(all.drop_last() =~= seq![f] + tail.drop_last());
        assert(all.last() == tail.last());
        lemma_encode_all_front(f, tail.drop_last());
        assert(encode(f) + encode_all(tail) =~= encode(f) + encode_all(tail.drop_last()) + encode(
            tail.last(),
        ));
    }
}

/// A simple string or an error, encoded at `pre.len()`, reads back as itself.
proof fn lemma_roundtrip_line(pre: Seq<u8>, f: FrameModel, rest: Seq<u8>)
    requires
        well_formed(f),
        f is Simple || f is Error,
    ensures
        check_at(pre + encode(f) + rest, pre.len() as int) == Ok::<int, ErrorModel>(
            (pre.len() + encode(f).len()) as int,
        ),
        parse_at(pre + encode(f) + rest, pre.len() as int) == Ok::<(FrameModel, int), ErrorModel>(
            (f, (pre.len() + encode(f).len()) as int),
        ),
{
    let buf = pre + encode(f) + rest;
    let p = pre.len() as int;
    let (tag, s): (u8, Seq<char>) = match f {
        FrameModel::Simple(s) => (43u8, s),
        FrameModel::Error(s) => (45u8, s),
        _ => (0u8, Seq::empty()),
    };
    let body = encode_utf8(s);
    assert(encode(f) == seq![tag] + body + crlf());
    assert(buf =~= (pre + seq![tag]) + body + crlf() + rest);
    assert(buf[p] == tag);
    lemma_line(pre + seq![tag], body, rest);
    encode_utf8_valid_utf8(s);
    encode_utf8_decode_utf8(s);
}

/// An integer, encoded at `pre.len()`, reads back as itself.
proof fn lemma_roundtrip_integer(pre: Seq<u8>, v: i64, rest: Seq<u8>)
    ensures
        check_at(pre + encode(FrameModel::Integer(v as int)) + rest, pre.len() as int) == Ok::<
            int,
            ErrorModel,
        >((pre.len() + encode(FrameModel::Integer(v as int)).len()) as int),
        parse_at(pre + encode(FrameModel::Integer(v as int)) + rest, pre.len() as int) == Ok::<
            (FrameModel, int),
            ErrorModel,
        >(
            (
                FrameModel::Integer(v as int),
                (pre.len() + encode(FrameModel::Integer(v as int)).len()) as int,
            ),
        ),
{
    let f = FrameModel::Integer(v as int);
    let buf = pre + encode(f) + rest;
    let p = pre.len() as int;
    assert(buf =~= (pre + seq![58u8]) + decimal_text(v as int) + crlf() + rest);
    assert(buf[p] == 58u8);
    lemma_decimal(pre + seq![58u8], v, rest);
}

/// A null, encoded at `pre.len()`, reads back as itself.
proof fn lemma_roundtrip_null(pre: Seq<u8>, rest: Seq<u8>)
    ensures
        check_at(pre + encode(FrameModel::Null) + rest, pre.len() as int) == Ok::<int, ErrorModel>(
            (pre.len() + 5) as int,
        ),
        parse_at(pre + encode(FrameModel::Null) + rest, pre.len() as int) == Ok::<
            (FrameModel, int),
            ErrorModel,
        >((FrameModel::Null, (pre.len() + 5) as int)),
{
    let buf = pre + encode(FrameModel::Null) + rest;
    let p = pre.len() as int;
    let body = seq![45u8, 49u8];
    assert(buf =~= (pre + seq![36u8]) + body + crlf() + rest);
    assert(no_crlf(body));
    lemma_line(pre + seq![36u8], body, rest);
    assert(buf[p] == 36u8);
    assert(buf[p + 1] == 45u8);
}

/// A bulk string, encoded at `pre.len()`, reads back as itself.
proof fn lemma_roundtrip_bulk(pre: Seq<u8>, b: Seq<u8>, rest: Seq<u8>)
    requires
        b.len() <= i64::MAX,
        b.len() <= usize::MAX,
    ensures
        check_at(pre + encode(FrameModel::Bulk(b)) + rest, pre.len() as int) == Ok::<
            int,
            ErrorModel,
        >((pre.len() + encode(FrameModel::Bulk(b)).len()) as int),
        parse_at(pre + encode(FrameModel::Bulk(b)) + rest, pre.len() as int) == Ok::<
            (FrameModel, int),
            ErrorModel,
        >((FrameModel::Bulk(b), (pre.len() + encode(FrameModel::Bulk(b)).len()) as int)),
{
    let f = FrameModel::Bulk(b);
    let buf = pre + encode(f) + rest;
    let p = pre.len() as int;
    let n = b.len();
    let iv = n as i64;
    lemma_digits_of_roundtrip(n);
    assert(decimal_text(iv as int) == digits_of(n));
    assert(buf =~= (pre + seq![36u8]) + decimal_text(iv as int) + crlf() + (b + crlf() + rest));
    lemma_decimal(pre + seq![36u8], iv, b + crlf() + rest);
    assert(buf[p] == 36u8);
    assert(buf[p + 1] == digits_of(n)[0]);
    let q = p + 1 + digits_of(n).len() + 2;
    assert(buf.subrange(q, q + n) =~= b);
    assert(buf[q + n] == 13u8);
    assert(buf[q + n + 1] == 10u8);
}

/// An array, encoded at `pre.len()`, reads back as itself.
proof fn lemma_roundtrip_array(pre: Seq<u8>, items: Seq<FrameModel>, rest: Seq<u8>)
    requires
        well_formed(FrameModel::Array(items)),
    ensures
        check_at(pre + encode(FrameModel::Array(items)) + rest, pre.len() as int) == Ok::<
            int,
            ErrorModel,
        >((pre.len() + encode(FrameModel::Array(items)).len()) as int),
        parse_at(pre + encode(FrameModel::Array(items)) + rest, pre.len() as int) == Ok::<
            (FrameModel, int),
            ErrorModel,
        >(
            (
                FrameModel::Array(items),
                (pre.len() + encode(FrameModel::Array(items)).len()) as int,
            ),
        ),
    decreases items, 1int,
{
    let f = FrameModel::Array(items);
    let buf = pre + encode(f) + rest;
    let p = pre.len() as int;
    let n = items.len();
    let iv = n as i64;
    lemma_digits_of_roundtrip(n);
    assert(decimal_text(iv as int) == digits_of(n));
    let head = pre + seq![42u8] + digits_of(n) + crlf();
    assert(buf =~= (pre + seq![42u8]) + decimal_text(iv as int) + crlf() + (encode_all(items)
        + rest));
    lemma_decimal(pre + seq![42u8], iv, encode_all(items) + rest);
    assert(buf =~= head + encode_all(items) + rest);
    assert(buf[p] == 42u8);
    lemma_all_well_formed(items);
    lemma_items_at(head, items, rest);
}

/// A well-formed frame, encoded at `pre.len()` and followed by any bytes, is checked and
/// decoded as itself, and both stop right after it.
pub proof fn lemma_roundtrip_at(pre: Seq<u8>, f: FrameModel, rest: Seq<u8>)
    requires
        well_formed(f),
    ensures
        check_at(pre + encode(f) + rest, pre.len() as int) == Ok::<int, ErrorModel>(
            (pre.len() + encode(f).len()) as int,
        ),
        parse_at(pre + encode(f) + rest, pre.len() as int) == Ok::<(FrameModel, int), ErrorModel>(
            (f, (pre.len() + encode(f).len()) as int),
        ),
    decreases f, 2int,
{
    match f {
        FrameModel::Simple(_) => lemma_roundtrip_line(pre, f, rest),
        FrameModel::Error(_) => lemma_roundtrip_line(pre, f, rest),
        FrameModel::Integer(v) => lemma_roundtrip_integer(pre, v as i64, rest),
        FrameModel::Null => lemma_roundtrip_null(pre, rest),
        FrameModel::Bulk(b) => lemma_roundtrip_bulk(pre, b, rest),
        FrameModel::Array(items) => lemma_roundtrip_array(pre, items, rest),
    }
}

/// Well-formed frames encoded one after another are checked and decoded as themselves.
pub proof fn lemma_items_at(pre: Seq<u8>, items: Seq<FrameModel>, rest: Seq<u8>)
    requires
        forall|i: int| 0 <= i < items.len() ==> #[trigger] well_formed(items[i]),
    ensures
        check_items(pre + encode_all(items) + rest, pre.len() as int, items.len() as int)
            == Ok::<int, ErrorModel>((pre.len() + encode_all(items).len()) as int),
        parse_items(pre + encode_all(items) + rest, pre.len() as int, items.len() as int)
            == Ok::<(Seq<FrameModel>, int), ErrorModel>((items, (pre.len() + encode_all(items).len()) as int)),
    decreases items, 0int,
{
    if items.len() == 0 {
        assert(encode_all(items) =~= Seq::<u8>::empty());
        assert(items =~= Seq::<FrameModel>::empty());
    } else {
        let f = items[0];
        let tail = items.drop_first();
        assert(items =~= seq![f] + tail);
        lemma_encode_all_front(f, tail);
        let buf = pre + encode_all(items) + rest;
        assert(buf =~= pre + encode(f) + (encode_all(tail) + rest));
        assert(decreases_to!(items => items[0]));
        lemma_roundtrip_at(pre, f, encode_all(tail) + rest);
        let pre2 = pre + encode(f);
        assert(buf =~= pre2 + encode_all(tail) + rest);
        assert forall|i: int| 0 <= i < tail.len() implies #[trigger] well_formed(tail[i]) by {
            assert(tail[i] == items[i + 1]);
        }
        lemma_items_at(pre2, tail, rest);
        assert(encode(f).len() > 0);
        assert(seq![f] + tail =~= items);
    }
}

/// Round trip: every well-formed frame, written by `write_to_buf` and followed by any
/// further bytes (a pipelined request, say), is found complete by `check` and decoded by
/// `parse` as the same frame, both stopping right after its encoding.
pub proof fn law_write_then_parse(f: FrameModel, rest: Seq<u8>)
    requires
        well_formed(f),
    ensures
        check_at(encode(f) + rest, 0) == Ok::<int, ErrorModel>(encode(f).len() as int),
        parse_at(encode(f) + rest, 0) == Ok::<(FrameModel, int), ErrorModel>(
            (f, encode(f).len() as int),
        ),
{
    lemma_roundtrip_at(Seq::<u8>::empty(), f, rest);
    assert(Seq::<u8>::empty() + encode(f) + rest =~= encode(f) + rest);
}

/// `check` and `parse` agree at `pos` (see `law_check_parse_agree`).
pub open spec fn agree(c: Result<int, ErrorModel>, p: Result<(FrameModel, int), ErrorModel>) -> bool {
    &&& (c matches Ok(n) ==> (p matches Ok((_, m)) && m == n) || (p matches Err(
        ErrorModel::Other(_),
    )))
    &&& (p matches Ok((_, m)) ==> c == Ok::<int, ErrorModel>(m))
}

/// The same agreement for runs of frames.
pub open spec fn agree_items(
    c: Result<int, ErrorModel>,
    p: Result<(Seq<FrameModel>, int), ErrorModel>,
) -> bool {
    &&& (c matches Ok(n) ==> (p matches Ok((_, m)) && m == n) || (p matches Err(
        ErrorModel::Other(_),
    )))
    &&& (p matches Ok((_, m)) ==> c == Ok::<int, ErrorModel>(m))
}

proof fn lemma_agree_items(buf: Seq<u8>, pos: int, count: int)
    ensures
        agree_items(check_items(buf, pos, count), parse_items(buf, pos, count)),
    decreases buf.len() - pos, 1int, count,
{
    if count > 0 {
        lemma_agree_at(buf, pos);
        match check_at(buf, pos) {
            Ok(p2) => {
                if pos < p2 <= buf.len() {
                    lemma_agree_items(buf, p2, count - 1);
                }
            },
            Err(_) => {},
        }
    }
}

proof fn lemma_agree_at(buf: Seq<u8>, pos: int)
    ensures
        agree(check_at(buf, pos), parse_at(buf, pos)),
    decreases buf.len() - pos, 0int, 0int,
{
    if !(pos < 0 || pos >= buf.len()) && buf[pos] == 42u8 {
        match decimal_at(buf, pos + 1) {
            Ok((v, n)) => {
                if v >= 0 && pos < n <= buf.len() {
                    lemma_agree_items(buf, n, v as int);
                }
            },
            Err(_) => {},
        }
    }
}

/// `check` and `parse` agree on every buffer and position: where `check` finds a whole
/// frame, `parse` either decodes one that ends at the same place or fails with a format
/// error (never for want of data); and where `parse` decodes a frame, `check` finds one
/// that ends at the same place. This is what lets a reader check first, then parse and
/// drop exactly the checked bytes.
pub proof fn law_check_parse_agree(buf: Seq<u8>, pos: int)
    ensures
        check_at(buf, pos) matches Ok(n) ==> (parse_at(buf, pos) matches Ok((_, m)) && m == n)
            || (parse_at(buf, pos) matches Err(ErrorModel::Other(_))),
        parse_at(buf, pos) matches Ok((_, m)) ==> check_at(buf, pos) == Ok::<int, ErrorModel>(m),
{
    lemma_agree_at(buf, pos);
}

/// Scanning for CR LF finds none in a stretch that holds none up to the end.
proof fn lemma_no_crlf_from(buf: Seq<u8>, start: int)
    requires
        forall|i: int| start <= i && i + 1 < buf.len() ==> !crlf_at(buf, i),
    ensures
        find_crlf(buf, start) is None,
    decreases buf.len() - start,
{
    if !(start < 0 || start + 1 >= buf.len()) {
        lemma_no_crlf_from(buf, start + 1);
    }
}

/// A line cut before the end of its CR LF has no end yet.
proof fn lemma_line_cut(pre: Seq<u8>, body: Seq<u8>, k: int)
    requires
        no_crlf(body),
        0 <= k < body.len() + 2,
    ensures
        line_at(pre + (body + crlf()).take(k), pre.len() as int) is None,
{
    let line = body + crlf();
    let buf = pre + line.take(k);
    let p = pre.len() as int;
    assert forall|i: int| p <= i && i + 1 < buf.len() implies !crlf_at(buf, i) by {
        let x = i - p;
        assert(buf[i] == line[x]);
        assert(buf[i + 1] == line[x + 1]);
        if x + 1 < body.len() {
            assert(line[x] == body[x]);
            assert(line[x + 1] == body[x + 1]);
            assert(!(body[x] == 13u8 && body[x + 1] == 10u8));
        } else {
            assert(line[x + 1] == 13u8);
        }
    }
    lemma_no_crlf_from(buf, p);
}

/// The decimal digits of a count hold no CR LF, and start with a digit.
proof fn lemma_digits_line(n: nat)
    ensures
        no_crlf(digits_of(n)),
        digits_of(n).len() > 0,
        is_digit(digits_of(n)[0]),
{
    lemma_digits_of_roundtrip(n);
    let d = digits_of(n);
    assert forall|i: int| 0 <= i < d.len() - 1 implies !(#[trigger] d[i] == 13u8 && d[i + 1] == 10u8) by {
        assert(is_digit(d[i]));
    }
}

/// A well-formed frame cut short anywhere, at `pre.len()`, is checked as incomplete.
proof fn lemma_cut_at(pre: Seq<u8>, f: FrameModel, k: int)
    requires
        well_formed(f),
        0 <= k < encode(f).len(),
    ensures
        check_at(pre + encode(f).take(k), pre.len() as int) == Err::<int, ErrorModel>(ErrorModel::Incomplete),
    decreases f, 1int,
{
    let buf = pre + encode(f).take(k);
    let p = pre.len() as int;
    if k == 0 {
        assert(buf =~= pre);
    } else {
        assert(buf[p] == encode(f)[0]);
        match f {
            FrameModel::Simple(s) => {
                let body = encode_utf8(s);
                assert(encode(f) == seq![43u8] + body + crlf());
                assert(buf =~= (pre + seq![43u8]) + (body + crlf()).take(k - 1));
                lemma_line_cut(pre + seq![43u8], body, k - 1);
            },
            FrameModel::Error(s) => {
                let body = encode_utf8(s);
                assert(encode(f) == seq![45u8] + body + crlf());
                assert(buf =~= (pre + seq![45u8]) + (body + crlf()).take(k - 1));
                lemma_line_cut(pre + seq![45u8], body, k - 1);
            },
            FrameModel::Integer(v) => {
                let t = decimal_text(v);
                lemma_decimal_roundtrip(v as i64);
                assert(no_crlf(t)) by {
                    assert forall|i: int| 0 <= i < t.len() - 1 implies !(#[trigger] t[i] == 13u8 && t[i + 1]
                        == 10u8) by {
                        assert(t[i] != 13u8);
                    }
                }
                assert(encode(f) == seq![58u8] + t + crlf());
                assert(buf =~= (pre + seq![58u8]) + (t + crlf()).take(k - 1));
                lemma_line_cut(pre + seq![58u8], t, k - 1);
            },
            FrameModel::Null => {
                let body = seq![45u8, 49u8];
                assert(encode(f) =~= seq![36u8] + body + crlf());
                if k >= 2 {
                    assert(buf =~= (pre + seq![36u8]) + (body + crlf()).take(k - 1));
                    assert(buf[p + 1] == 45u8);
                    assert(no_crlf(body));
                    lemma_line_cut(pre + seq![36u8], body, k - 1);
                }
            },
            FrameModel::Bulk(b) => {
                let n = b.len();
                let d = digits_of(n);
                lemma_digits_line(n);
                lemma_digits_of_roundtrip(n);
                let iv = n as i64;
                assert(decimal_text(iv as int) == d);
                let hlen = 1 + d.len() + 2;
                assert(encode(f) == seq![36u8] + d + crlf() + b + crlf());
                if k >= 2 && k < hlen {
                    assert(buf =~= (pre + seq![36u8]) + (d + crlf()).take(k - 1));
                    assert(buf[p + 1] == d[0]);
                    lemma_line_cut(pre + seq![36u8], d, k - 1);
                } else if k >= hlen {
                    let rest = (b + crlf()).take(k - hlen);
                    assert(buf =~= (pre + seq![36u8]) + decimal_text(iv as int) + crlf() + rest);
                    lemma_decimal(pre + seq![36u8], iv, rest);
                    assert(buf[p + 1] == d[0]);
                }
            },
            FrameModel::Array(items) => {
                let n = items.len();
                let d = digits_of(n);
                lemma_digits_line(n);
                lemma_digits_of_roundtrip(n);
                let iv = n as i64;
                assert(decimal_text(iv as int) == d);
                let hlen = 1 + d.len() + 2;
                assert(encode(f) == seq![42u8] + d + crlf() + encode_all(items));
                if k < hlen {
                    assert(buf =~= (pre + seq![42u8]) + (d + crlf()).take(k - 1));
                    lemma_line_cut(pre + seq![42u8], d, k - 1);
                } else {
                    let rest = encode_all(items).take(k - hlen);
                    assert(buf =~= (pre + seq![42u8]) + decimal_text(iv as int) + crlf() + rest);
                    lemma_decimal(pre + seq![42u8], iv, rest);
                    let head = pre + seq![42u8] + d + crlf();
                    assert(buf =~= head + rest);
                    lemma_all_well_formed(items);
                    lemma_items_cut(head, items, k - hlen);
                }
            },
        }
    }
}

/// Well-formed frames one after another, cut short anywhere, are checked as
/// incomplete.
proof fn lemma_items_cut(pre: Seq<u8>, items: Seq<FrameModel>, j: int)
    requires
        forall|i: int| 0 <= i < items.len() ==> #[trigger] well_formed(items[i]),
        0 <= j < encode_all(items).len(),
    ensures
        check_items(pre + encode_all(items).take(j), pre.len() as int, items.len() as int) == Err::<
            int,
            ErrorModel,
        >(ErrorModel::Incomplete),
    decreases items, 0int,
{
    if items.len() == 0 {
        assert(encode_all(items) =~= Seq::<u8>::empty());
    } else {
        let f = items[0];
        let tail = items.drop_first();
        assert(items =~= seq![f] + tail);
        lemma_encode_all_front(f, tail);
        let e = encode(f);
        assert(decreases_to!(items => items[0]));
        assert(well_formed(items[0]));
        let buf = pre + encode_all(items).take(j);
        if j < e.len() {
            assert(buf =~= pre + e.take(j));
            lemma_cut_at(pre, f, j);
        } else {
            let rest = encode_all(tail).take(j - e.len());
            assert(buf =~= pre + e + rest);
            lemma_roundtrip_at(pre, f, rest);
            let pre2 = pre + e;
            assert(buf =~= pre2 + encode_all(tail).take(j - e.len()));
            assert forall|i: int| 0 <= i < tail.len() implies #[trigger] well_formed(tail[i]) by {
                assert(tail[i] == items[i + 1]);
            }
            assert(e.len() > 0);
            lemma_items_cut(pre2, tail, j - e.len());
        }
    }
}

/// A request cut short is never mistaken for a whole one: every proper prefix of a
/// well-formed frame's encoding is checked as incomplete (more data is needed).
pub proof fn law_prefix_incomplete(f: FrameModel, k: int)
    requires
        well_formed(f),
        0 <= k < encode(f).len(),
    ensures
        check_at(encode(f).take(k), 0) == Err::<int, ErrorModel>(ErrorModel::Incomplete),
{
    lemma_cut_at(Seq::<u8>::empty(), f, k);
    assert(Seq::<u8>::empty() + encode(f).take(k) =~= encode(f).take(k));
}

} // verus!
