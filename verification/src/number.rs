//! Decimal integers as they travel in the protocol: the text that `str::parse`
//! accepts for Rust's integer types, and the text that `to_string` prints.
use vstd::prelude::*;

verus! {

/// An ASCII digit.
pub open spec fn is_digit(b: u8) -> bool {
    48 <= b <= 57
}

/// Every byte is an ASCII digit.
pub open spec fn all_digits(s: Seq<u8>) -> bool {
    forall|i: int| 0 <= i < s.len() ==> is_digit(#[trigger] s[i])
}

/// The value of a run of ASCII digits, most significant first.
pub open spec fn digits_value(s: Seq<u8>) -> nat
    decreases s.len(),
{
    if s.len() == 0 {
        0
    } else {
        digits_value(s.drop_last()) * 10 + ((s.last() - 48) as nat)
    }
}

/// What `str::parse` gives for an integer type: an optional `+` (and `-` where the
/// type is signed), then at least one digit. The range check is the caller's.
pub open spec fn parse_int_text(s: Seq<u8>, signed: bool) -> Option<int> {
    let neg = signed && s.len() > 0 && s[0] == 45u8;
    let d = if s.len() > 0 && (s[0] == 43u8 || neg) {
        s.skip(1)
    } else {
        s
    };
    if d.len() == 0 || !all_digits(d) {
        None
    } else if neg {
        Some(-(digits_value(d) as int))
    } else {
        Some(digits_value(d) as int)
    }
}

/// `s.parse::<u64>()` on the text `s`.
pub open spec fn parse_u64_text(s: Seq<u8>) -> Option<u64> {
    match parse_int_text(s, false) {
        Some(v) => if v <= u64::MAX {
            Some(v as u64)
        } else {
            None
        },
        None => None,
    }
}

/// `s.parse::<usize>()` on the text `s`.
pub open spec fn parse_usize_text(s: Seq<u8>) -> Option<usize> {
    match parse_int_text(s, false) {
        Some(v) => if v <= usize::MAX {
            Some(v as usize)
        } else {
            None
        },
        None => None,
    }
}

/// `s.parse::<i64>()` on the text `s`.
pub open spec fn parse_i64_text(s: Seq<u8>) -> Option<i64> {
    match parse_int_text(s, true) {
        Some(v) => if i64::MIN <= v <= i64::MAX {
            Some(v as i64)
        } else {
            None
        },
        None => None,
    }
}

/// The decimal digits of `n`, without leading zeros.
pub open spec fn digits_of(n: nat) -> Seq<u8>
    decreases n,
{
    if n < 10 {
        seq![(48 + n) as u8]
    } else {
        digits_of(n / 10).push((48 + n % 10) as u8)
    }
}

/// The text that `to_string` prints for the integer `v`.
pub open spec fn decimal_text(v: int) -> Seq<u8> {
    if v < 0 {
        seq![45u8] + digits_of((-v) as nat)
    } else {
        digits_of(v as nat)
    }
}

pub proof fn lemma_digits_value_prefix(s: Seq<u8>, k: int)
    requires
        0 <= k <= s.len(),
    ensures
        digits_value(s.take(k)) <= digits_value(s),
    decreases s.len(),
{
    if k < s.len() {
        assert(s.drop_last().take(k) =~= s.take(k));
        lemma_digits_value_prefix(s.drop_last(), k);
    } else {
        assert(s.take(k) =~= s);
    }
}

pub proof fn lemma_digits_of_roundtrip(n: nat)
    ensures
        digits_of(n).len() > 0,
        all_digits(digits_of(n)),
        digits_value(digits_of(n)) == n,
        digits_of(n)[0] != 45u8,
        digits_of(n)[0] != 43u8,
    decreases n,
{
    if n < 10 {
        assert(digits_of(n).drop_last() =~= Seq::<u8>::empty());
        assert(digits_of(n).last() - 48 == n);
        assert(digits_value(digits_of(n).drop_last()) == 0);
        assert(digits_value(digits_of(n)) == n);
    } else {
        lemma_digits_of_roundtrip(n / 10);
        let d = digits_of(n);
        assert(d.drop_last() =~= digits_of(n / 10));
        assert((n / 10) * 10 + n % 10 == n) by (nonlinear_arith);
        assert(d[0] == digits_of(n / 10)[0]);
        assert(d.last() == (48 + n % 10) as u8);
        assert(d.last() - 48 == n % 10);
        assert(digits_value(d) == digits_value(digits_of(n / 10)) * 10 + ((d.last() - 48) as nat));
        assert(digits_value(d) == n);
        assert(all_digits(d)) by {
            assert forall|i: int| 0 <= i < d.len() implies is_digit(#[trigger] d[i]) by {
                if i < d.len() - 1 {
                    assert(d[i] == digits_of(n / 10)[i]);
                }
            }
        }
    }
}

/// `parse::<i64>` reads back what `to_string` printed.
pub proof fn lemma_decimal_roundtrip(v: i64)
    ensures
        parse_i64_text(decimal_text(v as int)) == Some(v),
        decimal_text(v as int).len() > 0,
        forall|i: int|
            0 <= i < decimal_text(v as int).len() ==> #[trigger] decimal_text(v as int)[i] != 13u8,
{
    if v < 0 {
        let m = (-(v as int)) as nat;
        lemma_digits_of_roundtrip(m);
        let t = decimal_text(v as int);
        assert(t.skip(1) =~= digits_of(m));
        assert forall|i: int| 0 <= i < t.len() implies #[trigger] t[i] != 13u8 by {
            if i > 0 {
                assert(t[i] == digits_of(m)[i - 1]);
                assert(is_digit(digits_of(m)[i - 1]));
            }
        }
    } else {
        let m = v as nat;
        lemma_digits_of_roundtrip(m);
        let t = decimal_text(v as int);
        assert forall|i: int| 0 <= i < t.len() implies #[trigger] t[i] != 13u8 by {
            assert(is_digit(t[i]));
        }
    }
}

/// Reads the digits `s[start..end]` as an unsigned value, or `None` where one is not a
/// digit, the run is empty, or the value does not fit in a `u64`.
fn parse_digit_run(s: &[u8], start: usize, end: usize) -> (r: Option<u64>)
    requires
        start <= end <= s@.len(),
    ensures
        match r {
            Some(v) => {
                &&& start < end
                &&& all_digits(s@.subrange(start as int, end as int))
                &&& v as nat == digits_value(s@.subrange(start as int, end as int))
            },
            None => {
                ||| start == end
                ||| !all_digits(s@.subrange(start as int, end as int))
                ||| digits_value(s@.subrange(start as int, end as int)) > u64::MAX
            },
        },
{
    if start == end {
        return None;
    }
    let ghost d = s@.subrange(start as int, end as int);
    let mut acc: u64 = 0;
    let mut i = start;
    while i < end
        invariant
            start <= i <= end <= s@.len(),
            d == s@.subrange(start as int, end as int),
            all_digits(s@.subrange(start as int, i as int)),
            acc as nat == digits_value(s@.subrange(start as int, i as int)),
        decreases end - i,
    {
        let b = s[i];
        proof {
            assert(s@.subrange(start as int, i + 1).drop_last() =~= s@.subrange(
                start as int,
                i as int,
            ));
        }
        if b < 48 || b > 57 {
            assert(!is_digit(d[i - start]));
            return None;
        }
        let digit = (b - 48) as u64;
        let next = match acc.checked_mul(10) {
            Some(m) => m.checked_add(digit),
            None => None,
        };
        match next {
            Some(n) => {
                acc = n;
            },
            None => {
                proof {
                    let pre = s@.subrange(start as int, i + 1);
                    assert(d.take(i + 1 - start) =~= pre);
                    lemma_digits_value_prefix(d, i + 1 - start);
                    if all_digits(d) {
                        assert(digits_value(pre) > u64::MAX);
                    }
                }
                return None;
            },
        }
        i = i + 1;
        proof {
            let cur = s@.subrange(start as int, i as int);
            assert forall|j: int| 0 <= j < cur.len() implies is_digit(#[trigger] cur[j]) by {
                if j < cur.len() - 1 {
                    assert(cur[j] == s@.subrange(start as int, i - 1)[j]);
                }
            }
        }
    }
    Some(acc)
}

/// `s.parse::<u64>()` on the text `s[start..end]`.
pub fn parse_u64_bytes(s: &[u8], start: usize, end: usize) -> (r: Option<u64>)
    requires
        start <= end <= s@.len(),
    ensures
        r == parse_u64_text(s@.subrange(start as int, end as int)),
{
    let ghost t = s@.subrange(start as int, end as int);
    let mut from = start;
    if start < end && s[start] == 43 {
        from = start + 1;
    }
    proof {
        assert(t.skip((from - start) as int) =~= s@.subrange(from as int, end as int));
        if from == start {
            assert(t =~= s@.subrange(from as int, end as int));
        }
    }
    parse_digit_run(s, from, end)
}

/// `s.parse::<usize>()` on the text `s[start..end]`.
pub fn parse_usize_bytes(s: &[u8], start: usize, end: usize) -> (r: Option<usize>)
    requires
        start <= end <= s@.len(),
    ensures
        r == parse_usize_text(s@.subrange(start as int, end as int)),
{
    match parse_u64_bytes(s, start, end) {
        Some(v) => {
            if (v as u128) <= (usize::MAX as u128) {
                Some(v as usize)
            } else {
                None
            }
        },
        None => {
            proof {
                let t = s@.subrange(start as int, end as int);
                if let Some(w) = parse_int_text(t, false) {
                    assert(w > u64::MAX);
                }
            }
            None
        },
    }
}

/// `t.parse::<usize>()` on the whole of `t`.
pub fn parse_usize_all(t: &[u8]) -> (r: Option<usize>)
    ensures
        r == parse_usize_text(t@),
{
    assert(t@.subrange(0, t@.len() as int) =~= t@);
    parse_usize_bytes(t, 0, t.len())
}

/// `s.parse::<i64>()` on the text `s[start..end]`.
pub fn parse_i64_bytes(s: &[u8], start: usize, end: usize) -> (r: Option<i64>)
    requires
        start <= end <= s@.len(),
    ensures
        r == parse_i64_text(s@.subrange(start as int, end as int)),
{
    let ghost t = s@.subrange(start as int, end as int);
    let mut from = start;
    let mut neg = false;
    if start < end && (s[start] == 43 || s[start] == 45) {
        neg = s[start] == 45;
        from = start + 1;
    }
    proof {
        assert(t.skip((from - start) as int) =~= s@.subrange(from as int, end as int));
        if from == start {
            assert(t =~= s@.subrange(from as int, end as int));
        }
    }
    match parse_digit_run(s, from, end) {
        Some(m) => {
            if neg {
                if m <= 9223372036854775808u64 {
                    if m == 9223372036854775808u64 {
                        Some(i64::MIN)
                    } else {
                        Some(-(m as i64))
                    }
                } else {
                    None
                }
            } else {
                if m <= 9223372036854775807u64 {
                    Some(m as i64)
                } else {
                    None
                }
            }
        },
        None => None,
    }
}

/// Appends the decimal digits of `v`.
pub fn push_decimal_u64(dst: &mut Vec<u8>, v: u64)
    ensures
        final(dst)@ == old(dst)@ + digits_of(v as nat),
    decreases v,
{
    if v >= 10 {
        push_decimal_u64(dst, v / 10);
    }
    dst.push(48 + (v % 10) as u8);
    proof {
        if v >= 10 {
            assert(digits_of(v as nat) == digits_of((v / 10) as nat).push((48 + v % 10) as u8));
        }
    }
    assert(final(dst)@ =~= old(dst)@ + digits_of(v as nat));
}

/// Appends the text that `to_string` prints for `v`.
pub fn push_decimal_i64(dst: &mut Vec<u8>, v: i64)
    ensures
        final(dst)@ == old(dst)@ + decimal_text(v as int),
{
    if v < 0 {
        dst.push(45);
        let m: u64 = if v == i64::MIN {
            9223372036854775808u64
        } else {
            (-v) as u64
        };
        push_decimal_u64(dst, m);
        assert(final(dst)@ =~= old(dst)@ + decimal_text(v as int));
    } else {
        push_decimal_u64(dst, v as u64);
    }
}

} // verus!
