//! Binary-safe glob patterns, as KEYS and SCAN MATCH read them.
//!
//! `*` matches any run of bytes, `?` any one byte, `[...]` one byte of a class
//! (`[^...]` or `[!...]` one byte outside it, `a-z` a range), and `\` makes the next
//! byte literal. An unclosed class matches nothing (or, negated, any byte).
use vstd::prelude::*;

verus! {

pub open spec fn is_range_at(pat: Seq<u8>, q: int) -> bool {
    q + 2 < pat.len() && pat[q + 1] == 45u8 && pat[q + 2] != 93u8
}

/// Some item of the class body that starts at `q` (up to its `]`) matches `c`.
pub open spec fn class_hit(pat: Seq<u8>, q: int, c: u8) -> bool
    decreases pat.len() - q,
{
    if q < 0 || q >= pat.len() || pat[q] == 93u8 {
        false
    } else if is_range_at(pat, q) {
        (pat[q] <= c && c <= pat[q + 2]) || class_hit(pat, q + 3, c)
    } else {
        pat[q] == c || class_hit(pat, q + 1, c)
    }
}

/// The class body that starts at `q` has its `]`.
pub open spec fn class_closed(pat: Seq<u8>, q: int) -> bool
    decreases pat.len() - q,
{
    if q < 0 || q >= pat.len() {
        false
    } else if pat[q] == 93u8 {
        true
    } else if is_range_at(pat, q) {
        class_closed(pat, q + 3)
    } else {
        class_closed(pat, q + 1)
    }
}

/// Where the class body that starts at `q` ends: after its `]`, or at the end of the
/// pattern.
pub open spec fn class_end(pat: Seq<u8>, q: int) -> int
    decreases pat.len() - q,
{
    if q < 0 || q >= pat.len() {
        q
    } else if pat[q] == 93u8 {
        q + 1
    } else if is_range_at(pat, q) {
        class_end(pat, q + 3)
    } else {
        class_end(pat, q + 1)
    }
}

/// The class at `p` (which holds `[`) is negated.
pub open spec fn class_negated(pat: Seq<u8>, p: int) -> bool {
    p + 1 < pat.len() && (pat[p + 1] == 94u8 || pat[p + 1] == 33u8)
}

/// Where the body of the class at `p` starts.
pub open spec fn class_body(pat: Seq<u8>, p: int) -> int {
    if class_negated(pat, p) {
        p + 2
    } else {
        p + 1
    }
}

/// The pattern element at `p` (not a `*`) matches the byte `c`.
pub open spec fn token_ok(pat: Seq<u8>, p: int, c: u8) -> bool {
    if pat[p] == 63u8 {
        true
    } else if pat[p] == 91u8 {
        (class_hit(pat, class_body(pat, p), c) && class_closed(pat, class_body(pat, p)))
            != class_negated(pat, p)
    } else if pat[p] == 92u8 {
        p + 1 < pat.len() && pat[p + 1] == c
    } else {
        pat[p] == c
    }
}

/// Where the pattern element at `p` (not a `*`) ends.
pub open spec fn token_next(pat: Seq<u8>, p: int) -> int {
    if pat[p] == 63u8 {
        p + 1
    } else if pat[p] == 91u8 {
        class_end(pat, class_body(pat, p))
    } else if pat[p] == 92u8 {
        p + 2
    } else {
        p + 1
    }
}

/// The pattern from `p` matches the text from `t`.
pub open spec fn glob_from(pat: Seq<u8>, text: Seq<u8>, p: int, t: int) -> bool
    decreases pat.len() - p, text.len() - t,
{
    if p < 0 || t < 0 || t > text.len() {
        false
    } else if p >= pat.len() {
        t == text.len()
    } else if pat[p] == 42u8 {
        glob_from(pat, text, p + 1, t) || (t < text.len() && glob_from(pat, text, p, t + 1))
    } else if t >= text.len() {
        false
    } else {
        let next = token_next(pat, p);
        if p < next <= pat.len() {
            token_ok(pat, p, text[t]) && glob_from(pat, text, next, t + 1)
        } else {
            false
        }
    }
}

/// The whole pattern matches the whole text.
pub open spec fn glob_matches(pat: Seq<u8>, text: Seq<u8>) -> bool {
    glob_from(pat, text, 0, 0)
}

pub proof fn lemma_class_end(pat: Seq<u8>, q: int)
    requires
        0 <= q <= pat.len(),
    ensures
        q <= class_end(pat, q) <= pat.len(),
    decreases pat.len() - q,
{
    if q < pat.len() && pat[q] != 93u8 {
        if is_range_at(pat, q) {
            lemma_class_end(pat, q + 3);
        } else {
            lemma_class_end(pat, q + 1);
        }
    }
}

pub proof fn lemma_token_next(pat: Seq<u8>, p: int)
    requires
        0 <= p < pat.len(),
        pat[p] != 42u8,
        pat[p] != 92u8 || p + 1 < pat.len(),
    ensures
        p < token_next(pat, p) <= pat.len(),
{
    if pat[p] == 91u8 {
        lemma_class_end(pat, class_body(pat, p));
    }
}

/// A star matches from `t` exactly when the rest of the pattern matches from some
/// `k >= t`.
pub proof fn lemma_star_unfold(pat: Seq<u8>, text: Seq<u8>, sp: int, t: int, k: int)
    requires
        0 <= sp < pat.len(),
        pat[sp] == 42u8,
        0 <= t <= k <= text.len(),
        glob_from(pat, text, sp + 1, k),
    ensures
        glob_from(pat, text, sp, t),
    decreases k - t,
{
    if t < k {
        lemma_star_unfold(pat, text, sp, t + 1, k);
    }
}

/// Where a star matches from `t`, the rest of the pattern matches from some `k >= t`.
pub proof fn lemma_star_witness(pat: Seq<u8>, text: Seq<u8>, sp: int, t: int) -> (k: int)
    requires
        0 <= sp < pat.len(),
        pat[sp] == 42u8,
        0 <= t <= text.len(),
        glob_from(pat, text, sp, t),
    ensures
        t <= k <= text.len(),
        glob_from(pat, text, sp + 1, k),
    decreases text.len() - t,
{
    if glob_from(pat, text, sp + 1, t) {
        t
    } else {
        lemma_star_witness(pat, text, sp, t + 1)
    }
}

/// From any place in the text on, a pattern of a single star matches.
pub proof fn lemma_star_from(text: Seq<u8>, t: int)
    requires
        0 <= t <= text.len(),
    ensures
        glob_from(seq![42u8], text, 0, t),
    decreases text.len() - t,
{
    let pat = seq![42u8];
    if t < text.len() {
        lemma_star_from(text, t + 1);
    } else {
        assert(glob_from(pat, text, 1, t));
    }
}

/// The pattern `*` matches every text, the empty one included.
pub proof fn law_star_matches_all(text: Seq<u8>)
    ensures
        glob_matches(seq![42u8], text),
{
    lemma_star_from(text, 0);
}

/// At the end of the text only stars remain to match.
pub open spec fn only_stars(pat: Seq<u8>, p: int) -> bool {
    forall|i: int| p <= i < pat.len() ==> pat[i] == 42u8
}

pub proof fn lemma_end_of_text(pat: Seq<u8>, text: Seq<u8>, p: int)
    requires
        0 <= p <= pat.len(),
    ensures
        glob_from(pat, text, p, text.len() as int) == only_stars(pat, p),
    decreases pat.len() - p,
{
    if p < pat.len() {
        lemma_end_of_text(pat, text, p + 1);
    }
}

/// The state of the matcher when a star is pending: `sp` is the star, and the pattern
/// from `sp + 1` has been matched byte for byte against `text[st..t]`, up to `p`.
pub open spec fn segment(pat: Seq<u8>, text: Seq<u8>, sp: int, st: int, p: int, t: int) -> bool {
    &&& 0 <= sp < pat.len()
    &&& pat[sp] == 42u8
    &&& sp < p <= pat.len()
    &&& 0 <= st <= t <= text.len()
    &&& glob_from(pat, text, sp + 1, st) == glob_from(pat, text, p, t)
    &&& forall|k: int|
        st <= k <= text.len() && #[trigger] glob_from(pat, text, sp + 1, k) ==> k + (t - st)
            <= text.len() && glob_from(pat, text, p, k + (t - st))
}

/// Scans the class body that starts at `q` against the byte `c`.
fn scan_class(pat: &[u8], q: usize, c: u8) -> (r: (bool, bool, usize))
    requires
        q <= pat@.len(),
    ensures
        r.0 == class_hit(pat@, q as int, c),
        r.1 == class_closed(pat@, q as int),
        r.2 == class_end(pat@, q as int),
{
    let len = pat.len();
    let mut p = q;
    let mut matched = false;
    while p < len
        invariant
            q <= p <= len,
            len == pat@.len(),
            class_hit(pat@, q as int, c) == (matched || class_hit(pat@, p as int, c)),
            class_closed(pat@, q as int) == class_closed(pat@, p as int),
            class_end(pat@, q as int) == class_end(pat@, p as int),
        decreases len - p,
    {
        if pat[p] == 93 {
            return (matched, true, p + 1);
        }
        if len - p > 2 && pat[p + 1] == 45 && pat[p + 2] != 93 {
            let start = pat[p];
            let end = pat[p + 2];
            if c >= start && c <= end {
                matched = true;
            }
            p = p + 3;
        } else {
            if pat[p] == c {
                matched = true;
            }
            p = p + 1;
        }
    }
    (matched, false, p)
}

/// The glob `pattern` matches the whole of `text`.
pub fn glob_match(pattern: &[u8], text: &[u8]) -> (r: bool)
    ensures
        r == glob_matches(pattern@, text@),
{
    let plen = pattern.len();
    let tlen = text.len();
    let ghost pat = pattern@;
    let ghost txt = text@;
    let mut p: usize = 0;
    let mut t: usize = 0;
    let mut star_p: Option<usize> = None;
    let mut star_t: usize = 0;

    while t < tlen
        invariant
            plen == pat.len(),
            tlen == txt.len(),
            pat == pattern@,
            txt == text@,
            p <= plen,
            star_t <= t <= tlen,
            match star_p {
                None => glob_matches(pat, txt) == glob_from(pat, txt, p as int, t as int),
                Some(sp) => {
                    &&& glob_matches(pat, txt) == glob_from(pat, txt, sp as int, star_t as int)
                    &&& segment(pat, txt, sp as int, star_t as int, p as int, t as int)
                },
            },
        decreases tlen - star_t, tlen - t, plen - p,
    {
        let ghost p0 = p as int;
        let ghost t0 = t as int;
        // Some(next) where the element at p matches text[t], None where it does not
        let mut step: Option<usize> = None;
        if p < plen && pattern[p] == 42 {
            proof {
                match star_p {
                    None => {},
                    Some(sp) => {
                        let st = star_t as int;
                        if glob_from(pat, txt, sp as int, st) {
                            let k = lemma_star_witness(pat, txt, sp as int, st);
                            assert(glob_from(pat, txt, sp as int + 1, k));
                            let j = k + (t - st);
                            assert(glob_from(pat, txt, p as int, j));
                            lemma_star_witness(pat, txt, p as int, j);
                            let k2 = lemma_star_witness(pat, txt, p as int, j);
                            lemma_star_unfold(pat, txt, p as int, t as int, k2);
                        }
                        if glob_from(pat, txt, p as int, t as int) {
                            let k = lemma_star_witness(pat, txt, p as int, t as int);
                            lemma_star_unfold(pat, txt, p as int, t as int, k);
                            assert(glob_from(pat, txt, sp as int + 1, st));
                            lemma_star_unfold(pat, txt, sp as int, st, st);
                        }
                    },
                }
            }
            star_p = Some(p);
            p = p + 1;
            star_t = t;
            proof {
                assert(segment(pat, txt, p0, t0, p as int, t as int));
            }
            continue;
        } else if p < plen && pattern[p] == 63 {
            step = Some(p + 1);
        } else if p < plen && pattern[p] == 91 {
            let mut q = p + 1;
            let mut negate = false;
            if q < plen && (pattern[q] == 94 || pattern[q] == 33) {
                negate = true;
                q = q + 1;
            }
            let (hit, closed, end) = scan_class(pattern, q, text[t]);
            let matched = if closed {
                hit
            } else {
                false
            };
            proof {
                lemma_class_end(pat, q as int);
            }
            if matched != negate {
                step = Some(end);
            }
        } else if p < plen && pattern[p] == 92 {
            if p + 1 < plen && pattern[p + 1] == text[t] {
                step = Some(p + 2);
            }
        } else if p < plen && pattern[p] == text[t] {
            step = Some(p + 1);
        }
        match step {
            Some(next) => {
                proof {
                    lemma_token_next(pat, p0);
                    assert(next == token_next(pat, p0));
                    assert(token_ok(pat, p0, txt[t0]));
                    assert(glob_from(pat, txt, p0, t0) == glob_from(pat, txt, next as int, t0 + 1));
                    match star_p {
                        None => {},
                        Some(sp) => {
                            let st = star_t as int;
                            assert forall|k: int|
                                st <= k <= txt.len() && #[trigger] glob_from(
                                    pat,
                                    txt,
                                    sp as int + 1,
                                    k,
                                ) implies k + (t0 + 1 - st) <= txt.len() && glob_from(
                                pat,
                                txt,
                                next as int,
                                k + (t0 + 1 - st),
                            ) by {
                                assert(glob_from(pat, txt, p0, k + (t0 - st)));
                            }
                        },
                    }
                }
                p = next;
                t = t + 1;
            },
            None => {
                proof {
                    if p0 < plen {
                        if pat[p0] != 42u8 && pat[p0] == 92u8 && !(p0 + 1 < plen) {
                        } else {
                            lemma_token_next(pat, p0);
                        }
                    }
                    assert(!glob_from(pat, txt, p0, t0));
                }
                match star_p {
                    Some(sp) => {
                        p = sp + 1;
                        star_t = star_t + 1;
                        t = star_t;
                        proof {
                            assert(segment(pat, txt, sp as int, star_t as int, p as int, t as int));
                        }
                    },
                    None => {
                        return false;
                    },
                }
            },
        }
    }

    let ghost p_end = p as int;
    while p < plen && pattern[p] == 42
        invariant
            plen == pat.len(),
            pat == pattern@,
            p_end <= p <= plen,
            only_stars(pat, p_end) == only_stars(pat, p as int),
        decreases plen - p,
    {
        p = p + 1;
    }
    proof {
        lemma_end_of_text(pat, txt, p_end);
        match star_p {
            None => {},
            Some(sp) => {
                let st = star_t as int;
                if glob_from(pat, txt, sp as int, st) {
                    let k = lemma_star_witness(pat, txt, sp as int, st);
                    assert(glob_from(pat, txt, p_end, k + (txt.len() - st)));
                }
                if glob_from(pat, txt, p_end, txt.len() as int) {
                    lemma_star_unfold(pat, txt, sp as int, st, st);
                }
            },
        }
    }
    p == plen
}

} // verus!
