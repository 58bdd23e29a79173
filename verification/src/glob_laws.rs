//! What the glob patterns mean, stated over `glob_matches`: literal bytes, `*` as
//! prefix, suffix and substring, `?`, the escape, and classes.
use crate::glob::{class_closed, class_end, class_hit, glob_from, glob_matches, lemma_star_unfold, lemma_star_witness};
use vstd::prelude::*;

verus! {

/// A byte that stands for itself in a pattern: none of `*`, `?`, `[` and `\`.
pub open spec fn plain_byte(b: u8) -> bool {
    b != 42u8 && b != 63u8 && b != 91u8 && b != 92u8
}

/// Every byte of `s` stands for itself.
pub open spec fn plain(s: Seq<u8>) -> bool {
    forall|i: int| 0 <= i < s.len() ==> plain_byte(#[trigger] s[i])
}

/// A run of plain pattern bytes `pat[i..e]` matches the text from `j` exactly when the
/// text holds those bytes there and the rest of the pattern matches after them.
proof fn lemma_literal_run(pat: Seq<u8>, text: Seq<u8>, i: int, e: int, j: int)
    requires
        0 <= i <= e <= pat.len(),
        0 <= j <= text.len(),
        forall|q: int| i <= q < e ==> plain_byte(#[trigger] pat[q]),
    ensures
        glob_from(pat, text, i, j) == (j + (e - i) <= text.len() && text.subrange(j, j + (e - i))
            =~= pat.subrange(i, e) && glob_from(pat, text, e, j + (e - i))),
    decreases e - i,
{
    if i < e {
        assert(plain_byte(pat[i]));
        if j < text.len() {
            lemma_literal_run(pat, text, i + 1, e, j + 1);
            let a = text.subrange(j, j + (e - i));
            let b = pat.subrange(i, e);
            if j + (e - i) <= text.len() {
                if text[j] == pat[i] && text.subrange(j + 1, j + (e - i)) =~= pat.subrange(i + 1, e) {
                    assert(a =~= b) by {
                        assert forall|x: int| 0 <= x < a.len() implies a[x] == b[x] by {
                            if x > 0 {
                                assert(a[x] == text.subrange(j + 1, j + (e - i))[x - 1]);
                                assert(b[x] == pat.subrange(i + 1, e)[x - 1]);
                            }
                        }
                    }
                }
                if a =~= b {
                    assert(a[0] == b[0]);
                    assert(text.subrange(j + 1, j + (e - i)) =~= a.subrange(1, a.len() as int));
                    assert(pat.subrange(i + 1, e) =~= b.subrange(1, b.len() as int));
                }
            }
        }
    } else {
        assert(text.subrange(j, j) =~= pat.subrange(i, e));
    }
}

/// A star at `sp` that ends the pattern matches from every place in the text.
proof fn lemma_trailing_star(pat: Seq<u8>, text: Seq<u8>, sp: int, j: int)
    requires
        sp == pat.len() - 1,
        0 <= sp,
        pat[sp] == 42u8,
        0 <= j <= text.len(),
    ensures
        glob_from(pat, text, sp, j),
{
    assert(glob_from(pat, text, sp + 1, text.len() as int));
    lemma_star_unfold(pat, text, sp, j, text.len() as int);
}

/// A pattern of plain bytes matches exactly the text that equals it.
pub proof fn law_literal_matches_itself(s: Seq<u8>, text: Seq<u8>)
    requires
        plain(s),
    ensures
        glob_matches(s, text) == (text == s),
{
    lemma_literal_run(s, text, 0, s.len() as int, 0);
    assert(s.subrange(0, s.len() as int) =~= s);
    if text =~= s {
        assert(text.subrange(0, s.len() as int) =~= s);
    }
    if s.len() == text.len() && text.subrange(0, s.len() as int) =~= s {
        assert(text =~= s);
    }
}

/// `s*` matches exactly the texts that start with `s`.
pub proof fn law_prefix_pattern(s: Seq<u8>, text: Seq<u8>)
    requires
        plain(s),
    ensures
        glob_matches(s.push(42u8), text) == (s.len() <= text.len() && text.take(s.len() as int) == s),
{
    let pat = s.push(42u8);
    assert forall|q: int| 0 <= q < s.len() implies plain_byte(#[trigger] pat[q]) by {
        assert(pat[q] == s[q]);
    }
    lemma_literal_run(pat, text, 0, s.len() as int, 0);
    assert(pat.subrange(0, s.len() as int) =~= s);
    if s.len() <= text.len() {
        lemma_trailing_star(pat, text, s.len() as int, s.len() as int);
        assert(text.take(s.len() as int) =~= text.subrange(0, s.len() as int));
    }
}

/// `*s` matches exactly the texts that end with `s`.
pub proof fn law_suffix_pattern(s: Seq<u8>, text: Seq<u8>)
    requires
        plain(s),
    ensures
        glob_matches(seq![42u8] + s, text) == (s.len() <= text.len() && text.skip(
            text.len() - s.len(),
        ) == s),
{
    let pat = seq![42u8] + s;
    let n = s.len() as int;
    let tl = text.len() as int;
    assert forall|q: int| 1 <= q < 1 + n implies plain_byte(#[trigger] pat[q]) by {
        assert(pat[q] == s[q - 1]);
    }
    assert(pat.subrange(1, 1 + n) =~= s);
    assert(pat[0] == 42u8);
    if glob_matches(pat, text) {
        let k = lemma_star_witness(pat, text, 0, 0);
        lemma_literal_run(pat, text, 1, 1 + n, k);
        assert(k + n == tl);
        assert(text.skip(tl - n) =~= text.subrange(k, k + n));
    }
    if n <= tl && text.skip(tl - n) == s {
        let k = tl - n;
        lemma_literal_run(pat, text, 1, 1 + n, k);
        assert(text.skip(tl - n) =~= text.subrange(k, k + n));
        lemma_star_unfold(pat, text, 0, 0, k);
    }
}

/// `*s*` matches exactly the texts that hold `s` somewhere.
pub proof fn law_substring_pattern(s: Seq<u8>, text: Seq<u8>)
    requires
        plain(s),
    ensures
        glob_matches(seq![42u8] + s.push(42u8), text) == exists|i: int|
            0 <= i && i + s.len() <= text.len() && #[trigger] text.subrange(i, i + s.len()) == s,
{
    let pat = seq![42u8] + s.push(42u8);
    let n = s.len() as int;
    assert forall|q: int| 1 <= q < 1 + n implies plain_byte(#[trigger] pat[q]) by {
        assert(pat[q] == s[q - 1]);
    }
    assert(pat.subrange(1, 1 + n) =~= s);
    assert(pat[0] == 42u8);
    assert(pat[1 + n] == 42u8);
    assert(pat.len() == n + 2);
    if glob_matches(pat, text) {
        let k = lemma_star_witness(pat, text, 0, 0);
        lemma_literal_run(pat, text, 1, 1 + n, k);
        assert(0 <= k && k + n <= text.len() && text.subrange(k, k + n) == s);
    }
    if exists|i: int| 0 <= i && i + s.len() <= text.len() && #[trigger] text.subrange(i, i + s.len()) == s {
        let k = choose|i: int|
            0 <= i && i + s.len() <= text.len() && #[trigger] text.subrange(i, i + s.len()) == s;
        lemma_literal_run(pat, text, 1, 1 + n, k);
        lemma_trailing_star(pat, text, 1 + n, k + n);
        lemma_star_unfold(pat, text, 0, 0, k);
    }
}

/// `n` question marks from `i` match the text from `j` exactly when as many bytes are left.
proof fn lemma_any_run(n: nat, text: Seq<u8>, i: int, j: int)
    requires
        0 <= i <= n,
        0 <= j <= text.len(),
    ensures
        glob_from(Seq::new(n, |x: int| 63u8), text, i, j) == (n - i == text.len() - j),
    decreases n - i,
{
    let pat = Seq::new(n, |x: int| 63u8);
    if i < n && j < text.len() {
        lemma_any_run(n, text, i + 1, j + 1);
    }
}

/// A pattern of `n` question marks matches exactly the texts of `n` bytes.
pub proof fn law_question_marks(n: nat, text: Seq<u8>)
    ensures
        glob_matches(Seq::new(n, |x: int| 63u8), text) == (text.len() == n),
{
    lemma_any_run(n, text, 0, 0);
}

/// `\c` matches exactly the one-byte text `c`, whatever byte `c` is.
pub proof fn law_escaped_byte(c: u8, text: Seq<u8>)
    ensures
        glob_matches(seq![92u8, c], text) == (text == seq![c]),
{
    let pat = seq![92u8, c];
    if text.len() > 0 {
        assert(glob_from(pat, text, 2, 1) == (text.len() == 1));
    }
    if text =~= seq![c] {
        assert(glob_from(pat, text, 2, 1));
    }
}

/// A byte that can stand in a class body as a plain member: not `]` and not `-`.
pub open spec fn class_member_byte(b: u8) -> bool {
    b != 93u8 && b != 45u8
}

/// The class body `s` followed by `]`, placed at `off` in the pattern: from `q` on,
/// it hits `c` exactly when one of the members left is `c`, it is closed, and it
/// ends after the `]`.
proof fn lemma_class_members(pat: Seq<u8>, s: Seq<u8>, off: int, q: int, c: u8)
    requires
        0 <= off <= q <= off + s.len(),
        off + s.len() < pat.len(),
        pat.subrange(off, off + s.len()) == s,
        pat[off + s.len()] == 93u8,
        forall|x: int| 0 <= x < s.len() ==> class_member_byte(#[trigger] s[x]),
    ensures
        class_hit(pat, q, c) == exists|x: int| q - off <= x < s.len() && #[trigger] s[x] == c,
        class_closed(pat, q),
        class_end(pat, q) == off + s.len() + 1,
    decreases off + s.len() - q,
{
    if q < off + s.len() {
        assert(pat[q] == s[q - off]);
        assert(class_member_byte(s[q - off]));
        assert(pat[q + 1] != 45u8) by {
            if q + 1 < off + s.len() {
                assert(pat[q + 1] == s[q + 1 - off]);
                assert(class_member_byte(s[q + 1 - off]));
            }
        }
        lemma_class_members(pat, s, off, q + 1, c);
        if class_hit(pat, q, c) {
            if pat[q] == c {
                assert(s[q - off] == c);
            }
        }
        if exists|x: int| q - off <= x < s.len() && #[trigger] s[x] == c {
            let x = choose|x: int| q - off <= x < s.len() && #[trigger] s[x] == c;
            if x == q - off {
                assert(pat[q] == c);
            }
        }
    }
}

/// `[s]`, with members that are neither `]` nor `-` and a first one that is neither
/// `^` nor `!`, matches exactly the one-byte texts whose byte is in `s`.
pub proof fn law_class_pattern(s: Seq<u8>, text: Seq<u8>)
    requires
        forall|x: int| 0 <= x < s.len() ==> class_member_byte(#[trigger] s[x]),
        s.len() > 0 ==> s[0] != 94u8 && s[0] != 33u8,
    ensures
        glob_matches(seq![91u8] + s + seq![93u8], text) == (text.len() == 1 && s.contains(text[0])),
{
    let pat = seq![91u8] + s + seq![93u8];
    let n = s.len() as int;
    assert(pat.subrange(1, 1 + n) =~= s);
    assert(pat[1 + n] == 93u8);
    assert(pat[0] == 91u8);
    if n > 0 {
        assert(pat[1] == s[0]);
    }
    if text.len() > 0 {
        lemma_class_members(pat, s, 1, 1, text[0]);
        assert(glob_from(pat, text, n + 2, 1) == (text.len() == 1));
    }
}

/// `[^s]`, with members that are neither `]` nor `-`, matches exactly the one-byte
/// texts whose byte is not in `s`.
pub proof fn law_negated_class_pattern(s: Seq<u8>, text: Seq<u8>)
    requires
        forall|x: int| 0 <= x < s.len() ==> class_member_byte(#[trigger] s[x]),
    ensures
        glob_matches(seq![91u8, 94u8] + s + seq![93u8], text) == (text.len() == 1 && !s.contains(
            text[0],
        )),
{
    let pat = seq![91u8, 94u8] + s + seq![93u8];
    let n = s.len() as int;
    assert(pat.subrange(2, 2 + n) =~= s);
    assert(pat[2 + n] == 93u8);
    assert(pat[0] == 91u8);
    assert(pat[1] == 94u8);
    if text.len() > 0 {
        lemma_class_members(pat, s, 2, 2, text[0]);
        assert(glob_from(pat, text, n + 3, 1) == (text.len() == 1));
    }
}

/// `[a-z]`, where `a` is none of `]`, `^` and `!` and `z` is not `]`, matches exactly
/// the one-byte texts whose byte lies from `a` to `z`.
pub proof fn law_range_pattern(a: u8, z: u8, text: Seq<u8>)
    requires
        a != 93u8,
        a != 94u8,
        a != 33u8,
        z != 93u8,
    ensures
        glob_matches(seq![91u8, a, 45u8, z, 93u8], text) == (text.len() == 1 && a <= text[0] <= z),
{
    let pat = seq![91u8, a, 45u8, z, 93u8];
    if text.len() > 0 {
        assert(class_hit(pat, 4, text[0]) == false);
        assert(class_closed(pat, 4));
        assert(class_end(pat, 4) == 5);
        assert(glob_from(pat, text, 5, 1) == (text.len() == 1));
    }
}

} // verus!
