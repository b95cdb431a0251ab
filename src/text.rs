//! Character-level helpers shared by the scanners of this crate.
//!
//! Text is modelled as `Seq<char>`; positions are character indices.
use vstd::prelude::*;
use vstd::utf8::{char_is_scalar, encode_scalar, encode_utf8, is_scalar};

verus! {

/// Relies on `String::push`: the character is appended at the end.
pub assume_specification[ String::push ](s: &mut String, ch: char)
    ensures
        final(s)@ == old(s)@.push(ch),
;

/// What `str::to_lowercase` returns for a string; it depends on the characters alone.
pub uninterp spec fn lower_of(s: Seq<char>) -> Seq<char>;

/// Relies on `str::to_lowercase`: Unicode lower-casing of each character.
#[verifier::external_body]
pub(crate) fn lowercase(s: &str) -> (r: String)
    ensures
        r@ == lower_of(s@),
{
    s.to_lowercase()
}

/// Unicode `White_Space`, the set behind `char::is_whitespace` and the `\s` class.
pub open spec fn is_ws(c: char) -> bool {
    ('\t' <= c && c <= '\r') || c == ' ' || c == '\u{85}' || c == '\u{a0}' || c == '\u{1680}'
        || ('\u{2000}' <= c && c <= '\u{200a}') || c == '\u{2028}' || c == '\u{2029}'
        || c == '\u{202f}' || c == '\u{205f}' || c == '\u{3000}'
}

pub fn is_whitespace(c: char) -> (r: bool)
    ensures
        r == is_ws(c),
{
    ('\t' <= c && c <= '\r') || c == ' ' || c == '\u{85}' || c == '\u{a0}' || c == '\u{1680}'
        || ('\u{2000}' <= c && c <= '\u{200a}') || c == '\u{2028}' || c == '\u{2029}'
        || c == '\u{202f}' || c == '\u{205f}' || c == '\u{3000}'
}

pub open spec fn is_digit(c: char) -> bool {
    '0' <= c && c <= '9'
}

pub open spec fn is_ascii_alnum(c: char) -> bool {
    ('0' <= c && c <= '9') || ('a' <= c && c <= 'z') || ('A' <= c && c <= 'Z')
}

/// `pat` occurs in `t` starting at `p`.
pub open spec fn matches_at(t: Seq<char>, p: int, pat: Seq<char>) -> bool {
    0 <= p && p + pat.len() <= t.len() && t.subrange(p, p + pat.len()) == pat
}

pub open spec fn contains(t: Seq<char>, pat: Seq<char>) -> bool {
    exists|p: int| matches_at(t, p, pat)
}

pub open spec fn ends_with(t: Seq<char>, pat: Seq<char>) -> bool {
    pat.len() <= t.len() && matches_at(t, t.len() - pat.len(), pat)
}

/// First position at or after `i` that does not hold whitespace.
pub open spec fn ws_end(t: Seq<char>, i: int) -> int
    decreases t.len() - i,
{
    if i < 0 || i >= t.len() || !is_ws(t[i]) {
        i
    } else {
        ws_end(t, i + 1)
    }
}

/// First position at or after `i` that does not hold an ASCII digit.
pub open spec fn digits_end(t: Seq<char>, i: int) -> int
    decreases t.len() - i,
{
    if i < 0 || i >= t.len() || !is_digit(t[i]) {
        i
    } else {
        digits_end(t, i + 1)
    }
}

/// First position at or after `i` that holds `c`, or the length.
pub open spec fn find_char_from(t: Seq<char>, c: char, i: int) -> int
    decreases t.len() - i,
{
    if i < 0 || i >= t.len() || t[i] == c {
        i
    } else {
        find_char_from(t, c, i + 1)
    }
}

/// Start of the line that holds position `i`.
pub open spec fn line_start(t: Seq<char>, i: int) -> int
    decreases i,
{
    if i <= 0 || i > t.len() {
        if i <= 0 { 0 } else { line_start(t, t.len() as int) }
    } else if t[i - 1] == '\n' {
        i
    } else {
        line_start(t, i - 1)
    }
}

/// Decimal digits of `n`, most significant first.
pub open spec fn decimal(n: nat) -> Seq<char>
    decreases n,
{
    if n < 10 {
        seq![digit_char(n)]
    } else {
        decimal(n / 10).push(digit_char(n % 10))
    }
}

pub open spec fn digit_char(d: nat) -> char {
    if d < 10 { (('0' as u32) + d) as char } else { '0' }
}

pub proof fn lemma_ws_end_bounds(t: Seq<char>, i: int)
    requires
        0 <= i <= t.len(),
    ensures
        i <= ws_end(t, i) <= t.len(),
        forall|k: int| i <= k < ws_end(t, i) ==> is_ws(t[k]),
        ws_end(t, i) < t.len() ==> !is_ws(t[ws_end(t, i)]),
    decreases t.len() - i,
{
    if i < t.len() && is_ws(t[i]) {
        lemma_ws_end_bounds(t, i + 1);
    }
}

pub proof fn lemma_digits_end_bounds(t: Seq<char>, i: int)
    requires
        0 <= i <= t.len(),
    ensures
        i <= digits_end(t, i) <= t.len(),
        forall|k: int| i <= k < digits_end(t, i) ==> is_digit(t[k]),
        digits_end(t, i) < t.len() ==> !is_digit(t[digits_end(t, i)]),
    decreases t.len() - i,
{
    if i < t.len() && is_digit(t[i]) {
        lemma_digits_end_bounds(t, i + 1);
    }
}

pub proof fn lemma_find_char_bounds(t: Seq<char>, c: char, i: int)
    requires
        0 <= i <= t.len(),
    ensures
        i <= find_char_from(t, c, i) <= t.len(),
        forall|k: int| i <= k < find_char_from(t, c, i) ==> t[k] != c,
        find_char_from(t, c, i) < t.len() ==> t[find_char_from(t, c, i)] == c,
    decreases t.len() - i,
{
    if i < t.len() && t[i] != c {
        lemma_find_char_bounds(t, c, i + 1);
    }
}

/// The characters of `s`, in order.
pub fn chars_of(s: &str) -> (r: Vec<char>)
    ensures
        r@ == s@,
{
    let mut r: Vec<char> = Vec::new();
    for c in it: s.chars()
        invariant
            r@ == it.seq().subrange(0, it.index() as int),
            it.seq() == s@,
    {
        r.push(c);
    }
    r
}

/// Appends `v[from..to]` to `out`.
pub fn push_range(out: &mut String, v: &Vec<char>, from: usize, to: usize)
    requires
        from <= to <= v@.len(),
    ensures
        final(out)@ == old(out)@ + v@.subrange(from as int, to as int),
{
    let mut i = from;
    while i < to
        invariant
            from <= i <= to <= v@.len(),
            out@ == old(out)@ + v@.subrange(from as int, i as int),
        decreases to - i,
    {
        out.push(v[i]);
        i = i + 1;
        assert(v@.subrange(from as int, i as int) == v@.subrange(from as int, i - 1).push(
            v@[i - 1],
        ));
    }
}

/// Appends the characters of `s` to `out`.
pub fn push_str(out: &mut String, s: &str)
    ensures
        final(out)@ == old(out)@ + s@,
{
    out.append(s);
}

/// `pat` occurs in `t` at `p`.
pub fn matches_at_exec(t: &Vec<char>, p: usize, pat: &Vec<char>) -> (r: bool)
    ensures
        r == matches_at(t@, p as int, pat@),
{
    let n = t.len();
    let m = pat.len();
    if m > n || p > n - m {
        return false;
    }
    let mut k: usize = 0;
    while k < m
        invariant
            n == t@.len(),
            m == pat@.len(),
            k <= m,
            p + m <= n,
            forall|j: int| 0 <= j < k ==> t@[p + j] == pat@[j],
        decreases m - k,
    {
        if t[p + k] != pat[k] {
            assert(t@.subrange(p as int, p + pat@.len())[k as int] != pat@[k as int]);
            return false;
        }
        k = k + 1;
    }
    assert(t@.subrange(p as int, p + pat@.len()) =~= pat@);
    true
}

/// Whether `pat` occurs anywhere in `t`.
pub fn contains_exec(t: &Vec<char>, pat: &Vec<char>) -> (r: bool)
    ensures
        r == contains(t@, pat@),
{
    if pat.len() == 0 {
        assert(t@.subrange(0, 0) =~= pat@);
        assert(matches_at(t@, 0, pat@));
        return true;
    }
    let mut p: usize = 0;
    while p < t.len()
        invariant
            pat@.len() > 0,
            forall|q: int| 0 <= q < p ==> !matches_at(t@, q, pat@),
        decreases t.len() - p,
    {
        if matches_at_exec(t, p, pat) {
            return true;
        }
        p = p + 1;
    }
    assert forall|q: int| !matches_at(t@, q, pat@) by {
        if 0 <= q < p {
        }
    }
    false
}

pub fn ends_with_exec(t: &Vec<char>, pat: &Vec<char>) -> (r: bool)
    ensures
        r == ends_with(t@, pat@),
{
    if pat.len() > t.len() {
        false
    } else {
        matches_at_exec(t, t.len() - pat.len(), pat)
    }
}

/// First position at or after `i` that does not hold whitespace.
pub fn skip_ws(t: &Vec<char>, i: usize) -> (r: usize)
    requires
        i <= t@.len(),
    ensures
        r == ws_end(t@, i as int),
        i <= r <= t@.len(),
{
    let mut j = i;
    while j < t.len() && is_whitespace(t[j])
        invariant
            i <= j <= t@.len(),
            ws_end(t@, j as int) == ws_end(t@, i as int),
        decreases t.len() - j,
    {
        j = j + 1;
    }
    j
}

/// First position at or after `i` that does not hold an ASCII digit.
pub fn skip_digits(t: &Vec<char>, i: usize) -> (r: usize)
    requires
        i <= t@.len(),
    ensures
        r == digits_end(t@, i as int),
        i <= r <= t@.len(),
{
    let mut j = i;
    while j < t.len() && '0' <= t[j] && t[j] <= '9'
        invariant
            i <= j <= t@.len(),
            digits_end(t@, j as int) == digits_end(t@, i as int),
        decreases t.len() - j,
    {
        j = j + 1;
    }
    j
}

/// First position at or after `i` that holds `c`, or the length.
pub fn find_char(t: &Vec<char>, c: char, i: usize) -> (r: usize)
    requires
        i <= t@.len(),
    ensures
        r == find_char_from(t@, c, i as int),
        i <= r <= t@.len(),
{
    let mut j = i;
    while j < t.len() && t[j] != c
        invariant
            i <= j <= t@.len(),
            find_char_from(t@, c, j as int) == find_char_from(t@, c, i as int),
        decreases t.len() - j,
    {
        j = j + 1;
    }
    j
}

/// Start of the line that holds position `i`.
pub fn line_start_exec(t: &Vec<char>, i: usize) -> (r: usize)
    requires
        i <= t@.len(),
    ensures
        r == line_start(t@, i as int),
        r <= i,
{
    let mut j = i;
    while j > 0 && t[j - 1] != '\n'
        invariant
            j <= i <= t@.len(),
            line_start(t@, j as int) == line_start(t@, i as int),
        decreases j,
    {
        j = j - 1;
    }
    j
}

/// Appends the decimal digits of `n` to `out`.
pub fn push_decimal(out: &mut String, n: u64)
    ensures
        final(out)@ == old(out)@ + decimal(n as nat),
    decreases n,
{
    if n >= 10 {
        push_decimal(out, n / 10);
    }
    let d = (n % 10) as u8;
    let c = (48u8 + d) as char;
    out.push(c);
    assert(c == digit_char((n % 10) as nat));
}

/// Whether two strings hold the same characters.
pub fn same_text(a: &str, b: &str) -> (r: bool)
    ensures
        r == (a@ == b@),
{
    let x = chars_of(a);
    let y = chars_of(b);
    if x.len() != y.len() {
        return false;
    }
    let r = matches_at_exec(&x, 0, &y);
    proof {
        if r {
            assert(x@ =~= x@.subrange(0, y@.len() as int));
        } else {
            assert(x@.subrange(0, y@.len() as int) =~= x@);
        }
    }
    r
}

/// Number of bytes that UTF-8 spends on `c`.
pub open spec fn utf8_width(c: char) -> nat {
    if (c as u32) <= 0x7f {
        1
    } else if (c as u32) <= 0x7ff {
        2
    } else if (c as u32) <= 0xffff {
        3
    } else {
        4
    }
}

pub proof fn lemma_encode_utf8_concat(a: Seq<char>, b: Seq<char>)
    ensures
        encode_utf8(a + b) == encode_utf8(a) + encode_utf8(b),
    decreases a.len(),
{
    if a.len() == 0 {
        assert(a + b =~= b);
        assert(encode_utf8(a) + encode_utf8(b) =~= encode_utf8(b));
    } else {
        assert((a + b)[0] == a[0]);
        assert((a + b).drop_first() =~= a.drop_first() + b);
        lemma_encode_utf8_concat(a.drop_first(), b);
        assert(encode_utf8(a + b) =~= encode_utf8(a) + encode_utf8(b));
    }
}

/// The UTF-8 length of a text grows by the width of each character appended.
pub proof fn lemma_encode_utf8_push(p: Seq<char>, c: char)
    ensures
        encode_utf8(p.push(c)).len() == encode_utf8(p).len() + utf8_width(c),
{
    char_is_scalar(c);
    assert(is_scalar(c as u32));
    lemma_encode_utf8_concat(p, seq![c]);
    assert(p.push(c) =~= p + seq![c]);
    assert(seq![c].drop_first() =~= Seq::<char>::empty());
    assert(encode_utf8(Seq::<char>::empty()) == Seq::<u8>::empty());
    assert(encode_utf8(seq![c]) =~= encode_scalar(c as u32));
    assert(encode_scalar(c as u32).len() == utf8_width(c));
}

/// Byte offset in the UTF-8 encoding of `t` of the character position `k`.
pub fn byte_offset(t: &Vec<char>, k: usize, total: usize) -> (r: usize)
    requires
        k <= t@.len(),
        total == encode_utf8(t@).len(),
    ensures
        r == encode_utf8(t@.subrange(0, k as int)).len(),
{
    let mut i: usize = 0;
    let mut b: usize = 0;
    while i < k
        invariant
            i <= k <= t@.len(),
            total == encode_utf8(t@).len(),
            b == encode_utf8(t@.subrange(0, i as int)).len(),
        decreases k - i,
    {
        let c = t[i];
        let w: usize = if (c as u32) <= 0x7f {
            1
        } else if (c as u32) <= 0x7ff {
            2
        } else if (c as u32) <= 0xffff {
            3
        } else {
            4
        };
        proof {
            assert(t@.subrange(0, i + 1) =~= t@.subrange(0, i as int).push(c));
            lemma_encode_utf8_push(t@.subrange(0, i as int), c);
            lemma_encode_utf8_concat(t@.subrange(0, i + 1), t@.subrange(i + 1, t@.len() as int));
            assert(t@ =~= t@.subrange(0, i + 1) + t@.subrange(i + 1, t@.len() as int));
        }
        b = b + w;
        i = i + 1;
    }
    b
}

} // verus!
