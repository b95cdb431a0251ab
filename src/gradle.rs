//! Brace-aware editing of a Gradle build script: finding a top-level block,
//! declaring a Maven repository, composing and upserting dependency lines.
use vstd::prelude::*;
use vstd::utf8::encode_utf8;
use crate::text::{
    byte_offset, chars_of, contains, contains_exec, find_char, find_char_from, lemma_find_char_bounds,
    lemma_ws_end_bounds, matches_at, matches_at_exec, push_range, push_str, skip_ws, ws_end,
};

verus! {

/// Where a block header `name {` that starts the line at `p` ends: just after its `{`.
///
/// The header is: a line start, optional whitespace (which may span empty lines),
/// the name, optional whitespace, then the opening brace.
pub open spec fn anchor_end(t: Seq<char>, p: int, name: Seq<char>) -> Option<int> {
    if 0 <= p < t.len() && (p == 0 || t[p - 1] == '\n') && matches_at(t, ws_end(t, p), name) {
        let b = ws_end(t, ws_end(t, p) + name.len());
        if b < t.len() && t[b] == '{' {
            Some(b + 1)
        } else {
            None
        }
    } else {
        None
    }
}

/// Number of unmatched `{` in `t[..i]`; a `}` with nothing open is ignored.
pub open spec fn depth_before(t: Seq<char>, i: int) -> nat
    decreases i,
{
    if i <= 0 || i > t.len() {
        0
    } else {
        let d = depth_before(t, i - 1);
        if t[i - 1] == '{' {
            d + 1
        } else if t[i - 1] == '}' && d > 0 {
            (d - 1) as nat
        } else {
            d
        }
    }
}

/// Position of the `}` that brings the brace count `b` (counted from `pos`) to zero,
/// or the length of `t` when the text ends first.
pub open spec fn block_end(t: Seq<char>, pos: int, b: nat) -> int
    decreases t.len() - pos,
{
    if pos < 0 || pos >= t.len() || b == 0 {
        t.len() as int
    } else {
        let b2: int = if t[pos] == '{' {
            (b + 1) as int
        } else if t[pos] == '}' {
            b - 1
        } else {
            b as int
        };
        if b2 <= 0 {
            pos
        } else {
            block_end(t, pos + 1, b2 as nat)
        }
    }
}

/// Body range of the first block header at or after `p` that is not nested in braces.
pub open spec fn first_block_from(t: Seq<char>, name: Seq<char>, p: int) -> Option<(int, int)>
    decreases t.len() - p,
{
    if p < 0 || p >= t.len() {
        None
    } else if anchor_end(t, p, name) is Some && depth_before(t, p) == 0 {
        let e = anchor_end(t, p, name)->0;
        Some((e, block_end(t, e, 1)))
    } else {
        first_block_from(t, name, p + 1)
    }
}

/// Body range of the first top-level block `name { ... }` in `t`.
pub open spec fn top_level_block(t: Seq<char>, name: Seq<char>) -> Option<(int, int)> {
    first_block_from(t, name, 0)
}

pub proof fn lemma_block_end_bounds(t: Seq<char>, pos: int, b: nat)
    requires
        0 <= pos <= t.len(),
    ensures
        pos <= block_end(t, pos, b) <= t.len(),
    decreases t.len() - pos,
{
    if pos < t.len() && b != 0 {
        let b2: int = if t[pos] == '{' {
            (b + 1) as int
        } else if t[pos] == '}' {
            b - 1
        } else {
            b as int
        };
        if b2 > 0 {
            lemma_block_end_bounds(t, pos + 1, b2 as nat);
        }
    }
}

pub proof fn lemma_first_block_bounds(t: Seq<char>, name: Seq<char>, p: int)
    requires
        0 <= p,
    ensures
        first_block_from(t, name, p) matches Some((s, e)) ==> 0 < s <= e <= t.len(),
    decreases t.len() - p,
{
    if p < t.len() {
        if anchor_end(t, p, name) is Some && depth_before(t, p) == 0 {
            let e = anchor_end(t, p, name)->0;
            lemma_ws_end_bounds(t, p);
            lemma_ws_end_bounds(t, ws_end(t, p) + name.len());
            lemma_block_end_bounds(t, e, 1);
        } else {
            lemma_first_block_bounds(t, name, p + 1);
        }
    }
}

fn anchor_end_exec(t: &Vec<char>, p: usize, name: &Vec<char>) -> (r: Option<usize>)
    requires
        p < t@.len(),
    ensures
        match r {
            Some(e) => anchor_end(t@, p as int, name@) == Some(e as int),
            None => anchor_end(t@, p as int, name@) is None,
        },
{
    if p > 0 && t[p - 1] != '\n' {
        return None;
    }
    let a = skip_ws(t, p);
    if !matches_at_exec(t, a, name) {
        return None;
    }
    let tl = t.len();
    assert(a + name@.len() <= tl);
    let b = skip_ws(t, a + name.len());
    if b < t.len() && t[b] == '{' {
        Some(b + 1)
    } else {
        None
    }
}

fn block_end_exec(t: &Vec<char>, start: usize) -> (r: usize)
    requires
        0 < start <= t@.len(),
    ensures
        r == block_end(t@, start as int, 1),
{
    let mut brace: usize = 1;
    let mut pos = start;
    while pos < t.len()
        invariant
            0 < start <= pos <= t@.len(),
            1 <= brace <= pos - start + 1,
            block_end(t@, pos as int, brace as nat) == block_end(t@, start as int, 1),
        decreases t.len() - pos,
    {
        if t[pos] == '{' {
            brace = brace + 1;
        } else if t[pos] == '}' {
            brace = brace - 1;
            if brace == 0 {
                return pos;
            }
        }
        pos = pos + 1;
    }
    t.len()
}

pub(crate) fn block_range_chars(t: &Vec<char>, name: &Vec<char>) -> (r: Option<(usize, usize)>)
    ensures
        match r {
            Some((s, e)) => top_level_block(t@, name@) == Some((s as int, e as int)),
            None => top_level_block(t@, name@) is None,
        },
{
    let mut p: usize = 0;
    let mut depth: usize = 0;
    while p < t.len()
        invariant
            p <= t@.len(),
            depth == depth_before(t@, p as int),
            depth <= p,
            first_block_from(t@, name@, p as int) == top_level_block(t@, name@),
        decreases t.len() - p,
    {
        if depth == 0 {
            if let Some(e) = anchor_end_exec(t, p, name) {
                proof {
                    lemma_ws_end_bounds(t@, p as int);
                    lemma_ws_end_bounds(t@, ws_end(t@, p as int) + name@.len());
                }
                let end = block_end_exec(t, e);
                return Some((e, end));
            }
        }
        if t[p] == '{' {
            depth = depth + 1;
        } else if t[p] == '}' && depth > 0 {
            depth = depth - 1;
        }
        p = p + 1;
    }
    None
}

/// Locates the body of the first top-level block `name { ... }` in `src`.
///
/// The range runs from just after the opening brace to the matching closing brace,
/// as byte offsets into `src`; an unclosed block extends to the end of the text.
pub fn find_top_level_block_range(src: &str, name: &str) -> (r: Option<(usize, usize)>)
    ensures
        match r {
            Some((bs, be)) => top_level_block(src@, name@) matches Some((s, e)) && bs
                == encode_utf8(src@.subrange(0, s)).len() && be == encode_utf8(
                src@.subrange(0, e),
            ).len(),
            None => top_level_block(src@, name@) is None,
        },
{
    let t = chars_of(src);
    let n = chars_of(name);
    let total = src.as_bytes().len();
    match block_range_chars(&t, &n) {
        Some((s, e)) => {
            proof {
                lemma_first_block_bounds(t@, n@, 0);
            }
            Some((byte_offset(&t, s, total), byte_offset(&t, e, total)))
        },
        None => None,
    }
}

/// `t` with `x` added as a line of its own just before the closing brace at `e`
/// of the block body `t[s..e]`.
pub open spec fn insert_before_close(t: Seq<char>, s: int, e: int, x: Seq<char>) -> Seq<char> {
    let sep = if s < e && t[e - 1] == '\n' {
        Seq::<char>::empty()
    } else {
        seq!['\n']
    };
    t.subrange(0, e) + sep + x + seq!['\n'] + t.subrange(e, t.len() as int)
}

/// A fresh `repositories` block holding `stanza`.
pub open spec fn repo_block(stanza: Seq<char>) -> Seq<char> {
    "repositories {\n"@ + stanza + "\n}\n\n"@
}

/// `t` with `stanza` declared in its repositories: inside the top-level
/// `repositories` block if there is one; else right after the first `}` when the
/// script opens with a `plugins {` block; else in a new block at the very top.
pub open spec fn with_repo(t: Seq<char>, stanza: Seq<char>) -> Seq<char> {
    match top_level_block(t, "repositories"@) {
        Some((s, e)) => insert_before_close(t, s, e, stanza),
        None => if matches_at(t, ws_end(t, 0), "plugins {"@) {
            let i = find_char_from(t, '}', 0);
            let cut = if i < t.len() {
                i + 1
            } else {
                0
            };
            t.subrange(0, cut) + "\n\n"@ + repo_block(stanza) + t.subrange(cut, t.len() as int)
        } else {
            repo_block(stanza) + t
        },
    }
}

pub(crate) fn insert_before_close_exec(out: &mut String, t: &Vec<char>, s: usize, e: usize, x: &str)
    requires
        0 <= s <= e <= t@.len(),
    ensures
        final(out)@ == old(out)@ + insert_before_close(t@, s as int, e as int, x@),
{
    push_range(out, t, 0, e);
    if !(s < e && t[e - 1] == '\n') {
        out.push('\n');
    }
    push_str(out, x);
    out.push('\n');
    push_range(out, t, e, t.len());
    assert(final(out)@ =~= old(out)@ + insert_before_close(t@, s as int, e as int, x@));
}

fn with_repo_exec(t: &Vec<char>, stanza: &str) -> (r: String)
    ensures
        r@ == with_repo(t@, stanza@),
{
    let repos = chars_of("repositories");
    let mut out = String::new();
    match block_range_chars(t, &repos) {
        Some((s, e)) => {
            proof {
                lemma_first_block_bounds(t@, repos@, 0);
            }
            insert_before_close_exec(&mut out, t, s, e, stanza);
        },
        None => {
            let a = skip_ws(t, 0);
            let plugins = chars_of("plugins {");
            if matches_at_exec(t, a, &plugins) {
                let i = find_char(t, '}', 0);
                let cut = if i < t.len() {
                    i + 1
                } else {
                    0
                };
                push_range(&mut out, t, 0, cut);
                push_str(&mut out, "\n\n");
                push_str(&mut out, "repositories {\n");
                push_str(&mut out, stanza);
                push_str(&mut out, "\n}\n\n");
                push_range(&mut out, t, cut, t.len());
            } else {
                push_str(&mut out, "repositories {\n");
                push_str(&mut out, stanza);
                push_str(&mut out, "\n}\n\n");
                push_range(&mut out, t, 0, t.len());
            }
        },
    }
    assert(out@ =~= with_repo(t@, stanza@));
    out
}

/// The Curse Maven repository declaration, as it is inserted.
pub open spec fn curse_stanza() -> Seq<char> {
    "    maven {\n        name = \"Curse Maven\"\n        url = \""@ + "https://cursemaven.com"@
        + "\"\n        content {\n            includeGroup \"curse.maven\"\n        }\n    }"@
}

/// The Modrinth Maven repository declaration, as it is inserted.
pub open spec fn modrinth_stanza() -> Seq<char> {
    "    maven {\n        name = \"Modrinth\"\n        url = \""@ + "https://api.modrinth.com/maven"@
        + "\"\n    }"@
}

/// The script already refers to the Curse Maven repository.
pub open spec fn has_curse_repo(t: Seq<char>) -> bool {
    contains(t, "https://cursemaven.com"@) || contains(t, "curse.maven"@)
}

/// The script already refers to the Modrinth Maven repository.
pub open spec fn has_modrinth_repo(t: Seq<char>) -> bool {
    contains(t, "https://api.modrinth.com/maven"@)
}

pub open spec fn ensured_curse(t: Seq<char>) -> Seq<char> {
    if has_curse_repo(t) {
        t
    } else {
        with_repo(t, curse_stanza())
    }
}

pub open spec fn ensured_modrinth(t: Seq<char>) -> Seq<char> {
    if has_modrinth_repo(t) {
        t
    } else {
        with_repo(t, modrinth_stanza())
    }
}

/// Makes sure the script declares the Curse Maven repository; a script that
/// already mentions it is returned unchanged.
pub fn ensure_curse_maven_repo(build_gradle: &str) -> (r: String)
    ensures
        r@ == ensured_curse(build_gradle@),
{
    let t = chars_of(build_gradle);
    let url = chars_of("https://cursemaven.com");
    let group = chars_of("curse.maven");
    if contains_exec(&t, &url) || contains_exec(&t, &group) {
        let mut out = String::new();
        push_range(&mut out, &t, 0, t.len());
        assert(out@ =~= build_gradle@);
        return out;
    }
    let mut stanza = String::new();
    push_str(&mut stanza, "    maven {\n        name = \"Curse Maven\"\n        url = \"");
    push_str(&mut stanza, "https://cursemaven.com");
    push_str(
        &mut stanza,
        "\"\n        content {\n            includeGroup \"curse.maven\"\n        }\n    }",
    );
    with_repo_exec(&t, stanza.as_str())
}

/// Makes sure the script declares the Modrinth Maven repository; a script that
/// already mentions it is returned unchanged.
pub fn ensure_modrinth_maven_repo(build_gradle: &str) -> (r: String)
    ensures
        r@ == ensured_modrinth(build_gradle@),
{
    let t = chars_of(build_gradle);
    let url = chars_of("https://api.modrinth.com/maven");
    if contains_exec(&t, &url) {
        let mut out = String::new();
        push_range(&mut out, &t, 0, t.len());
        assert(out@ =~= build_gradle@);
        return out;
    }
    let mut stanza = String::new();
    push_str(&mut stanza, "    maven {\n        name = \"Modrinth\"\n        url = \"");
    push_str(&mut stanza, "https://api.modrinth.com/maven");
    push_str(&mut stanza, "\"\n    }");
    with_repo_exec(&t, stanza.as_str())
}

proof fn lemma_contains_mid(a: Seq<char>, x: Seq<char>, b: Seq<char>, m: Seq<char>)
    requires
        contains(x, m),
    ensures
        contains(a + x + b, m),
{
    let p = choose|p: int| matches_at(x, p, m);
    let w = a + x + b;
    assert(w.subrange(a.len() + p, a.len() + p + m.len()) =~= x.subrange(p, p + m.len()));
    assert(matches_at(w, a.len() + p, m));
}

proof fn lemma_contains_self(m: Seq<char>)
    ensures
        contains(m, m),
{
    assert(m.subrange(0, m.len() as int) =~= m);
    assert(matches_at(m, 0, m));
}

/// Whatever `stanza` contains, the script with the stanza declared contains too.
proof fn lemma_with_repo_contains(t: Seq<char>, stanza: Seq<char>, m: Seq<char>)
    requires
        contains(stanza, m),
    ensures
        contains(with_repo(t, stanza), m),
{
    let w = with_repo(t, stanza);
    match top_level_block(t, "repositories"@) {
        Some((s, e)) => {
            lemma_first_block_bounds(t, "repositories"@, 0);
            let sep = if s < e && t[e - 1] == '\n' {
                Seq::<char>::empty()
            } else {
                seq!['\n']
            };
            assert(w =~= (t.subrange(0, e) + sep) + stanza + (seq!['\n'] + t.subrange(
                e,
                t.len() as int,
            )));
            lemma_contains_mid(t.subrange(0, e) + sep, stanza, seq!['\n'] + t.subrange(e, t.len() as int), m);
        },
        None => {
            if matches_at(t, ws_end(t, 0), "plugins {"@) {
                let i = find_char_from(t, '}', 0);
                lemma_find_char_bounds(t, '}', 0);
                let cut = if i < t.len() {
                    i + 1
                } else {
                    0
                };
                let a = t.subrange(0, cut) + "\n\n"@ + "repositories {\n"@;
                let b = "\n}\n\n"@ + t.subrange(cut, t.len() as int);
                assert(w =~= a + stanza + b);
                lemma_contains_mid(a, stanza, b, m);
            } else {
                let a = "repositories {\n"@;
                let b = "\n}\n\n"@ + t;
                assert(w =~= a + stanza + b);
                lemma_contains_mid(a, stanza, b, m);
            }
        },
    }
}

/// Declaring the Curse Maven repository a second time changes nothing.
pub proof fn lemma_ensure_curse_idempotent(t: Seq<char>)
    ensures
        ensured_curse(ensured_curse(t)) == ensured_curse(t),
{
    if !has_curse_repo(t) {
        let url = "https://cursemaven.com"@;
        let pre = "    maven {\n        name = \"Curse Maven\"\n        url = \""@;
        let post = "\"\n        content {\n            includeGroup \"curse.maven\"\n        }\n    }"@;
        lemma_contains_self(url);
        lemma_contains_mid(pre, url, post, url);
        lemma_with_repo_contains(t, curse_stanza(), url);
    }
}

/// Declaring the Modrinth Maven repository a second time changes nothing.
pub proof fn lemma_ensure_modrinth_idempotent(t: Seq<char>)
    ensures
        ensured_modrinth(ensured_modrinth(t)) == ensured_modrinth(t),
{
    if !has_modrinth_repo(t) {
        let url = "https://api.modrinth.com/maven"@;
        let pre = "    maven {\n        name = \"Modrinth\"\n        url = \""@;
        let post = "\"\n    }"@;
        lemma_contains_self(url);
        lemma_contains_mid(pre, url, post, url);
        lemma_with_repo_contains(t, modrinth_stanza(), url);
    }
}

/// Declaring the Curse Maven repository twice in a script that has no top-level
/// `repositories` block and does not mention the repository yields the script with
/// exactly one new `repositories` block spliced in: at the top, or right after the
/// first `}` when the script opens with a `plugins {` block.
pub proof fn lemma_curse_repo_block_added_once(t: Seq<char>)
    requires
        top_level_block(t, "repositories"@) is None,
        !has_curse_repo(t),
    ensures
        exists|cut: int, gap: Seq<char>|
            0 <= cut <= t.len() && (gap == Seq::<char>::empty() || gap == "\n\n"@)
                && #[trigger] ensured_curse(ensured_curse(t)) == t.subrange(0, cut) + gap
                + repo_block(curse_stanza()) + t.subrange(cut, t.len() as int),
{
    lemma_ensure_curse_idempotent(t);
    lemma_repo_block_spliced(t, curse_stanza());
}

/// The Modrinth counterpart of `lemma_curse_repo_block_added_once`.
pub proof fn lemma_modrinth_repo_block_added_once(t: Seq<char>)
    requires
        top_level_block(t, "repositories"@) is None,
        !has_modrinth_repo(t),
    ensures
        exists|cut: int, gap: Seq<char>|
            0 <= cut <= t.len() && (gap == Seq::<char>::empty() || gap == "\n\n"@)
                && #[trigger] ensured_modrinth(ensured_modrinth(t)) == t.subrange(0, cut) + gap
                + repo_block(modrinth_stanza()) + t.subrange(cut, t.len() as int),
{
    lemma_ensure_modrinth_idempotent(t);
    lemma_repo_block_spliced(t, modrinth_stanza());
}

proof fn lemma_repo_block_spliced(t: Seq<char>, stanza: Seq<char>)
    requires
        top_level_block(t, "repositories"@) is None,
    ensures
        exists|cut: int, gap: Seq<char>|
            0 <= cut <= t.len() && (gap == Seq::<char>::empty() || gap == "\n\n"@)
                && #[trigger] with_repo(t, stanza) == t.subrange(0, cut) + gap + repo_block(stanza)
                + t.subrange(cut, t.len() as int),
{
    if matches_at(t, ws_end(t, 0), "plugins {"@) {
        let i = find_char_from(t, '}', 0);
        lemma_find_char_bounds(t, '}', 0);
        let cut = if i < t.len() {
            i + 1
        } else {
            0
        };
        assert(with_repo(t, stanza) == t.subrange(0, cut) + "\n\n"@ + repo_block(stanza)
            + t.subrange(cut, t.len() as int));
    } else {
        assert(with_repo(t, stanza) =~= t.subrange(0, 0) + Seq::<char>::empty() + repo_block(
            stanza,
        ) + t.subrange(0, t.len() as int));
    }
}

proof fn lemma_no_name_no_block(t: Seq<char>, name: Seq<char>, p: int)
    requires
        0 <= p,
        !contains(t, name),
    ensures
        first_block_from(t, name, p) is None,
    decreases t.len() - p,
{
    if p < t.len() {
        if matches_at(t, ws_end(t, p), name) {
            assert(contains(t, name));
        }
        lemma_no_name_no_block(t, name, p + 1);
    }
}

/// A word without line breaks occurs in `x + b + y` only inside `b` when `x` is empty
/// or ends a line, `b` ends a line, and neither `x` nor `y` holds the word.
proof fn lemma_only_in_middle(x: Seq<char>, b: Seq<char>, y: Seq<char>, w: Seq<char>, q: int)
    requires
        w.len() >= 1,
        forall|k: int| 0 <= k < w.len() ==> #[trigger] w[k] != '\n',
        x.len() == 0 || x[x.len() - 1] == '\n',
        b.len() >= 1,
        b[b.len() - 1] == '\n',
        !contains(x, w),
        !contains(y, w),
        matches_at(x + b + y, q, w),
    ensures
        matches_at(b, q - x.len(), w),
{
    let r = x + b + y;
    let n = w.len() as int;
    let xb = x.len() + b.len();
    if q + n <= x.len() {
        assert(x.subrange(q, q + n) =~= r.subrange(q, q + n));
        assert(matches_at(x, q, w));
    } else if q >= xb {
        assert(y.subrange(q - xb, q - xb + n) =~= r.subrange(q, q + n));
        assert(matches_at(y, q - xb, w));
    } else if q < x.len() {
        assert(r.subrange(q, q + n)[x.len() - 1 - q] == r[x.len() - 1]);
        assert(w[x.len() - 1 - q] != '\n');
    } else if q + n > xb {
        assert(r.subrange(q, q + n)[xb - 1 - q] == r[xb - 1]);
        assert(w[xb - 1 - q] != '\n');
    } else {
        assert(b.subrange(q - x.len(), q - x.len() + n) =~= r.subrange(q, q + n));
    }
}

proof fn lemma_prefix_gap_lacks(t: Seq<char>, cut: int, gap: Seq<char>, w: Seq<char>)
    requires
        0 <= cut <= t.len(),
        !contains(t, w),
        w.len() >= 1,
        forall|k: int| 0 <= k < w.len() ==> #[trigger] w[k] != '\n',
        forall|k: int| 0 <= k < gap.len() ==> #[trigger] gap[k] == '\n',
    ensures
        !contains(t.subrange(0, cut) + gap, w),
        !contains(t.subrange(cut, t.len() as int), w),
{
    let x = t.subrange(0, cut) + gap;
    let n = w.len() as int;
    assert forall|q: int| !matches_at(x, q, w) by {
        if matches_at(x, q, w) {
            if q + n <= cut {
                assert(t.subrange(q, q + n) =~= x.subrange(q, q + n));
                assert(matches_at(t, q, w));
            } else {
                let k = if q >= cut { q } else { cut };
                assert(x.subrange(q, q + n)[k - q] == x[k]);
                assert(x[k] == gap[k - cut]);
            }
        }
    }
    let y = t.subrange(cut, t.len() as int);
    assert forall|q: int| !matches_at(y, q, w) by {
        if matches_at(y, q, w) {
            assert(t.subrange(cut + q, cut + q + n) =~= y.subrange(q, q + n));
            assert(matches_at(t, cut + q, w));
        }
    }
}

/// Where the header and the URL stand in the inserted block.
proof fn lemma_curse_block_facts()
    ensures
        ({
            let b = repo_block(curse_stanza());
            let u = 15 + "    maven {\n        name = \"Curse Maven\"\n        url = \""@.len() as int;
            &&& b.len() >= 14
            &&& b[b.len() - 1] == '\n'
            &&& matches_at(b, 0, "repositories"@)
            &&& b[12] == ' ' && b[13] == '{'
            &&& matches_at(b, u, "https://cursemaven.com"@)
        }),
{
    reveal_strlit("repositories {\n");
    reveal_strlit("\n}\n\n");
    reveal_strlit("    maven {\n        name = \"Curse Maven\"\n        url = \"");
    reveal_strlit("https://cursemaven.com");
    reveal_strlit("\"\n        content {\n            includeGroup \"curse.maven\"\n        }\n    }");
    reveal_strlit("repositories");
    let b = repo_block(curse_stanza());
    let u = 15 + "    maven {\n        name = \"Curse Maven\"\n        url = \""@.len() as int;
    assert(b.subrange(0, 12) =~= "repositories"@);
    assert(b.subrange(u, u + "https://cursemaven.com"@.len() as int) =~= "https://cursemaven.com"@);
}

/// The header word occurs in the inserted block only at its start.
proof fn lemma_curse_block_word(j: int)
    requires
        matches_at(repo_block(curse_stanza()), j, "repositories"@),
    ensures
        j == 0,
{
    reveal_strlit("repositories {\n");
    reveal_strlit("\n}\n\n");
    reveal_strlit("    maven {\n        name = \"Curse Maven\"\n        url = \"");
    reveal_strlit("https://cursemaven.com");
    reveal_strlit("\"\n        content {\n            includeGroup \"curse.maven\"\n        }\n    }");
    reveal_strlit("repositories");
    let b = repo_block(curse_stanza());
    assert(b.subrange(j, j + 12)[0] == b[j]);
    assert(b.subrange(j, j + 12)[1] == b[j + 1]);
    assert(b.subrange(j, j + 12)[2] == b[j + 2]);
    assert(b.subrange(j, j + 12)[3] == b[j + 3]);
}

/// The URL occurs in the inserted block only once.
#[verifier::rlimit(100)]
proof fn lemma_curse_block_url(j: int)
    requires
        matches_at(repo_block(curse_stanza()), j, "https://cursemaven.com"@),
    ensures
        j == 15 + "    maven {\n        name = \"Curse Maven\"\n        url = \""@.len() as int,
{
    reveal_strlit("repositories {\n");
    reveal_strlit("\n}\n\n");
    reveal_strlit("    maven {\n        name = \"Curse Maven\"\n        url = \"");
    reveal_strlit("https://cursemaven.com");
    reveal_strlit("\"\n        content {\n            includeGroup \"curse.maven\"\n        }\n    }");
    let b = repo_block(curse_stanza());
    let n = "https://cursemaven.com"@.len() as int;
    assert(b.subrange(j, j + n)[0] == b[j]);
}

/// Where the header and the URL stand in the inserted block.
proof fn lemma_modrinth_block_facts()
    ensures
        ({
            let b = repo_block(modrinth_stanza());
            let u = 15 + "    maven {\n        name = \"Modrinth\"\n        url = \""@.len() as int;
            &&& b.len() >= 14
            &&& b[b.len() - 1] == '\n'
            &&& matches_at(b, 0, "repositories"@)
            &&& b[12] == ' ' && b[13] == '{'
            &&& matches_at(b, u, "https://api.modrinth.com/maven"@)
        }),
{
    reveal_strlit("repositories {\n");
    reveal_strlit("\n}\n\n");
    reveal_strlit("    maven {\n        name = \"Modrinth\"\n        url = \"");
    reveal_strlit("https://api.modrinth.com/maven");
    reveal_strlit("\"\n    }");
    reveal_strlit("repositories");
    let b = repo_block(modrinth_stanza());
    let u = 15 + "    maven {\n        name = \"Modrinth\"\n        url = \""@.len() as int;
    assert(b.subrange(0, 12) =~= "repositories"@);
    assert(b.subrange(u, u + "https://api.modrinth.com/maven"@.len() as int) =~= "https://api.modrinth.com/maven"@);
}

/// The header word occurs in the inserted block only at its start.
proof fn lemma_modrinth_block_word(j: int)
    requires
        matches_at(repo_block(modrinth_stanza()), j, "repositories"@),
    ensures
        j == 0,
{
    reveal_strlit("repositories {\n");
    reveal_strlit("\n}\n\n");
    reveal_strlit("    maven {\n        name = \"Modrinth\"\n        url = \"");
    reveal_strlit("https://api.modrinth.com/maven");
    reveal_strlit("\"\n    }");
    reveal_strlit("repositories");
    let b = repo_block(modrinth_stanza());
    assert(b.subrange(j, j + 12)[0] == b[j]);
    assert(b.subrange(j, j + 12)[1] == b[j + 1]);
    assert(b.subrange(j, j + 12)[2] == b[j + 2]);
    assert(b.subrange(j, j + 12)[3] == b[j + 3]);
}

/// The URL occurs in the inserted block only once.
#[verifier::rlimit(100)]
proof fn lemma_modrinth_block_url(j: int)
    requires
        matches_at(repo_block(modrinth_stanza()), j, "https://api.modrinth.com/maven"@),
    ensures
        j == 15 + "    maven {\n        name = \"Modrinth\"\n        url = \""@.len() as int,
{
    reveal_strlit("repositories {\n");
    reveal_strlit("\n}\n\n");
    reveal_strlit("    maven {\n        name = \"Modrinth\"\n        url = \"");
    reveal_strlit("https://api.modrinth.com/maven");
    reveal_strlit("\"\n    }");
    let b = repo_block(modrinth_stanza());
    let n = "https://api.modrinth.com/maven"@.len() as int;
    assert(b.subrange(j, j + n)[0] == b[j]);
    assert(b.subrange(j, j + n)[1] == b[j + 1]);
}

proof fn lemma_declared_once_in(t: Seq<char>, stanza: Seq<char>, url: Seq<char>, u: int)
    requires
        !contains(t, "repositories"@),
        !contains(t, url),
        url.len() >= 1,
        forall|k: int| 0 <= k < url.len() ==> #[trigger] url[k] != '\n',
        repo_block(stanza).len() >= 14,
        repo_block(stanza)[repo_block(stanza).len() - 1] == '\n',
        matches_at(repo_block(stanza), 0, "repositories"@),
        repo_block(stanza)[12] == ' ' && repo_block(stanza)[13] == '{',
        forall|j: int| #[trigger] matches_at(repo_block(stanza), j, "repositories"@) ==> j == 0,
        matches_at(repo_block(stanza), u, url),
        forall|j: int| #[trigger] matches_at(repo_block(stanza), j, url) ==> j == u,
    ensures
        ({
            let r = with_repo(t, stanza);
            &&& exists|q: int|
                anchor_end(r, q, "repositories"@) is Some && forall|q2: int| #[trigger]
                    matches_at(r, q2, "repositories"@) ==> q2 == q
            &&& exists|q: int| matches_at(r, q, url) && forall|q2: int| #[trigger] matches_at(r, q2, url) ==> q2 == q
        }),
{
    reveal_strlit("repositories");
    reveal_strlit("\n\n");
    let word = "repositories"@;
    let b = repo_block(stanza);
    lemma_no_name_no_block(t, word, 0);
    let r = with_repo(t, stanza);
    let nl = "\n\n"@;
    let (x, y) = if matches_at(t, ws_end(t, 0), "plugins {"@) {
        let i = find_char_from(t, '}', 0);
        lemma_find_char_bounds(t, '}', 0);
        let cut = if i < t.len() {
            i + 1
        } else {
            0
        };
        lemma_prefix_gap_lacks(t, cut, nl, word);
        lemma_prefix_gap_lacks(t, cut, nl, url);
        (t.subrange(0, cut) + nl, t.subrange(cut, t.len() as int))
    } else {
        assert(t.subrange(0, t.len() as int) =~= t);
        assert(!contains(Seq::<char>::empty(), word));
        assert(!contains(Seq::<char>::empty(), url));
        (Seq::<char>::empty(), t)
    };
    assert(r =~= x + b + y);
    let off = x.len() as int;
    assert(r[off] == b[0]);
    assert(b.subrange(0, 12)[0] == b[0]);
    assert(r[off + 12] == b[12]);
    assert(r[off + 13] == b[13]);
    assert(r.subrange(off, off + 12) =~= b.subrange(0, 12));
    if off > 0 {
        assert(r[off - 1] == x[off - 1]);
    }
    assert(ws_end(r, off) == off);
    assert(ws_end(r, off + 13) == off + 13);
    assert(ws_end(r, off + 12) == off + 13);
    assert(anchor_end(r, off, word) is Some);
    assert forall|q2: int| #[trigger] matches_at(r, q2, word) implies q2 == off by {
        lemma_only_in_middle(x, b, y, word, q2);
    }
    assert(r.subrange(off + u, off + u + url.len()) =~= b.subrange(u, u + url.len()));
    assert(matches_at(r, off + u, url));
    assert forall|q2: int| #[trigger] matches_at(r, q2, url) implies q2 == off + u by {
        lemma_only_in_middle(x, b, y, url, q2);
    }
}

/// Declaring the Curse Maven repository twice in a script that never mentions the
/// word `repositories` nor the repository yields exactly one `repositories` header,
/// standing at a line start as `repositories {`, and exactly one copy of its URL.
pub proof fn lemma_curse_repo_declared_once(t: Seq<char>)
    requires
        !contains(t, "repositories"@),
        !has_curse_repo(t),
    ensures
        ({
            let r = ensured_curse(ensured_curse(t));
            &&& exists|q: int|
                anchor_end(r, q, "repositories"@) is Some && forall|q2: int| #[trigger]
                    matches_at(r, q2, "repositories"@) ==> q2 == q
            &&& exists|q: int|
                matches_at(r, q, "https://cursemaven.com"@) && forall|q2: int| #[trigger]
                    matches_at(r, q2, "https://cursemaven.com"@) ==> q2 == q
        }),
{
    reveal_strlit("https://cursemaven.com");
    lemma_ensure_curse_idempotent(t);
    lemma_curse_block_facts();
    assert forall|j: int| #[trigger] matches_at(repo_block(curse_stanza()), j, "repositories"@) implies j == 0 by {
        lemma_curse_block_word(j);
    }
    let u = 15 + "    maven {\n        name = \"Curse Maven\"\n        url = \""@.len() as int;
    assert forall|j: int| #[trigger] matches_at(repo_block(curse_stanza()), j, "https://cursemaven.com"@) implies j == u by {
        lemma_curse_block_url(j);
    }
    lemma_declared_once_in(t, curse_stanza(), "https://cursemaven.com"@, u);
}

/// The Modrinth counterpart of `lemma_curse_repo_declared_once`.
pub proof fn lemma_modrinth_repo_declared_once(t: Seq<char>)
    requires
        !contains(t, "repositories"@),
        !has_modrinth_repo(t),
    ensures
        ({
            let r = ensured_modrinth(ensured_modrinth(t));
            &&& exists|q: int|
                anchor_end(r, q, "repositories"@) is Some && forall|q2: int| #[trigger]
                    matches_at(r, q2, "repositories"@) ==> q2 == q
            &&& exists|q: int|
                matches_at(r, q, "https://api.modrinth.com/maven"@) && forall|q2: int| #[trigger]
                    matches_at(r, q2, "https://api.modrinth.com/maven"@) ==> q2 == q
        }),
{
    reveal_strlit("https://api.modrinth.com/maven");
    lemma_ensure_modrinth_idempotent(t);
    lemma_modrinth_block_facts();
    assert forall|j: int| #[trigger] matches_at(repo_block(modrinth_stanza()), j, "repositories"@) implies j == 0 by {
        lemma_modrinth_block_word(j);
    }
    let u = 15 + "    maven {\n        name = \"Modrinth\"\n        url = \""@.len() as int;
    assert forall|j: int| #[trigger] matches_at(repo_block(modrinth_stanza()), j, "https://api.modrinth.com/maven"@) implies j == u by {
        lemma_modrinth_block_url(j);
    }
    lemma_declared_once_in(t, modrinth_stanza(), "https://api.modrinth.com/maven"@, u);
}

} // verus!
