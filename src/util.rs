//! Small conversions: loader tags, release levels, MIME types, data URLs and
//! shortened diagnostics.
use vstd::prelude::*;
use vstd::utf8::{encode_utf8, is_char_boundary};
use vstd::string::StringSliceAdditionalSpecFns;
use base64::Engine;
use crate::text::{lower_of, lowercase, push_str, same_text};

verus! {

/// What `char::to_uppercase` yields for a character; it depends on the character alone.
pub uninterp spec fn upper_of(c: char) -> Seq<char>;

/// Relies on `char::to_uppercase`: the Unicode upper-case mapping of one character.
#[verifier::external_body]
fn uppercase_char(c: char) -> (r: String)
    ensures
        r@ == upper_of(c),
{
    c.to_uppercase().collect::<String>()
}

/// Character of the standard Base64 alphabet for the 6-bit value `v`.
pub open spec fn base64_digit(v: int) -> char {
    if v < 26 {
        (('A' as int) + v) as char
    } else if v < 52 {
        (('a' as int) + v - 26) as char
    } else if v < 62 {
        (('0' as int) + v - 52) as char
    } else if v == 62 {
        '+'
    } else {
        '/'
    }
}

/// Padded Base64 in the standard alphabet (RFC 4648): each group of three bytes
/// becomes four characters; a last group of one or two bytes is padded with `=`.
pub open spec fn base64(b: Seq<u8>) -> Seq<char>
    decreases b.len(),
{
    if b.len() == 0 {
        Seq::<char>::empty()
    } else {
        let x = b[0] as int;
        let y = if b.len() > 1 { b[1] as int } else { 0 };
        let z = if b.len() > 2 { b[2] as int } else { 0 };
        let c0 = base64_digit(x / 4);
        let c1 = base64_digit((x % 4) * 16 + y / 16);
        let c2 = base64_digit((y % 16) * 4 + z / 64);
        let c3 = base64_digit(z % 64);
        if b.len() == 1 {
            seq![c0, c1, '=', '=']
        } else if b.len() == 2 {
            seq![c0, c1, c2, '=']
        } else {
            seq![c0, c1, c2, c3] + base64(b.subrange(3, b.len() as int))
        }
    }
}

/// Relies on `base64::engine::general_purpose::STANDARD.encode`: padded Base64 of the
/// bytes in the standard alphabet.
#[verifier::external_body]
fn base64_standard(bytes: &[u8]) -> (r: String)
    ensures
        r@ == base64(bytes@),
{
    base64::engine::general_purpose::STANDARD.encode(bytes)
}

/// Display tag of an already lower-cased loader name: the four known loaders by
/// their proper names, any other name with its first character upper-cased.
pub open spec fn tag_of_lowered(l: Seq<char>) -> Seq<char> {
    if l == "forge"@ {
        "Forge"@
    } else if l == "neoforge"@ {
        "NeoForge"@
    } else if l == "fabric"@ {
        "Fabric"@
    } else if l == "quilt"@ {
        "Quilt"@
    } else if l.len() == 0 {
        Seq::<char>::empty()
    } else {
        upper_of(l[0]) + l.drop_first()
    }
}

/// Display tag for a lower-cased loader name.
pub fn loader_tag_from_lowered(lowered: &str) -> (r: String)
    ensures
        r@ == tag_of_lowered(lowered@),
{
    let mut out = String::new();
    if same_text(lowered, "forge") {
        push_str(&mut out, "Forge");
    } else if same_text(lowered, "neoforge") {
        push_str(&mut out, "NeoForge");
    } else if same_text(lowered, "fabric") {
        push_str(&mut out, "Fabric");
    } else if same_text(lowered, "quilt") {
        push_str(&mut out, "Quilt");
    } else {
        let t = crate::text::chars_of(lowered);
        if t.len() > 0 {
            let first = uppercase_char(t[0]);
            push_str(&mut out, first.as_str());
            crate::text::push_range(&mut out, &t, 1, t.len());
            assert(out@ =~= upper_of(lowered@[0]) + lowered@.drop_first());
        } else {
            assert(out@ =~= Seq::<char>::empty());
        }
    }
    out
}

/// Display tag of a loader name, which is compared lower-cased.
pub fn loader_name_to_tag(name: &str) -> (r: String)
    ensures
        r@ == tag_of_lowered(lower_of(name@)),
{
    let lowered = lowercase(name);
    loader_tag_from_lowered(lowered.as_str())
}

/// Name of a release level by its numeric code.
pub open spec fn release_level(code: u8) -> Seq<char> {
    if code == 1 {
        "release"@
    } else if code == 2 {
        "beta"@
    } else if code == 3 {
        "alpha"@
    } else {
        "unknown"@
    }
}

/// Name of a release level: 1 release, 2 beta, 3 alpha, anything else unknown.
pub fn release_type_str(code: u8) -> (r: &'static str)
    ensures
        r@ == release_level(code),
{
    match code {
        1 => "release",
        2 => "beta",
        3 => "alpha",
        _ => "unknown",
    }
}

/// MIME type of an already lower-cased file extension.
pub open spec fn mime_of_lowered(ext: Seq<char>) -> Seq<char> {
    if ext == "png"@ {
        "image/png"@
    } else if ext == "jpg"@ || ext == "jpeg"@ {
        "image/jpeg"@
    } else if ext == "webp"@ {
        "image/webp"@
    } else {
        "application/octet-stream"@
    }
}

/// MIME type for a lower-cased file extension.
pub fn mime_for_lowered(ext: &str) -> (r: &'static str)
    ensures
        r@ == mime_of_lowered(ext@),
{
    if same_text(ext, "png") {
        "image/png"
    } else if same_text(ext, "jpg") || same_text(ext, "jpeg") {
        "image/jpeg"
    } else if same_text(ext, "webp") {
        "image/webp"
    } else {
        "application/octet-stream"
    }
}

/// MIME type for a file extension, compared lower-cased.
pub fn mime_for_ext(ext: &str) -> (r: &'static str)
    ensures
        r@ == mime_of_lowered(lower_of(ext@)),
{
    let lowered = lowercase(ext);
    mime_for_lowered(lowered.as_str())
}

/// A `data:` URL holding `bytes` in Base64, typed by the file extension `ext`.
pub fn data_url(bytes: &Vec<u8>, ext: &str) -> (r: String)
    ensures
        r@ == "data:"@ + mime_of_lowered(lower_of(ext@)) + ";base64,"@ + base64(bytes@),
{
    let mime = mime_for_ext(ext);
    let encoded = base64_standard(bytes.as_slice());
    let mut out = String::new();
    push_str(&mut out, "data:");
    push_str(&mut out, mime);
    push_str(&mut out, ";base64,");
    push_str(&mut out, encoded.as_str());
    out
}

/// `s` cut to its first `max` bytes with `...` appended, when it is longer than that.
pub fn shorten(s: &str, max: usize) -> (r: String)
    requires
        s.spec_bytes().len() <= max || is_char_boundary(s.spec_bytes(), max as int),
    ensures
        s.spec_bytes().len() <= max ==> r@ == s@,
        s.spec_bytes().len() > max ==> {
            &&& r@.len() >= 3
            &&& r@.subrange(r@.len() - 3, r@.len() as int) == "..."@
            &&& encode_utf8(r@.subrange(0, r@.len() - 3)) == s.spec_bytes().subrange(0, max as int)
        },
{
    let mut out = String::new();
    if s.as_bytes().len() <= max {
        push_str(&mut out, s);
    } else {
        let (head, _tail) = s.split_at(max);
        push_str(&mut out, head);
        push_str(&mut out, "...");
        proof {
            reveal_strlit("...");
            assert(out@.subrange(0, out@.len() - 3) =~= head@);
            assert(out@.subrange(out@.len() - 3, out@.len() as int) =~= "..."@);
            assert(head.spec_bytes() == encode_utf8(head@));
            assert(encode_utf8(out@.subrange(0, out@.len() - 3)) == s.spec_bytes().subrange(
                0,
                max as int,
            ));
        }
    }
    out
}

/// `base` doubled `n` times.
pub open spec fn doubled(base: nat, n: nat) -> nat
    decreases n,
{
    if n == 0 {
        base
    } else {
        2 * doubled(base, (n - 1) as nat)
    }
}

proof fn lemma_doubled_monotonic(base: nat, i: nat, n: nat)
    requires
        i <= n,
    ensures
        doubled(base, i) <= doubled(base, n),
    decreases n - i,
{
    if i < n {
        lemma_doubled_monotonic(base, i, (n - 1) as nat);
    }
}

/// Exponential backoff: `base_ms` doubled once per earlier attempt.
pub fn backoff_ms(base_ms: u64, attempt: u32) -> (r: u64)
    requires
        doubled(base_ms as nat, attempt as nat) <= u64::MAX,
    ensures
        r == doubled(base_ms as nat, attempt as nat),
{
    let mut d = base_ms;
    let mut i: u32 = 0;
    while i < attempt
        invariant
            i <= attempt,
            d == doubled(base_ms as nat, i as nat),
            doubled(base_ms as nat, attempt as nat) <= u64::MAX,
        decreases attempt - i,
    {
        proof {
            lemma_doubled_monotonic(base_ms as nat, (i + 1) as nat, attempt as nat);
        }
        d = d * 2;
        i = i + 1;
    }
    d
}

/// Pause before retrying after attempt `attempt` (counted from 0) failed, when
/// `retries` retries are allowed in all: the backoff, or `None` when none is left.
pub fn retry_delay_ms(attempt: u32, retries: u32, base_ms: u64) -> (r: Option<u64>)
    requires
        doubled(base_ms as nat, attempt as nat) <= u64::MAX,
    ensures
        r == if attempt < retries {
            Some(doubled(base_ms as nat, attempt as nat) as u64)
        } else {
            None::<u64>
        },
{
    if attempt < retries {
        Some(backoff_ms(base_ms, attempt))
    } else {
        None
    }
}

} // verus!
