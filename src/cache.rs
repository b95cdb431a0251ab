//! Naming and freshness rules of the on-disk response cache.
use vstd::prelude::*;
use crate::text::{chars_of, is_ascii_alnum};

verus! {

/// Characters that a cache key keeps as they are.
pub open spec fn key_char_kept(c: char) -> bool {
    is_ascii_alnum(c) || c == '-' || c == '_' || c == '.'
}

/// `s` with every other character replaced by `_`; `_` for the empty string.
pub open spec fn safe_segment(s: Seq<char>) -> Seq<char> {
    if s.len() == 0 {
        seq!['_']
    } else {
        s.map_values(|c: char| if key_char_kept(c) { c } else { '_' })
    }
}

/// Makes `s` safe to use as part of a cache file name.
pub fn safe_key_segment(s: &str) -> (r: String)
    ensures
        r@ == safe_segment(s@),
{
    let t = chars_of(s);
    let mut out = String::new();
    let mut i: usize = 0;
    while i < t.len()
        invariant
            i <= t@.len(),
            t@ == s@,
            out@ == t@.subrange(0, i as int).map_values(
                |c: char| if key_char_kept(c) { c } else { '_' },
            ),
        decreases t.len() - i,
    {
        let c = t[i];
        let keep = ('0' <= c && c <= '9') || ('a' <= c && c <= 'z') || ('A' <= c && c <= 'Z')
            || c == '-' || c == '_' || c == '.';
        if keep {
            out.push(c);
        } else {
            out.push('_');
        }
        i = i + 1;
        assert(out@ =~= t@.subrange(0, i as int).map_values(
            |c: char| if key_char_kept(c) { c } else { '_' },
        ));
    }
    assert(t@.subrange(0, t@.len() as int) =~= t@);
    if t.len() == 0 {
        out.push('_');
        assert(out@ =~= seq!['_']);
    }
    out
}

/// A cache entry written at `fetched_at` is still fresh at `now` (milliseconds):
/// its age, zero for an entry from the future, is at most `ttl_ms`.
pub fn cache_entry_fresh(now: u64, fetched_at: u64, ttl_ms: u64) -> (r: bool)
    ensures
        r == ((if now >= fetched_at { now - fetched_at } else { 0 }) <= ttl_ms),
{
    let age = if now >= fetched_at {
        now - fetched_at
    } else {
        0
    };
    age <= ttl_ms
}

} // verus!
