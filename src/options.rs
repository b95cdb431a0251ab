//! What a project offers: its game versions, its loaders, and which go together.
use vstd::prelude::*;
use crate::cf::{cf_loader_tag, cf_mod_loader_to_tag, CfLatestFileIndex};
use crate::mojang::{
    cf_order_key, first_seen, holds, order_mc_versions, order_mc_versions_cf, ordered_listing,
    plain_key, VersionIndex,
};
use crate::mr::{lemma_text_lt_total, lemma_text_lt_trans, text_less, text_lt, MrVersion};
use crate::text::{chars_of, push_str, same_text};

verus! {

/// `s` holds the text `x`.
pub open spec fn has_text(s: Seq<String>, x: Seq<char>) -> bool {
    exists|i: int| 0 <= i < s.len() && s[i]@ == x
}

/// `s` is in strictly ascending order, so each text occurs once.
pub open spec fn strictly_ascending(s: Seq<String>) -> bool {
    forall|i: int, j: int| 0 <= i < j < s.len() ==> text_lt(s[i]@, s[j]@)
}

/// `out` holds the texts of `input`, each once, in ascending order.
pub open spec fn sorted_set_of(input: Seq<String>, out: Seq<String>) -> bool {
    &&& strictly_ascending(out)
    &&& forall|x: Seq<char>| #[trigger] has_text(out, x) <==> has_text(input, x)
}

/// The texts of `input`, each once, in ascending order.
pub fn sorted_distinct(input: &Vec<String>) -> (r: Vec<String>)
    ensures
        sorted_set_of(input@, r@),
{
    let mut out: Vec<String> = Vec::new();
    let mut k: usize = 0;
    while k < input.len()
        invariant
            k <= input@.len(),
            strictly_ascending(out@),
            forall|x: Seq<char>| #[trigger] has_text(out@, x) <==> has_text(input@.subrange(0, k as int), x),
        decreases input.len() - k,
    {
        let x = input[k].as_str();
        let mut p: usize = 0;
        while p < out.len() && text_less(out[p].as_str(), x)
            invariant
                p <= out@.len(),
                x@ == input@[k as int]@,
                forall|i: int| 0 <= i < p ==> text_lt(out@[i]@, x@),
            decreases out.len() - p,
        {
            p = p + 1;
        }
        let ghost old_out = out@;
        let ghost pre = input@.subrange(0, k as int);
        let ghost next = input@.subrange(0, k + 1);
        proof {
            assert(next =~= pre.push(input@[k as int]));
            assert forall|y: Seq<char>| #[trigger] has_text(next, y) <==> (has_text(pre, y) || y == x@) by {
                if has_text(next, y) {
                    let i = choose|i: int| 0 <= i < next.len() && next[i]@ == y;
                    if i < k {
                        assert(pre[i]@ == y);
                    }
                }
                if has_text(pre, y) {
                    let i = choose|i: int| 0 <= i < pre.len() && pre[i]@ == y;
                    assert(next[i]@ == y);
                }
                if y == x@ {
                    assert(next[k as int]@ == y);
                }
            }
        }
        if p < out.len() && same_text(out[p].as_str(), x) {
            proof {
                assert forall|y: Seq<char>| #[trigger] has_text(out@, y) <==> has_text(next, y) by {
                    if y == x@ {
                        assert(out@[p as int]@ == y);
                    }
                }
            }
        } else {
            out.insert(p, input[k].clone());
            proof {
                old_out.insert_ensures(p as int, input@[k as int]);
                if p < old_out.len() {
                    lemma_text_lt_total(old_out[p as int]@, x@);
                }
                assert forall|i: int| p <= i < old_out.len() implies text_lt(x@, old_out[i]@) by {
                    lemma_text_lt_total(old_out[p as int]@, x@);
                    if i > p {
                        lemma_text_lt_trans(x@, old_out[p as int]@, old_out[i]@);
                    }
                }
                assert forall|i: int, j: int| 0 <= i < j < out@.len() implies text_lt(out@[i]@, out@[j]@) by {
                    if j < p {
                    } else if j == p {
                    } else if i < p {
                        assert(out@[j] == old_out[j - 1]);
                        lemma_text_lt_trans(out@[i]@, x@, old_out[j - 1]@);
                    } else if i == p {
                        assert(out@[j] == old_out[j - 1]);
                    } else {
                        assert(out@[i] == old_out[i - 1]);
                        assert(out@[j] == old_out[j - 1]);
                    }
                }
                assert forall|y: Seq<char>| #[trigger] has_text(out@, y) <==> has_text(next, y) by {
                    if has_text(out@, y) {
                        let i = choose|i: int| 0 <= i < out@.len() && out@[i]@ == y;
                        if i < p {
                            assert(old_out[i]@ == y);
                            assert(has_text(old_out, y));
                        } else if i > p {
                            assert(old_out[i - 1]@ == y);
                            assert(has_text(old_out, y));
                        }
                    }
                    if has_text(old_out, y) {
                        let i = choose|i: int| 0 <= i < old_out.len() && old_out[i]@ == y;
                        if i < p {
                            assert(out@[i]@ == y);
                        } else {
                            assert(out@[i + 1]@ == y);
                        }
                    }
                    if y == x@ {
                        assert(out@[p as int]@ == y);
                    }
                }
            }
        }
        k = k + 1;
    }
    assert(input@.subrange(0, input@.len() as int) =~= input@);
    out
}

/// `out` holds, each once and in ascending order, the texts for which `member` holds.
pub open spec fn ascending_set(out: Seq<String>, member: spec_fn(Seq<char>) -> bool) -> bool {
    &&& strictly_ascending(out)
    &&& forall|x: Seq<char>| #[trigger] has_text(out, x) <==> member(x)
}

/// Some pair of `pairs` is `(a, b)`.
pub open spec fn has_pair(pairs: Seq<(String, String)>, a: Seq<char>, b: Seq<char>) -> bool {
    exists|j: int| 0 <= j < pairs.len() && pairs[j].0@ == a && pairs[j].1@ == b
}

/// The texts paired with `a`, each once, in ascending order.
fn values_for(pairs: &Vec<(String, String)>, a: &str) -> (r: Vec<String>)
    ensures
        ascending_set(r@, |b: Seq<char>| has_pair(pairs@, a@, b)),
{
    let mut vals: Vec<String> = Vec::new();
    let mut j: usize = 0;
    while j < pairs.len()
        invariant
            j <= pairs@.len(),
            forall|b: Seq<char>| #[trigger] has_text(vals@, b) <==> exists|i: int|
                0 <= i < j && pairs@[i].0@ == a@ && pairs@[i].1@ == b,
        decreases pairs.len() - j,
    {
        if same_text(pairs[j].0.as_str(), a) {
            let ghost old_vals = vals@;
            vals.push(pairs[j].1.clone());
            proof {
                assert forall|b: Seq<char>| #[trigger] has_text(vals@, b) <==> exists|i: int|
                    0 <= i < j + 1 && pairs@[i].0@ == a@ && pairs@[i].1@ == b by {
                    if has_text(vals@, b) {
                        let w = choose|w: int| 0 <= w < vals@.len() && vals@[w]@ == b;
                        if w < old_vals.len() {
                            assert(has_text(old_vals, b));
                        }
                    }
                    if exists|i: int| 0 <= i < j + 1 && pairs@[i].0@ == a@ && pairs@[i].1@ == b {
                        let i = choose|i: int| 0 <= i < j + 1 && pairs@[i].0@ == a@ && pairs@[i].1@ == b;
                        if i < j {
                            assert(has_text(old_vals, b));
                            let w = choose|w: int| 0 <= w < old_vals.len() && old_vals[w]@ == b;
                            assert(vals@[w]@ == b);
                        } else {
                            assert(vals@[vals@.len() - 1]@ == b);
                        }
                    }
                }
            }
        }
        j = j + 1;
    }
    let r = sorted_distinct(&vals);
    proof {
        assert forall|b: Seq<char>| #[trigger] has_text(r@, b) <==> has_pair(pairs@, a@, b) by {
            assert(has_text(r@, b) <==> has_text(vals@, b));
        }
    }
    r
}

/// The first texts of `pairs`, each once, in ascending order.
fn first_texts(pairs: &Vec<(String, String)>) -> (r: Vec<String>)
    ensures
        ascending_set(r@, |a: Seq<char>| exists|b: Seq<char>| has_pair(pairs@, a, b)),
{
    let mut all: Vec<String> = Vec::new();
    let mut j: usize = 0;
    while j < pairs.len()
        invariant
            j <= pairs@.len(),
            all@.len() == j,
            forall|i: int| 0 <= i < j ==> #[trigger] all@[i] == pairs@[i].0,
        decreases pairs.len() - j,
    {
        all.push(pairs[j].0.clone());
        j = j + 1;
    }
    let r = sorted_distinct(&all);
    proof {
        assert forall|a: Seq<char>| #[trigger] has_text(r@, a) <==> exists|b: Seq<char>| has_pair(pairs@, a, b) by {
            if has_text(all@, a) {
                let i = choose|i: int| 0 <= i < all@.len() && all@[i]@ == a;
                assert(has_pair(pairs@, a, pairs@[i].1@));
            }
            if exists|b: Seq<char>| has_pair(pairs@, a, b) {
                let b = choose|b: Seq<char>| has_pair(pairs@, a, b);
                let i = choose|i: int| 0 <= i < pairs@.len() && pairs@[i].0@ == a && pairs@[i].1@ == b;
                assert(all@[i]@ == a);
            }
        }
    }
    r
}

/// The pairs with their two texts swapped.
fn swapped(pairs: &Vec<(String, String)>) -> (r: Vec<(String, String)>)
    ensures
        forall|a: Seq<char>, b: Seq<char>| #[trigger] has_pair(r@, a, b) <==> has_pair(pairs@, b, a),
{
    let mut out: Vec<(String, String)> = Vec::new();
    let mut j: usize = 0;
    while j < pairs.len()
        invariant
            j <= pairs@.len(),
            out@.len() == j,
            forall|i: int| 0 <= i < j ==> #[trigger] out@[i].0 == pairs@[i].1 && out@[i].1 == pairs@[i].0,
        decreases pairs.len() - j,
    {
        out.push((pairs[j].1.clone(), pairs[j].0.clone()));
        j = j + 1;
    }
    proof {
        assert forall|a: Seq<char>, b: Seq<char>| #[trigger] has_pair(out@, a, b) <==> has_pair(pairs@, b, a) by {
            if has_pair(out@, a, b) {
                let i = choose|i: int| 0 <= i < out@.len() && out@[i].0@ == a && out@[i].1@ == b;
                assert(pairs@[i].0@ == b && pairs@[i].1@ == a);
            }
            if has_pair(pairs@, b, a) {
                let i = choose|i: int| 0 <= i < pairs@.len() && pairs@[i].0@ == b && pairs@[i].1@ == a;
                assert(out@[i].0 == pairs@[i].1 && out@[i].1 == pairs@[i].0);
                assert(out@[i].0@ == a && out@[i].1@ == b);
            }
        }
    }
    out
}

/// A project's game versions and loaders, and which of them go together.
pub struct ProjectOptions {
    pub versions: Vec<String>,
    pub loaders: Vec<String>,
    pub version_to_loaders: Vec<(String, Vec<String>)>,
    pub loader_to_versions: Vec<(String, Vec<String>)>,
}

/// `out` is `s` ordered by the version index, as `order_mc_versions_cf` (when `fuzzy`)
/// or `order_mc_versions` order it.
pub open spec fn manifest_order(index: Option<VersionIndex>, fuzzy: bool, s: Seq<String>, out: Seq<String>) -> bool {
    match index {
        Some(ix) => if fuzzy {
            ordered_listing(s, out, |x: Seq<char>| cf_order_key(ix, x))
        } else {
            ordered_listing(s, out, |x: Seq<char>| plain_key(Some(ix), x))
        },
        None => if fuzzy {
            out == s
        } else {
            ordered_listing(s, out, |x: Seq<char>| plain_key(None, x))
        },
    }
}

/// Sort key of a version under the index (`cf_order_key` when `fuzzy`); without an
/// index every key is the same.
pub open spec fn version_key(index: Option<VersionIndex>, fuzzy: bool, x: Seq<char>) -> int {
    match index {
        Some(ix) => if fuzzy {
            cf_order_key(ix, x)
        } else {
            plain_key(Some(ix), x)
        },
        None => 0,
    }
}

/// `out` holds, each once, the texts for which `member` holds, by ascending version
/// key, ties in ascending text order.
pub open spec fn listed_in_order(
    out: Seq<String>,
    member: spec_fn(Seq<char>) -> bool,
    index: Option<VersionIndex>,
    fuzzy: bool,
) -> bool {
    &&& forall|x: Seq<char>| #[trigger] has_text(out, x) <==> member(x)
    &&& forall|i: int, j: int| 0 <= i < j < out.len() ==> out[i]@ != out[j]@
    &&& forall|i: int, j: int|
        0 <= i < j < out.len() ==> version_key(index, fuzzy, out[i]@) < version_key(index, fuzzy, out[j]@)
            || (version_key(index, fuzzy, out[i]@) == version_key(index, fuzzy, out[j]@) && text_lt(
            out[i]@,
            out[j]@,
        ))
}

proof fn lemma_first_seen_ascending(s: Seq<String>, p: int)
    requires
        strictly_ascending(s),
        0 <= p < s.len(),
    ensures
        first_seen(s, s[p]@, p),
{
    assert forall|q: int| 0 <= q < p implies s[q]@ != s[p]@ by {
        lemma_text_lt_total(s[q]@, s[q]@);
    }
}

/// Ordering an ascending set by the version index lists it in version-key order.
proof fn lemma_listed_in_order(
    s: Seq<String>,
    member: spec_fn(Seq<char>) -> bool,
    index: Option<VersionIndex>,
    fuzzy: bool,
    out: Seq<String>,
)
    requires
        ascending_set(s, member),
        manifest_order(index, fuzzy, s, out),
    ensures
        listed_in_order(out, member, index, fuzzy),
{
    let key = |x: Seq<char>| version_key(index, fuzzy, x);
    if index is None && fuzzy {
        assert forall|i: int, j: int| 0 <= i < j < out.len() implies out[i]@ != out[j]@ by {
            lemma_text_lt_total(out[i]@, out[i]@);
        }
        assert forall|x: Seq<char>| #[trigger] has_text(out, x) <==> member(x) by {
            assert(has_text(s, x) <==> member(x));
        }
    } else {
        assert(ordered_listing(s, out, key)) by {
            match index {
                Some(ix) => {
                    if fuzzy {
                        assert(key =~= (|x: Seq<char>| cf_order_key(ix, x)));
                    } else {
                        assert(key =~= (|x: Seq<char>| plain_key(Some(ix), x)));
                    }
                },
                None => {
                    assert(key =~= (|x: Seq<char>| plain_key(None, x)));
                },
            }
        }
        assert forall|x: Seq<char>| #[trigger] has_text(out, x) <==> member(x) by {
            assert(holds(out, x) <==> holds(s, x));
            assert(has_text(s, x) <==> member(x));
        }
        assert forall|i: int, j: int| 0 <= i < j < out.len() && key(out[i]@) == key(out[j]@)
            implies text_lt(out[i]@, out[j]@) by {
            assert(holds(out, out[i]@));
            assert(holds(out, out[j]@));
            let p = choose|p: int| 0 <= p < s.len() && s[p]@ == out[i]@;
            let q = choose|q: int| 0 <= q < s.len() && s[q]@ == out[j]@;
            lemma_first_seen_ascending(s, p);
            lemma_first_seen_ascending(s, q);
            assert(first_seen(s, out[i]@, p));
            assert(first_seen(s, out[j]@, q));
        }
    }
}

/// The texts paired with `b` as first text.
pub open spec fn firsts_with(pair: spec_fn(Seq<char>, Seq<char>) -> bool, b: Seq<char>) -> spec_fn(Seq<char>) -> bool {
    |a: Seq<char>| pair(a, b)
}

/// The texts paired with `a` as second text.
pub open spec fn seconds_with(pair: spec_fn(Seq<char>, Seq<char>) -> bool, a: Seq<char>) -> spec_fn(Seq<char>) -> bool {
    |b: Seq<char>| pair(a, b)
}

/// The texts that stand first in some pair.
pub open spec fn all_firsts(pair: spec_fn(Seq<char>, Seq<char>) -> bool) -> spec_fn(Seq<char>) -> bool {
    |a: Seq<char>| exists|b: Seq<char>| #[trigger] pair(a, b)
}

/// The texts that stand second in some pair.
pub open spec fn all_seconds(pair: spec_fn(Seq<char>, Seq<char>) -> bool) -> spec_fn(Seq<char>) -> bool {
    |b: Seq<char>| exists|a: Seq<char>| #[trigger] pair(a, b)
}

pub open spec fn keys_of(m: Seq<(String, Vec<String>)>) -> Seq<String> {
    Seq::new(m.len(), |i: int| m[i].0)
}

/// `r` holds: the listed versions in manifest order; the loaders paired with some
/// version, ascending; for each version paired with some loader (ascending), its
/// loaders, ascending; for each loader (ascending), its versions in manifest order.
pub open spec fn options_hold(
    listed: spec_fn(Seq<char>) -> bool,
    pair: spec_fn(Seq<char>, Seq<char>) -> bool,
    index: Option<VersionIndex>,
    fuzzy: bool,
    r: ProjectOptions,
) -> bool {
    &&& listed_in_order(r.versions@, listed, index, fuzzy)
    &&& ascending_set(r.loaders@, all_seconds(pair))
    &&& ascending_set(keys_of(r.version_to_loaders@), all_firsts(pair))
    &&& forall|i: int| 0 <= i < r.version_to_loaders@.len() ==> ascending_set(
        (#[trigger] r.version_to_loaders@[i]).1@,
        seconds_with(pair, r.version_to_loaders@[i].0@),
    )
    &&& keys_of(r.loader_to_versions@) == r.loaders@
    &&& forall|i: int| 0 <= i < r.loader_to_versions@.len() ==> listed_in_order(
        (#[trigger] r.loader_to_versions@[i]).1@,
        firsts_with(pair, r.loader_to_versions@[i].0@),
        index,
        fuzzy,
    )
}

fn in_manifest_order(index: &Option<VersionIndex>, fuzzy: bool, s: Vec<String>) -> (r: Vec<String>)
    ensures
        manifest_order(*index, fuzzy, s@, r@),
{
    if fuzzy {
        order_mc_versions_cf(index, s)
    } else {
        order_mc_versions(index, s)
    }
}

/// Membership in a list of texts.
pub open spec fn listed_in(listed: Seq<String>) -> spec_fn(Seq<char>) -> bool {
    |x: Seq<char>| has_text(listed, x)
}

/// Membership in a list of pairs of texts.
pub open spec fn paired_in(pairs: Seq<(String, String)>) -> spec_fn(Seq<char>, Seq<char>) -> bool {
    |a: Seq<char>, b: Seq<char>| has_pair(pairs, a, b)
}

fn build_options(
    listed: &Vec<String>,
    pairs: &Vec<(String, String)>,
    index: &Option<VersionIndex>,
    fuzzy: bool,
) -> (r: ProjectOptions)
    ensures
        options_hold(listed_in(listed@), paired_in(pairs@), *index, fuzzy, r),
{
    let vs = sorted_distinct(listed);
    let ghost vs_view = vs@;
    let versions = in_manifest_order(index, fuzzy, vs);
    let by_loader = swapped(pairs);
    let loaders = first_texts(&by_loader);
    proof {
        assert forall|t: Seq<char>| #[trigger] has_text(loaders@, t) <==> all_seconds(paired_in(pairs@))(t) by {
            if has_text(loaders@, t) {
                let b = choose|b: Seq<char>| has_pair(by_loader@, t, b);
                assert(paired_in(pairs@)(b, t));
            }
            if exists|v: Seq<char>| #[trigger] paired_in(pairs@)(v, t) {
                let v = choose|v: Seq<char>| #[trigger] paired_in(pairs@)(v, t);
                assert(has_pair(by_loader@, t, v));
            }
        }
    }
    let vkeys = first_texts(pairs);
    let mut v2l: Vec<(String, Vec<String>)> = Vec::new();
    let mut i: usize = 0;
    while i < vkeys.len()
        invariant
            i <= vkeys@.len(),
            v2l@.len() == i,
            forall|k: int| 0 <= k < i ==> (#[trigger] v2l@[k]).0 == vkeys@[k],
            forall|k: int| 0 <= k < i ==> ascending_set(
                (#[trigger] v2l@[k]).1@,
                seconds_with(paired_in(pairs@), v2l@[k].0@),
            ),
        decreases vkeys.len() - i,
    {
        let vals = values_for(pairs, vkeys[i].as_str());
        v2l.push((vkeys[i].clone(), vals));
        i = i + 1;
    }
    let mut l2v: Vec<(String, Vec<String>)> = Vec::new();
    let mut i: usize = 0;
    while i < loaders.len()
        invariant
            i <= loaders@.len(),
            forall|a: Seq<char>, b: Seq<char>| #[trigger] has_pair(by_loader@, a, b) <==> has_pair(pairs@, b, a),
            l2v@.len() == i,
            forall|k: int| 0 <= k < i ==> (#[trigger] l2v@[k]).0 == loaders@[k],
            forall|k: int| 0 <= k < i ==> listed_in_order(
                (#[trigger] l2v@[k]).1@,
                firsts_with(paired_in(pairs@), l2v@[k].0@),
                *index,
                fuzzy,
            ),
        decreases loaders.len() - i,
    {
        let vals = values_for(&by_loader, loaders[i].as_str());
        let ghost vals_view = vals@;
        let ordered = in_manifest_order(index, fuzzy, vals);
        let ghost tag = loaders@[i as int]@;
        let ghost old_l2v = l2v@;
        proof {
            assert forall|v: Seq<char>| #[trigger] has_text(vals_view, v) <==> paired_in(pairs@)(v, tag) by {
                assert(has_pair(by_loader@, tag, v) <==> has_pair(pairs@, v, tag));
            }
        }
        l2v.push((loaders[i].clone(), ordered));
        proof {
            assert(l2v@[i as int].0@ == tag);
            assert(ascending_set(vals_view, firsts_with(paired_in(pairs@), l2v@[i as int].0@)));
            assert(manifest_order(*index, fuzzy, vals_view, l2v@[i as int].1@));
            lemma_listed_in_order(
                vals_view,
                firsts_with(paired_in(pairs@), l2v@[i as int].0@),
                *index,
                fuzzy,
                l2v@[i as int].1@,
            );
            assert forall|k: int| 0 <= k < i + 1 implies listed_in_order(
                (#[trigger] l2v@[k]).1@,
                firsts_with(paired_in(pairs@), l2v@[k].0@),
                *index,
                fuzzy,
            ) by {
                if k < i {
                    assert(l2v@[k] == old_l2v[k]);
                }
            }
        }
        i = i + 1;
    }
    let r = ProjectOptions { versions, loaders, version_to_loaders: v2l, loader_to_versions: l2v };
    proof {
        assert(ascending_set(vs_view, listed_in(listed@)));
        assert(manifest_order(*index, fuzzy, vs_view, r.versions@));
        assert(keys_of(r.version_to_loaders@) =~= vkeys@);
        assert(keys_of(r.loader_to_versions@) =~= r.loaders@);
        assert forall|v: Seq<char>| #[trigger] has_text(vkeys@, v) <==> all_firsts(paired_in(pairs@))(v) by {
            if has_text(vkeys@, v) {
                let b = choose|b: Seq<char>| has_pair(pairs@, v, b);
                assert(paired_in(pairs@)(v, b));
            }
        }
        lemma_listed_in_order(vs_view, listed_in(listed@), *index, fuzzy, r.versions@);
    }
    r
}

/// What `char::is_numeric` says of a character; it depends on the character alone.
pub uninterp spec fn numeric_of(c: char) -> bool;

/// Relies on `char::is_numeric`: whether the character is a Unicode number (`Nd`,
/// `Nl` or `No`).
#[verifier::external_body]
fn is_numeric_char(c: char) -> (r: bool)
    ensures
        r == numeric_of(c),
{
    c.is_numeric()
}

/// Tag of the loader of an index entry, for the loaders CurseForge names.
pub open spec fn cf_known_tag(e: CfLatestFileIndex) -> Option<Seq<char>> {
    match e.mod_loader {
        Some(c) => if cf_loader_tag(c) != "Unknown"@ {
            Some(cf_loader_tag(c))
        } else {
            None
        },
        None => None,
    }
}

/// Game version `v` and loader tag `t` go together in some entry of `s`.
pub open spec fn cf_option_pair(s: Seq<CfLatestFileIndex>) -> spec_fn(Seq<char>, Seq<char>) -> bool {
    |v: Seq<char>, t: Seq<char>|
        exists|i: int| 0 <= i < s.len() && #[trigger] cf_known_tag(s[i]) == Some(t) && s[i].game_version@ == v
}

/// Game version `v`, which starts with a numeric character, has an entry of `s` for
/// a known loader.
pub open spec fn cf_option_listed(s: Seq<CfLatestFileIndex>) -> spec_fn(Seq<char>) -> bool {
    |v: Seq<char>|
        exists|i: int| 0 <= i < s.len() && (#[trigger] cf_known_tag(s[i])) is Some && s[i].game_version@ == v
            && v.len() > 0 && numeric_of(v[0])
}

/// The options of a CurseForge project, from its latest-files index: versions in
/// fuzzy manifest order, known loaders, and which go together.
pub fn cf_project_options(indexes: &Vec<CfLatestFileIndex>, index: &Option<VersionIndex>) -> (r: ProjectOptions)
    ensures
        options_hold(cf_option_listed(indexes@), cf_option_pair(indexes@), *index, true, r),
{
    let mut pairs: Vec<(String, String)> = Vec::new();
    let mut listed: Vec<String> = Vec::new();
    let mut j: usize = 0;
    while j < indexes.len()
        invariant
            j <= indexes@.len(),
            forall|v: Seq<char>, t: Seq<char>| #[trigger] has_pair(pairs@, v, t) <==> exists|i: int|
                0 <= i < j && #[trigger] cf_known_tag(indexes@[i]) == Some(t) && indexes@[i].game_version@ == v,
            forall|v: Seq<char>| #[trigger] has_text(listed@, v) <==> exists|i: int|
                0 <= i < j && (#[trigger] cf_known_tag(indexes@[i])) is Some && indexes@[i].game_version@ == v
                    && v.len() > 0 && numeric_of(v[0]),
        decreases indexes.len() - j,
    {
        let e = &indexes[j];
        let ghost old_pairs = pairs@;
        let ghost old_listed = listed@;
        if let Some(c) = e.mod_loader {
            let tag = cf_mod_loader_to_tag(c);
            if !same_text(tag, "Unknown") {
                let mut t = String::new();
                push_str(&mut t, tag);
                pairs.push((e.game_version.clone(), t));
                let gv = chars_of(e.game_version.as_str());
                let numeric = gv.len() > 0 && is_numeric_char(gv[0]);
                if numeric {
                    listed.push(e.game_version.clone());
                }
                proof {
                    assert(cf_known_tag(indexes@[j as int]) == Some(tag@));
                    assert forall|v: Seq<char>, t2: Seq<char>| #[trigger] has_pair(pairs@, v, t2) <==> exists|i: int|
                        0 <= i < j + 1 && #[trigger] cf_known_tag(indexes@[i]) == Some(t2) && indexes@[i].game_version@ == v by {
                        if has_pair(pairs@, v, t2) {
                            let w = choose|w: int| 0 <= w < pairs@.len() && pairs@[w].0@ == v && pairs@[w].1@ == t2;
                            if w < old_pairs.len() {
                                assert(has_pair(old_pairs, v, t2));
                            }
                        }
                        if exists|i: int| 0 <= i < j + 1 && #[trigger] cf_known_tag(indexes@[i]) == Some(t2) && indexes@[i].game_version@ == v {
                            let i = choose|i: int| 0 <= i < j + 1 && #[trigger] cf_known_tag(indexes@[i]) == Some(t2) && indexes@[i].game_version@ == v;
                            if i < j {
                                assert(has_pair(old_pairs, v, t2));
                                let w = choose|w: int| 0 <= w < old_pairs.len() && old_pairs[w].0@ == v && old_pairs[w].1@ == t2;
                                assert(pairs@[w] == old_pairs[w]);
                            } else {
                                assert(pairs@[pairs@.len() - 1].0@ == v && pairs@[pairs@.len() - 1].1@ == t2);
                            }
                        }
                    }
                    assert forall|v: Seq<char>| #[trigger] has_text(listed@, v) <==> exists|i: int|
                        0 <= i < j + 1 && (#[trigger] cf_known_tag(indexes@[i])) is Some && indexes@[i].game_version@ == v
                            && v.len() > 0 && numeric_of(v[0]) by {
                        if has_text(listed@, v) {
                            let w = choose|w: int| 0 <= w < listed@.len() && listed@[w]@ == v;
                            if w < old_listed.len() {
                                assert(has_text(old_listed, v));
                            }
                        }
                        if exists|i: int| 0 <= i < j + 1 && (#[trigger] cf_known_tag(indexes@[i])) is Some && indexes@[i].game_version@ == v
                            && v.len() > 0 && numeric_of(v[0]) {
                            let i = choose|i: int| 0 <= i < j + 1 && (#[trigger] cf_known_tag(indexes@[i])) is Some && indexes@[i].game_version@ == v
                                && v.len() > 0 && numeric_of(v[0]);
                            if i < j {
                                assert(has_text(old_listed, v));
                                let w = choose|w: int| 0 <= w < old_listed.len() && old_listed[w]@ == v;
                                assert(listed@[w] == old_listed[w]);
                            } else {
                                assert(listed@[listed@.len() - 1]@ == v);
                            }
                        }
                    }
                }
            }
        }
        j = j + 1;
    }
    let r = build_options(&listed, &pairs, index, true);
    proof {
        assert(listed_in(listed@) =~= cf_option_listed(indexes@));
        assert(paired_in(pairs@) =~= cf_option_pair(indexes@));
    }
    r
}

/// Display tag of a Modrinth loader name: the four known loaders by their proper
/// names, any other name as it is.
pub open spec fn mr_tag(ld: Seq<char>) -> Seq<char> {
    if ld == "forge"@ {
        "Forge"@
    } else if ld == "neoforge"@ {
        "NeoForge"@
    } else if ld == "fabric"@ {
        "Fabric"@
    } else if ld == "quilt"@ {
        "Quilt"@
    } else {
        ld
    }
}

fn mr_tag_exec(ld: &str) -> (r: String)
    ensures
        r@ == mr_tag(ld@),
{
    let mut out = String::new();
    if same_text(ld, "forge") {
        push_str(&mut out, "Forge");
    } else if same_text(ld, "neoforge") {
        push_str(&mut out, "NeoForge");
    } else if same_text(ld, "fabric") {
        push_str(&mut out, "Fabric");
    } else if same_text(ld, "quilt") {
        push_str(&mut out, "Quilt");
    } else {
        push_str(&mut out, ld);
    }
    out
}

/// Game version `g` and loader tag `t` go together in version `v`.
pub open spec fn mr_pairs_in(v: MrVersion, g: Seq<char>, t: Seq<char>) -> bool {
    has_text(v.game_versions@, g) && exists|b: int|
        0 <= b < v.loaders@.len() && #[trigger] mr_tag(v.loaders@[b]@) == t
}

/// Game version `g` and loader tag `t` go together in some version of `s`.
pub open spec fn mr_option_pair(s: Seq<MrVersion>) -> spec_fn(Seq<char>, Seq<char>) -> bool {
    |g: Seq<char>, t: Seq<char>| exists|i: int| 0 <= i < s.len() && #[trigger] mr_pairs_in(s[i], g, t)
}

/// Game version `g` is listed by some version of `s`.
pub open spec fn mr_option_listed(s: Seq<MrVersion>) -> spec_fn(Seq<char>) -> bool {
    |g: Seq<char>| exists|i: int| 0 <= i < s.len() && #[trigger] has_text(s[i].game_versions@, g)
}

/// Adds the pairs and game versions of one version.
fn add_version(v: &MrVersion, pairs: &mut Vec<(String, String)>, listed: &mut Vec<String>)
    ensures
        forall|g: Seq<char>, t: Seq<char>| #[trigger] has_pair(final(pairs)@, g, t) <==> (has_pair(
            old(pairs)@,
            g,
            t,
        ) || mr_pairs_in(*v, g, t)),
        forall|g: Seq<char>| #[trigger] has_text(final(listed)@, g) <==> (has_text(old(listed)@, g)
            || has_text(v.game_versions@, g)),
{
    let ghost p0 = pairs@;
    let ghost l0 = listed@;
    let mut tags: Vec<String> = Vec::new();
    let mut b: usize = 0;
    while b < v.loaders.len()
        invariant
            b <= v.loaders@.len(),
            tags@.len() == b,
            forall|k: int| 0 <= k < b ==> #[trigger] tags@[k]@ == mr_tag(v.loaders@[k]@),
        decreases v.loaders.len() - b,
    {
        tags.push(mr_tag_exec(v.loaders[b].as_str()));
        b = b + 1;
    }
    let mut a: usize = 0;
    while a < v.game_versions.len()
        invariant
            a <= v.game_versions@.len(),
            tags@.len() == v.loaders@.len(),
            forall|k: int| 0 <= k < tags@.len() ==> #[trigger] tags@[k]@ == mr_tag(v.loaders@[k]@),
            forall|g: Seq<char>, t: Seq<char>| #[trigger] has_pair(pairs@, g, t) <==> (has_pair(p0, g, t)
                || (has_text(v.game_versions@.subrange(0, a as int), g) && exists|k: int|
                0 <= k < tags@.len() && #[trigger] tags@[k]@ == t)),
            forall|g: Seq<char>| #[trigger] has_text(listed@, g) <==> (has_text(l0, g) || has_text(
                v.game_versions@.subrange(0, a as int),
                g,
            )),
        decreases v.game_versions.len() - a,
    {
        let gv = &v.game_versions[a];
        let ghost pa = pairs@;
        let ghost la = listed@;
        let ghost before = v.game_versions@.subrange(0, a as int);
        let ghost after = v.game_versions@.subrange(0, a + 1);
        proof {
            assert(after =~= before.push(v.game_versions@[a as int]));
            assert forall|g: Seq<char>| #[trigger] has_text(after, g) <==> (has_text(before, g) || g == gv@) by {
                if has_text(after, g) {
                    let w = choose|w: int| 0 <= w < after.len() && after[w]@ == g;
                    if w < a {
                        assert(before[w]@ == g);
                    }
                }
                if has_text(before, g) {
                    let w = choose|w: int| 0 <= w < before.len() && before[w]@ == g;
                    assert(after[w]@ == g);
                }
                if g == gv@ {
                    assert(after[a as int]@ == g);
                }
            }
        }
        listed.push(gv.clone());
        let mut k: usize = 0;
        while k < tags.len()
            invariant
                k <= tags@.len(),
                gv@ == v.game_versions@[a as int]@,
                forall|g: Seq<char>, t: Seq<char>| #[trigger] has_pair(pairs@, g, t) <==> (has_pair(pa, g, t)
                    || (g == gv@ && exists|m: int| 0 <= m < k && #[trigger] tags@[m]@ == t)),
            decreases tags.len() - k,
        {
            let ghost pk = pairs@;
            pairs.push((gv.clone(), tags[k].clone()));
            proof {
                assert forall|g: Seq<char>, t: Seq<char>| #[trigger] has_pair(pairs@, g, t) <==> (has_pair(pa, g, t)
                    || (g == gv@ && exists|m: int| 0 <= m < k + 1 && #[trigger] tags@[m]@ == t)) by {
                    if has_pair(pairs@, g, t) {
                        let w = choose|w: int| 0 <= w < pairs@.len() && pairs@[w].0@ == g && pairs@[w].1@ == t;
                        if w < pk.len() {
                            assert(has_pair(pk, g, t));
                        } else {
                            assert(tags@[k as int]@ == t);
                        }
                    }
                    if has_pair(pa, g, t) {
                        assert(has_pair(pk, g, t));
                        let w = choose|w: int| 0 <= w < pk.len() && pk[w].0@ == g && pk[w].1@ == t;
                        assert(pairs@[w] == pk[w]);
                    }
                    if g == gv@ && exists|m: int| 0 <= m < k + 1 && #[trigger] tags@[m]@ == t {
                        let m = choose|m: int| 0 <= m < k + 1 && #[trigger] tags@[m]@ == t;
                        if m < k {
                            assert(has_pair(pk, g, t));
                            let w = choose|w: int| 0 <= w < pk.len() && pk[w].0@ == g && pk[w].1@ == t;
                            assert(pairs@[w] == pk[w]);
                        } else {
                            assert(pairs@[pairs@.len() - 1].0@ == g && pairs@[pairs@.len() - 1].1@ == t);
                        }
                    }
                }
            }
            k = k + 1;
        }
        proof {
            assert forall|g: Seq<char>| #[trigger] has_text(listed@, g) <==> (has_text(l0, g) || has_text(after, g)) by {
                if has_text(listed@, g) {
                    let w = choose|w: int| 0 <= w < listed@.len() && listed@[w]@ == g;
                    if w < la.len() {
                        assert(has_text(la, g));
                    }
                }
                if has_text(la, g) {
                    let w = choose|w: int| 0 <= w < la.len() && la[w]@ == g;
                    assert(listed@[w] == la[w]);
                }
                if g == gv@ {
                    assert(listed@[listed@.len() - 1]@ == g);
                }
            }
        }
        a = a + 1;
    }
    proof {
        assert(v.game_versions@.subrange(0, v.game_versions@.len() as int) =~= v.game_versions@);
        assert forall|g: Seq<char>, t: Seq<char>| #[trigger] has_pair(pairs@, g, t) <==> (has_pair(p0, g, t)
            || mr_pairs_in(*v, g, t)) by {
            if exists|k: int| 0 <= k < tags@.len() && #[trigger] tags@[k]@ == t {
                let k = choose|k: int| 0 <= k < tags@.len() && #[trigger] tags@[k]@ == t;
                assert(mr_tag(v.loaders@[k]@) == t);
            }
            if exists|b: int| 0 <= b < v.loaders@.len() && #[trigger] mr_tag(v.loaders@[b]@) == t {
                let b = choose|b: int| 0 <= b < v.loaders@.len() && #[trigger] mr_tag(v.loaders@[b]@) == t;
                assert(tags@[b]@ == t);
            }
        }
    }
}

/// The options of a Modrinth project, from its versions: versions in manifest order,
/// loaders, and which go together.
pub fn mr_project_options(versions: &Vec<MrVersion>, index: &Option<VersionIndex>) -> (r: ProjectOptions)
    ensures
        options_hold(mr_option_listed(versions@), mr_option_pair(versions@), *index, false, r),
{
    let mut pairs: Vec<(String, String)> = Vec::new();
    let mut listed: Vec<String> = Vec::new();
    let mut j: usize = 0;
    while j < versions.len()
        invariant
            j <= versions@.len(),
            forall|g: Seq<char>, t: Seq<char>| #[trigger] has_pair(pairs@, g, t) <==> exists|i: int|
                0 <= i < j && #[trigger] mr_pairs_in(versions@[i], g, t),
            forall|g: Seq<char>| #[trigger] has_text(listed@, g) <==> exists|i: int|
                0 <= i < j && #[trigger] has_text(versions@[i].game_versions@, g),
        decreases versions.len() - j,
    {
        add_version(&versions[j], &mut pairs, &mut listed);
        j = j + 1;
    }
    let r = build_options(&listed, &pairs, index, false);
    proof {
        assert(listed_in(listed@) =~= mr_option_listed(versions@));
        assert(paired_in(pairs@) =~= mr_option_pair(versions@));
    }
    r
}

} // verus!
