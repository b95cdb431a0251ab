//! Modrinth: version records, their cache name, and the choice of the latest
//! matching version.
use vstd::prelude::*;
use crate::cache::{safe_key_segment, safe_segment};
use crate::text::{chars_of, lower_of, lowercase, push_str, same_text};

verus! {

/// One version of a Modrinth project.
pub struct MrVersion {
    pub id: String,
    pub version_number: String,
    pub version_type: String,
    pub game_versions: Vec<String>,
    pub loaders: Vec<String>,
    pub date_published: String,
}

/// Cache file name of a project's version list.
pub fn mr_cache_name(project_slug: &str) -> (r: String)
    ensures
        r@ == "mr-versions-"@ + safe_segment(project_slug@) + ".bin"@,
{
    let key = safe_key_segment(project_slug);
    let mut out = String::new();
    push_str(&mut out, "mr-versions-");
    push_str(&mut out, key.as_str());
    push_str(&mut out, ".bin");
    out
}

/// Strict lexicographic order of texts, character by character.
pub open spec fn text_lt(a: Seq<char>, b: Seq<char>) -> bool
    decreases a.len(),
{
    if a.len() == 0 {
        b.len() > 0
    } else if b.len() == 0 {
        false
    } else if a[0] != b[0] {
        a[0] < b[0]
    } else {
        text_lt(a.drop_first(), b.drop_first())
    }
}

pub proof fn lemma_text_lt_trans(a: Seq<char>, b: Seq<char>, c: Seq<char>)
    requires
        text_lt(a, b),
        text_lt(b, c),
    ensures
        text_lt(a, c),
    decreases a.len(),
{
    if a.len() > 0 && b.len() > 0 && c.len() > 0 && a[0] == b[0] && b[0] == c[0] {
        lemma_text_lt_trans(a.drop_first(), b.drop_first(), c.drop_first());
    }
}

pub proof fn lemma_text_lt_total(a: Seq<char>, b: Seq<char>)
    ensures
        a == b || text_lt(a, b) || text_lt(b, a),
        !(text_lt(a, b) && text_lt(b, a)),
        !text_lt(a, a),
    decreases a.len(),
{
    if a.len() > 0 && b.len() > 0 && a[0] == b[0] {
        lemma_text_lt_total(a.drop_first(), b.drop_first());
        if a.drop_first() == b.drop_first() {
            assert(a =~= seq![a[0]] + a.drop_first());
            assert(b =~= seq![b[0]] + b.drop_first());
        }
    }
    if a.len() > 0 {
        lemma_text_lt_total(a.drop_first(), a.drop_first());
    }
    if a.len() == 0 && b.len() == 0 {
        assert(a =~= b);
    }
}

/// Whether `a` comes strictly before `b` in lexicographic order.
pub fn text_less(a: &str, b: &str) -> (r: bool)
    ensures
        r == text_lt(a@, b@),
{
    let x = chars_of(a);
    let y = chars_of(b);
    let mut k: usize = 0;
    assert(x@.subrange(0, x@.len() as int) =~= x@);
    assert(y@.subrange(0, y@.len() as int) =~= y@);
    while k < x.len() && k < y.len() && x[k] == y[k]
        invariant
            k <= x@.len(),
            k <= y@.len(),
            text_lt(x@.subrange(k as int, x@.len() as int), y@.subrange(k as int, y@.len() as int))
                == text_lt(x@, y@),
        decreases x.len() - k,
    {
        let ghost xs = x@.subrange(k as int, x@.len() as int);
        let ghost ys = y@.subrange(k as int, y@.len() as int);
        assert(xs.drop_first() =~= x@.subrange(k + 1, x@.len() as int));
        assert(ys.drop_first() =~= y@.subrange(k + 1, y@.len() as int));
        k = k + 1;
    }
    if k < x.len() && k < y.len() {
        x[k] < y[k]
    } else {
        k == x.len() && k < y.len()
    }
}

/// Rank of a release level name: release 0, beta 1, alpha 2; 3 for any other.
pub open spec fn mr_tier(t: Seq<char>) -> int {
    if t == "release"@ {
        0
    } else if t == "beta"@ {
        1
    } else if t == "alpha"@ {
        2
    } else {
        3
    }
}

fn mr_tier_exec(t: &str) -> (r: u8)
    ensures
        r as int == mr_tier(t@),
{
    if same_text(t, "release") {
        0
    } else if same_text(t, "beta") {
        1
    } else if same_text(t, "alpha") {
        2
    } else {
        3
    }
}

/// `texts` holds `x`.
pub open spec fn holds_text(texts: Seq<String>, x: Seq<char>) -> bool {
    exists|k: int| 0 <= k < texts.len() && texts[k]@ == x
}

/// The version is a release, beta or alpha for game version `mc`, and `hit` says it
/// is published for the wanted loader.
pub open spec fn mr_eligible(v: MrVersion, mc: Seq<char>, hit: bool) -> bool {
    mr_tier(v.version_type@) < 3 && holds_text(v.game_versions@, mc) && hit
}

/// Version `a` at position `ia` ranks at least as high as `b` at `ib`: a higher
/// release level, then a later publication date, then the earlier position.
pub open spec fn mr_preferred(a: MrVersion, ia: int, b: MrVersion, ib: int) -> bool {
    mr_tier(a.version_type@) < mr_tier(b.version_type@) || (mr_tier(a.version_type@) == mr_tier(
        b.version_type@,
    ) && (text_lt(b.date_published@, a.date_published@) || (a.date_published@
        == b.date_published@ && ia <= ib)))
}

pub open spec fn hit_at(hits: Seq<bool>, i: int) -> bool {
    0 <= i < hits.len() && hits[i]
}

/// Position `i` holds the eligible version that ranks highest.
pub open spec fn mr_best(s: Seq<MrVersion>, mc: Seq<char>, hits: Seq<bool>, i: int) -> bool {
    &&& 0 <= i < s.len()
    &&& mr_eligible(s[i], mc, hit_at(hits, i))
    &&& forall|j: int|
        0 <= j < s.len() && mr_eligible(s[j], mc, hit_at(hits, j)) ==> mr_preferred(s[i], i, s[j], j)
}

pub(crate) fn holds_text_exec(texts: &Vec<String>, x: &str) -> (r: bool)
    ensures
        r == holds_text(texts@, x@),
{
    let mut k: usize = 0;
    while k < texts.len()
        invariant
            k <= texts@.len(),
            forall|m: int| 0 <= m < k ==> texts@[m]@ != x@,
        decreases texts.len() - k,
    {
        if same_text(texts[k].as_str(), x) {
            return true;
        }
        k = k + 1;
    }
    false
}

/// Picks the version for `mc_version` that ranks highest among those whose entry in
/// `loader_hits` is true: release over beta over alpha, then the latest
/// publication date.
pub fn select_mr_version(versions: &Vec<MrVersion>, mc_version: &str, loader_hits: &Vec<bool>) -> (r: Option<usize>)
    ensures
        match r {
            Some(i) => mr_best(versions@, mc_version@, loader_hits@, i as int),
            None => forall|j: int|
                0 <= j < versions@.len() ==> !mr_eligible(
                    versions@[j],
                    mc_version@,
                    hit_at(loader_hits@, j),
                ),
        },
{
    let ghost mc = mc_version@;
    let ghost hs = loader_hits@;
    let mut best: Option<usize> = None;
    let mut best_tier: u8 = 3;
    let mut j: usize = 0;
    while j < versions.len()
        invariant
            j <= versions@.len(),
            mc == mc_version@,
            hs == loader_hits@,
            match best {
                Some(b) => b < j && best_tier as int == mr_tier(versions@[b as int].version_type@)
                    && mr_eligible(versions@[b as int], mc, hit_at(hs, b as int)) && forall|k: int|
                    0 <= k < j && mr_eligible(versions@[k], mc, hit_at(hs, k)) ==> mr_preferred(
                        versions@[b as int],
                        b as int,
                        versions@[k],
                        k,
                    ),
                None => forall|k: int|
                    0 <= k < j ==> !mr_eligible(versions@[k], mc, hit_at(hs, k)),
            },
        decreases versions.len() - j,
    {
        let v = &versions[j];
        let hit = j < loader_hits.len() && loader_hits[j];
        let tier = mr_tier_exec(v.version_type.as_str());
        if hit && tier < 3 && holds_text_exec(&v.game_versions, mc_version) {
            match best {
                None => {
                    best = Some(j);
                    best_tier = tier;
                },
                Some(b) => {
                    let cur = &versions[b];
                    let newer = text_less(cur.date_published.as_str(), v.date_published.as_str());
                    proof {
                        lemma_text_lt_total(cur.date_published@, v.date_published@);
                        assert forall|k: int|
                            0 <= k < j && mr_eligible(versions@[k], mc, hit_at(hs, k)) implies {
                            let d = versions@[k].date_published@;
                            text_lt(cur.date_published@, v.date_published@) && (text_lt(
                                d,
                                cur.date_published@,
                            ) || d == cur.date_published@) ==> text_lt(d, v.date_published@)
                        } by {
                            let d = versions@[k].date_published@;
                            if text_lt(d, cur.date_published@) && text_lt(
                                cur.date_published@,
                                v.date_published@,
                            ) {
                                lemma_text_lt_trans(d, cur.date_published@, v.date_published@);
                            }
                        }
                    }
                    if tier < best_tier || (tier == best_tier && newer) {
                        best = Some(j);
                        best_tier = tier;
                    }
                },
            }
        }
        j = j + 1;
    }
    best
}

/// The version lists the loader `loader` (compared lower-cased).
pub open spec fn lists_loader(v: MrVersion, loader: Seq<char>) -> bool {
    exists|k: int| 0 <= k < v.loaders@.len() && lower_of(v.loaders@[k]@) == lower_of(loader)
}

fn lists_loader_exec(v: &MrVersion, loader_lower: &str, loader: Ghost<Seq<char>>) -> (r: bool)
    requires
        loader_lower@ == lower_of(loader@),
    ensures
        r == lists_loader(*v, loader@),
{
    let mut k: usize = 0;
    while k < v.loaders.len()
        invariant
            k <= v.loaders@.len(),
            loader_lower@ == lower_of(loader@),
            forall|m: int| 0 <= m < k ==> lower_of(v.loaders@[m]@) != lower_of(loader@),
        decreases v.loaders.len() - k,
    {
        let l = lowercase(v.loaders[k].as_str());
        if same_text(l.as_str(), loader_lower) {
            return true;
        }
        k = k + 1;
    }
    false
}

/// Whether a version is for `mc_version` and lists `loader` (compared lower-cased).
pub fn mr_version_matches(v: &MrVersion, mc_version: &str, loader: &str) -> (r: bool)
    ensures
        r == (holds_text(v.game_versions@, mc_version@) && lists_loader(*v, loader@)),
{
    let lowered = lowercase(loader);
    holds_text_exec(&v.game_versions, mc_version) && lists_loader_exec(
        v,
        lowered.as_str(),
        Ghost(loader@),
    )
}

/// The latest version for `mc_version` and `loader`: its id, version number and
/// release level; all `None` when no version matches.
pub fn get_latest_mr_version(versions: &Vec<MrVersion>, mc_version: &str, loader: &str) -> (r: (
    Option<String>,
    Option<String>,
    Option<String>,
))
    ensures
        ({
            let hits = Seq::new(versions@.len(), |j: int| lists_loader(versions@[j], loader@));
            match r.0 {
                None => r.1 is None && r.2 is None && forall|j: int|
                    0 <= j < versions@.len() ==> !mr_eligible(
                        versions@[j],
                        mc_version@,
                        hit_at(hits, j),
                    ),
                Some(id) => exists|i: int|
                    {
                        &&& mr_best(versions@, mc_version@, hits, i)
                        &&& id@ == versions@[i].id@
                        &&& r.1 matches Some(n) && n@ == versions@[i].version_number@
                        &&& r.2 matches Some(t) && t@ == versions@[i].version_type@
                    },
            }
        }),
{
    let lowered = lowercase(loader);
    let mut hits: Vec<bool> = Vec::new();
    let mut j: usize = 0;
    while j < versions.len()
        invariant
            j <= versions@.len(),
            lowered@ == lower_of(loader@),
            hits@.len() == j,
            forall|k: int| 0 <= k < j ==> hits@[k] == lists_loader(versions@[k], loader@),
        decreases versions.len() - j,
    {
        let h = lists_loader_exec(&versions[j], lowered.as_str(), Ghost(loader@));
        hits.push(h);
        j = j + 1;
    }
    let ghost want = Seq::new(versions@.len(), |j: int| lists_loader(versions@[j], loader@));
    assert(hits@ =~= want);
    match select_mr_version(versions, mc_version, &hits) {
        None => (None, None, None),
        Some(i) => {
            let v = &versions[i];
            let r = (Some(v.id.clone()), Some(v.version_number.clone()), Some(v.version_type.clone()));
            assert(mr_best(versions@, mc_version@, want, i as int));
            r
        },
    }
}

} // verus!
