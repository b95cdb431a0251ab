//! Lists of versions to choose from: the files or versions that fit a game version
//! and loader, in display order, each with its label.
use vstd::prelude::*;
use crate::cf::{cf_entry_tag, cf_mod_loader_to_tag, jar_stripped, strip_jar_suffix, CfFileItem, CfLatestFileIndex};
use crate::mr::{
    holds_text, holds_text_exec, lemma_text_lt_total, lemma_text_lt_trans, lists_loader,
    mr_version_matches, text_less, text_lt, MrVersion,
};
use crate::text::{decimal, lower_of, push_decimal, push_str, same_text};
use crate::util::{loader_name_to_tag, release_level, release_type_str, tag_of_lowered};

verus! {

/// One entry of a choice list.
pub struct VersionChoice {
    pub id: String,
    pub label: String,
    pub kind: String,
}

/// Some item of `perm` is `k`.
pub open spec fn lists_position(perm: Seq<usize>, k: int) -> bool {
    exists|i: int| 0 <= i < perm.len() && perm[i] == k
}

/// `perm` lists each position of `keys` once.
pub open spec fn is_permutation(n: int, perm: Seq<usize>) -> bool {
    &&& perm.len() == n
    &&& forall|i: int| 0 <= i < perm.len() ==> #[trigger] perm[i] < n
    &&& forall|i: int, j: int| 0 <= i < j < perm.len() ==> perm[i] != perm[j]
    &&& forall|k: int| 0 <= k < n ==> #[trigger] lists_position(perm, k)
}

/// `perm` orders the positions of `keys` by descending key, ties in position order.
pub open spec fn desc_order(keys: Seq<String>, perm: Seq<usize>) -> bool {
    &&& is_permutation(keys.len() as int, perm)
    &&& forall|i: int, j: int|
        0 <= i < j < perm.len() ==> text_lt(keys[perm[j] as int]@, keys[perm[i] as int]@) || (
        keys[perm[i] as int]@ == keys[perm[j] as int]@ && perm[i] < perm[j])
}

/// Positions of `keys`, latest (largest) key first, stable among equal keys.
fn order_by_text_desc(keys: &Vec<String>) -> (r: Vec<usize>)
    ensures
        desc_order(keys@, r@),
{
    let mut perm: Vec<usize> = Vec::new();
    let mut k: usize = 0;
    while k < keys.len()
        invariant
            k <= keys@.len(),
            perm@.len() == k,
            forall|i: int| 0 <= i < k ==> #[trigger] perm@[i] < k,
            forall|i: int, j: int| 0 <= i < j < k ==> perm@[i] != perm@[j],
            forall|m: int| 0 <= m < k ==> #[trigger] lists_position(perm@, m),
            forall|i: int, j: int|
                0 <= i < j < k ==> text_lt(keys@[perm@[j] as int]@, keys@[perm@[i] as int]@) || (
                keys@[perm@[i] as int]@ == keys@[perm@[j] as int]@ && perm@[i] < perm@[j]),
        decreases keys.len() - k,
    {
        let key = keys[k].as_str();
        let mut p: usize = 0;
        while p < perm.len() && !text_less(keys[perm[p]].as_str(), key)
            invariant
                p <= perm@.len(),
                perm@.len() == k,
                k < keys@.len(),
                key@ == keys@[k as int]@,
                forall|i: int| 0 <= i < k ==> #[trigger] perm@[i] < k,
                forall|i: int| 0 <= i < p ==> !text_lt(keys@[perm@[i] as int]@, keys@[k as int]@),
            decreases perm.len() - p,
        {
            p = p + 1;
        }
        let ghost old_perm = perm@;
        perm.insert(p, k);
        proof {
            old_perm.insert_ensures(p as int, k);
            let kk = keys@[k as int]@;
            assert forall|i: int| 0 <= i < p implies kk == keys@[old_perm[i] as int]@ || text_lt(
                kk,
                keys@[old_perm[i] as int]@,
            ) by {
                lemma_text_lt_total(kk, keys@[old_perm[i] as int]@);
            }
            assert forall|i: int| p <= i < k implies text_lt(keys@[old_perm[i] as int]@, kk) by {
                if i > p {
                    let a = keys@[old_perm[i] as int]@;
                    let b = keys@[old_perm[p as int] as int]@;
                    if a != b {
                        lemma_text_lt_trans(a, b, kk);
                    }
                }
            }
            assert forall|m: int| 0 <= m <= k implies #[trigger] lists_position(perm@, m) by {
                if m < k {
                    assert(lists_position(old_perm, m));
                    let w = choose|w: int| 0 <= w < old_perm.len() && old_perm[w] == m;
                    if w < p {
                        assert(perm@[w] == m);
                    } else {
                        assert(perm@[w + 1] == m);
                    }
                } else {
                    assert(perm@[p as int] == m);
                }
            }
            assert forall|i: int, j: int| 0 <= i < j < k + 1 implies text_lt(
                keys@[perm@[j] as int]@,
                keys@[perm@[i] as int]@,
            ) || (keys@[perm@[i] as int]@ == keys@[perm@[j] as int]@ && perm@[i] < perm@[j]) by {
                if j < p {
                } else if j == p {
                } else if i < p {
                    assert(perm@[j] == old_perm[j - 1]);
                    let a = keys@[old_perm[j - 1] as int]@;
                    let b = keys@[perm@[i] as int]@;
                    if kk == b {
                    } else {
                        lemma_text_lt_trans(a, kk, b);
                    }
                } else if i == p {
                    assert(perm@[j] == old_perm[j - 1]);
                } else {
                    assert(perm@[i] == old_perm[i - 1]);
                    assert(perm@[j] == old_perm[j - 1]);
                }
            }
            assert forall|i: int, j: int| 0 <= i < j < k + 1 implies perm@[i] != perm@[j] by {
                if j < p {
                } else if j == p {
                } else if i < p {
                } else if i == p {
                } else {
                    assert(perm@[i] == old_perm[i - 1]);
                    assert(perm@[j] == old_perm[j - 1]);
                }
            }
            assert forall|i: int| 0 <= i < k + 1 implies #[trigger] perm@[i] < k + 1 by {
                if i < p {
                } else if i == p {
                } else {
                    assert(perm@[i] == old_perm[i - 1]);
                }
            }
        }
        k = k + 1;
    }
    perm
}

/// `perm` orders the positions of `keys` by ascending key, ties in position order.
pub open spec fn asc_order(keys: Seq<u8>, perm: Seq<usize>) -> bool {
    &&& is_permutation(keys.len() as int, perm)
    &&& forall|i: int, j: int|
        0 <= i < j < perm.len() ==> keys[perm[i] as int] < keys[perm[j] as int] || (keys[perm[i] as int]
            == keys[perm[j] as int] && perm[i] < perm[j])
}

/// Positions of `keys`, smallest key first, stable among equal keys.
fn order_by_level_asc(keys: &Vec<u8>) -> (r: Vec<usize>)
    ensures
        asc_order(keys@, r@),
{
    let mut perm: Vec<usize> = Vec::new();
    let mut k: usize = 0;
    while k < keys.len()
        invariant
            k <= keys@.len(),
            perm@.len() == k,
            forall|i: int| 0 <= i < k ==> #[trigger] perm@[i] < k,
            forall|i: int, j: int| 0 <= i < j < k ==> perm@[i] != perm@[j],
            forall|m: int| 0 <= m < k ==> #[trigger] lists_position(perm@, m),
            forall|i: int, j: int|
                0 <= i < j < k ==> keys@[perm@[i] as int] < keys@[perm@[j] as int] || (keys@[perm@[i] as int]
                    == keys@[perm@[j] as int] && perm@[i] < perm@[j]),
        decreases keys.len() - k,
    {
        let key = keys[k];
        let mut p: usize = 0;
        while p < perm.len() && keys[perm[p]] <= key
            invariant
                p <= perm@.len(),
                perm@.len() == k,
                k < keys@.len(),
                key == keys@[k as int],
                forall|i: int| 0 <= i < k ==> #[trigger] perm@[i] < k,
                forall|i: int| 0 <= i < p ==> keys@[perm@[i] as int] <= key,
            decreases perm.len() - p,
        {
            p = p + 1;
        }
        let ghost old_perm = perm@;
        perm.insert(p, k);
        proof {
            old_perm.insert_ensures(p as int, k);
            assert forall|i: int| p <= i < k implies keys@[old_perm[i] as int] > key by {
                if i > p {
                    assert(keys@[old_perm[p as int] as int] <= keys@[old_perm[i] as int]);
                }
            }
            assert forall|m: int| 0 <= m <= k implies #[trigger] lists_position(perm@, m) by {
                if m < k {
                    assert(lists_position(old_perm, m));
                    let w = choose|w: int| 0 <= w < old_perm.len() && old_perm[w] == m;
                    if w < p {
                        assert(perm@[w] == m);
                    } else {
                        assert(perm@[w + 1] == m);
                    }
                } else {
                    assert(perm@[p as int] == m);
                }
            }
            assert forall|i: int, j: int| 0 <= i < j < k + 1 implies keys@[perm@[i] as int] < keys@[perm@[j] as int]
                || (keys@[perm@[i] as int] == keys@[perm@[j] as int] && perm@[i] < perm@[j]) by {
                if j < p {
                } else if j == p {
                } else if i < p {
                    assert(perm@[j] == old_perm[j - 1]);
                } else if i == p {
                    assert(perm@[j] == old_perm[j - 1]);
                } else {
                    assert(perm@[i] == old_perm[i - 1]);
                    assert(perm@[j] == old_perm[j - 1]);
                }
            }
            assert forall|i: int, j: int| 0 <= i < j < k + 1 implies perm@[i] != perm@[j] by {
                if j < p {
                } else if j == p {
                } else if i < p {
                } else if i == p {
                } else {
                    assert(perm@[i] == old_perm[i - 1]);
                    assert(perm@[j] == old_perm[j - 1]);
                }
            }
            assert forall|i: int| 0 <= i < k + 1 implies #[trigger] perm@[i] < k + 1 by {
                if i < p {
                } else if i == p {
                } else {
                    assert(perm@[i] == old_perm[i - 1]);
                }
            }
        }
        k = k + 1;
    }
    perm
}

/// `src` lists, once each, exactly the positions `k < n` where `keep(k)` holds.
pub open spec fn selects(n: int, keep: spec_fn(int) -> bool, src: Seq<int>) -> bool {
    &&& forall|i: int| 0 <= i < src.len() ==> 0 <= #[trigger] src[i] < n && keep(src[i])
    &&& forall|i: int, j: int| 0 <= i < j < src.len() ==> src[i] != src[j]
    &&& forall|k: int| 0 <= k < n && #[trigger] keep(k) ==> exists|i: int| 0 <= i < src.len() && src[i] == k
}

/// The kept positions in increasing order.
pub open spec fn increasing_selection(n: int, keep: spec_fn(int) -> bool, pos: Seq<usize>) -> bool {
    &&& forall|m: int| 0 <= m < pos.len() ==> #[trigger] pos[m] < n && keep(pos[m] as int)
    &&& forall|a: int, b: int| 0 <= a < b < pos.len() ==> pos[a] < pos[b]
    &&& forall|k: int| 0 <= k < n && #[trigger] keep(k) ==> lists_position(pos, k)
}

/// Positions picked through a permutation of an increasing selection select the same
/// positions, and keep the relative order of ties.
proof fn lemma_compose_selection(n: int, keep: spec_fn(int) -> bool, pos: Seq<usize>, perm: Seq<usize>)
    requires
        increasing_selection(n, keep, pos),
        is_permutation(pos.len() as int, perm),
    ensures
        selects(n, keep, Seq::new(perm.len(), |i: int| pos[perm[i] as int] as int)),
        forall|i: int, j: int|
            0 <= i < j < perm.len() && perm[i] < perm[j] ==> pos[perm[i] as int] < pos[perm[j] as int],
{
    let src = Seq::new(perm.len(), |i: int| pos[perm[i] as int] as int);
    assert forall|i: int| 0 <= i < src.len() implies 0 <= #[trigger] src[i] < n && keep(src[i]) by {
        assert(perm[i] < pos.len());
    }
    assert forall|i: int, j: int| 0 <= i < j < src.len() implies src[i] != src[j] by {
        assert(perm[i] != perm[j]);
        if perm[i] < perm[j] {
            assert(pos[perm[i] as int] < pos[perm[j] as int]);
        } else {
            assert(pos[perm[j] as int] < pos[perm[i] as int]);
        }
    }
    assert forall|k: int| 0 <= k < n && #[trigger] keep(k) implies exists|i: int|
        0 <= i < src.len() && src[i] == k by {
        assert(lists_position(pos, k));
        let m = choose|m: int| 0 <= m < pos.len() && pos[m] == k;
        assert(lists_position(perm, m));
        let i = choose|i: int| 0 <= i < perm.len() && perm[i] == m;
        assert(src[i] == k);
    }
}

/// Label of a choice: the name, then the release level in parentheses.
pub open spec fn choice_label(name: Seq<char>, level: Seq<char>) -> Seq<char> {
    name + " ("@ + level + ")"@
}

/// The choice offered for a file of a file listing.
pub open spec fn cf_file_choice(c: VersionChoice, f: CfFileItem) -> bool {
    &&& c.id@ == decimal(f.id as nat)
    &&& c.label@ == choice_label(jar_stripped(f.file_name@, lower_of(f.file_name@)), release_level(f.release_type))
    &&& c.kind@ == release_level(f.release_type)
}

pub open spec fn cf_file_keep(files: Seq<CfFileItem>, mc: Seq<char>) -> spec_fn(int) -> bool {
    |k: int| 0 <= k < files.len() && holds_text(files[k].game_versions@, mc)
}

/// `r` offers, once each, the files that list game version `mc`, latest `file_date`
/// first and ties in listing order.
pub open spec fn cf_file_choices_ok(files: Seq<CfFileItem>, mc: Seq<char>, r: Seq<VersionChoice>) -> bool {
    exists|src: Seq<int>|
        {
            &&& src.len() == r.len()
            &&& selects(files.len() as int, cf_file_keep(files, mc), src)
            &&& forall|i: int, j: int|
                0 <= i < j < src.len() ==> text_lt(files[src[j]].file_date@, files[src[i]].file_date@)
                    || (files[src[i]].file_date@ == files[src[j]].file_date@ && src[i] < src[j])
            &&& forall|i: int| 0 <= i < src.len() ==> cf_file_choice(r[i], files[src[i]])
        }
}

fn label_of(name: String, level: &str) -> (r: String)
    ensures
        r@ == choice_label(name@, level@),
{
    let mut label = name;
    push_str(&mut label, " (");
    push_str(&mut label, level);
    push_str(&mut label, ")");
    label
}

fn cf_file_choice_exec(f: &CfFileItem) -> (c: VersionChoice)
    ensures
        cf_file_choice(c, *f),
{
    let level = release_type_str(f.release_type);
    let mut id = String::new();
    push_decimal(&mut id, f.id as u64);
    let label = label_of(strip_jar_suffix(f.file_name.as_str()), level);
    let mut kind = String::new();
    push_str(&mut kind, level);
    VersionChoice { id, label, kind }
}

/// The choices for a file listing: the files that list `mc_version`, latest first.
pub fn cf_file_choices(files: &Vec<CfFileItem>, mc_version: &str) -> (r: Vec<VersionChoice>)
    ensures
        cf_file_choices_ok(files@, mc_version@, r@),
{
    let ghost keep = cf_file_keep(files@, mc_version@);
    let mut pos: Vec<usize> = Vec::new();
    let mut keys: Vec<String> = Vec::new();
    let mut i: usize = 0;
    while i < files.len()
        invariant
            i <= files@.len(),
            keep == cf_file_keep(files@, mc_version@),
            increasing_selection(i as int, keep, pos@),
            forall|m: int| 0 <= m < pos@.len() ==> #[trigger] pos@[m] < i,
            keys@.len() == pos@.len(),
            forall|m: int| 0 <= m < keys@.len() ==> #[trigger] keys@[m]@ == files@[pos@[m] as int].file_date@,
        decreases files.len() - i,
    {
        if holds_text_exec(&files[i].game_versions, mc_version) {
            let ghost old_pos = pos@;
            pos.push(i);
            keys.push(files[i].file_date.clone());
            proof {
                assert(pos@[pos@.len() - 1] == i);
                assert(lists_position(pos@, i as int));
                assert forall|k: int| 0 <= k < i + 1 && #[trigger] keep(k) implies lists_position(pos@, k) by {
                    if k < i {
                        assert(lists_position(old_pos, k));
                        let w = choose|w: int| 0 <= w < old_pos.len() && old_pos[w] == k;
                        assert(pos@[w] == k);
                    }
                }
            }
        }
        i = i + 1;
    }
    let perm = order_by_text_desc(&keys);
    let mut out: Vec<VersionChoice> = Vec::new();
    let mut t: usize = 0;
    while t < perm.len()
        invariant
            t <= perm@.len(),
            desc_order(keys@, perm@),
            forall|m: int| 0 <= m < pos@.len() ==> #[trigger] pos@[m] < files@.len(),
            keys@.len() == pos@.len(),
            out@.len() == t,
            forall|u: int| 0 <= u < t ==> cf_file_choice(#[trigger] out@[u], files@[pos@[perm@[u] as int] as int]),
        decreases perm.len() - t,
    {
        let f = &files[pos[perm[t]]];
        out.push(cf_file_choice_exec(f));
        t = t + 1;
    }
    proof {
        lemma_compose_selection(files@.len() as int, keep, pos@, perm@);
        let src = Seq::new(perm@.len(), |i: int| pos@[perm@[i] as int] as int);
        assert forall|i: int, j: int| 0 <= i < j < src.len() implies text_lt(
            files@[src[j]].file_date@,
            files@[src[i]].file_date@,
        ) || (files@[src[i]].file_date@ == files@[src[j]].file_date@ && src[i] < src[j]) by {
            assert(keys@[perm@[i] as int]@ == files@[src[i]].file_date@);
            assert(keys@[perm@[j] as int]@ == files@[src[j]].file_date@);
        }
        assert forall|i: int| 0 <= i < src.len() implies cf_file_choice(out@[i], files@[src[i]]) by {
            assert(cf_file_choice(out@[i], files@[pos@[perm@[i] as int] as int]));
        }
    }
    out
}

/// The choice offered for an entry of a latest-files index.
pub open spec fn cf_index_choice(c: VersionChoice, e: CfLatestFileIndex) -> bool {
    &&& c.id@ == decimal(e.file_id as nat)
    &&& c.label@ == choice_label(jar_stripped(e.filename@, lower_of(e.filename@)), release_level(e.release_type))
    &&& c.kind@ == release_level(e.release_type)
}

pub open spec fn cf_index_keep(s: Seq<CfLatestFileIndex>, mc: Seq<char>, target: Seq<char>) -> spec_fn(int) -> bool {
    |k: int| 0 <= k < s.len() && s[k].game_version@ == mc && cf_entry_tag(s[k]) == target
}

/// `r` offers, once each, the index entries for game version `mc` and loader tag
/// `target`, by release level (release first), ties in index order.
pub open spec fn cf_index_choices_ok(
    s: Seq<CfLatestFileIndex>,
    mc: Seq<char>,
    target: Seq<char>,
    r: Seq<VersionChoice>,
) -> bool {
    exists|src: Seq<int>|
        {
            &&& src.len() == r.len()
            &&& selects(s.len() as int, cf_index_keep(s, mc, target), src)
            &&& forall|i: int, j: int|
                0 <= i < j < src.len() ==> s[src[i]].release_type < s[src[j]].release_type || (
                s[src[i]].release_type == s[src[j]].release_type && src[i] < src[j])
            &&& forall|i: int| 0 <= i < src.len() ==> cf_index_choice(r[i], s[src[i]])
        }
}

fn cf_index_choice_exec(e: &CfLatestFileIndex) -> (c: VersionChoice)
    ensures
        cf_index_choice(c, *e),
{
    let level = release_type_str(e.release_type);
    let mut id = String::new();
    push_decimal(&mut id, e.file_id as u64);
    let label = label_of(strip_jar_suffix(e.filename.as_str()), level);
    let mut kind = String::new();
    push_str(&mut kind, level);
    VersionChoice { id, label, kind }
}

/// The choices for a project's latest-files index: the entries for `mc_version` and
/// the tag of `loader` (see `loader_name_to_tag`), release first, then beta, alpha.
pub fn cf_index_choices(indexes: &Vec<CfLatestFileIndex>, mc_version: &str, loader: &str) -> (r: Vec<VersionChoice>)
    ensures
        cf_index_choices_ok(indexes@, mc_version@, tag_of_lowered(lower_of(loader@)), r@),
{
    let target = loader_name_to_tag(loader);
    let ghost keep = cf_index_keep(indexes@, mc_version@, target@);
    let mut pos: Vec<usize> = Vec::new();
    let mut keys: Vec<u8> = Vec::new();
    let mut i: usize = 0;
    while i < indexes.len()
        invariant
            i <= indexes@.len(),
            keep == cf_index_keep(indexes@, mc_version@, target@),
            increasing_selection(i as int, keep, pos@),
            forall|m: int| 0 <= m < pos@.len() ==> #[trigger] pos@[m] < i,
            keys@.len() == pos@.len(),
            forall|m: int| 0 <= m < keys@.len() ==> #[trigger] keys@[m] == indexes@[pos@[m] as int].release_type,
        decreases indexes.len() - i,
    {
        let e = &indexes[i];
        let tag = match e.mod_loader {
            Some(c) => cf_mod_loader_to_tag(c),
            None => "Unknown",
        };
        if same_text(e.game_version.as_str(), mc_version) && same_text(tag, target.as_str()) {
            let ghost old_pos = pos@;
            pos.push(i);
            keys.push(e.release_type);
            proof {
                assert(pos@[pos@.len() - 1] == i);
                assert(lists_position(pos@, i as int));
                assert forall|k: int| 0 <= k < i + 1 && #[trigger] keep(k) implies lists_position(pos@, k) by {
                    if k < i {
                        assert(lists_position(old_pos, k));
                        let w = choose|w: int| 0 <= w < old_pos.len() && old_pos[w] == k;
                        assert(pos@[w] == k);
                    }
                }
            }
        }
        i = i + 1;
    }
    let perm = order_by_level_asc(&keys);
    let mut out: Vec<VersionChoice> = Vec::new();
    let mut t: usize = 0;
    while t < perm.len()
        invariant
            t <= perm@.len(),
            asc_order(keys@, perm@),
            forall|m: int| 0 <= m < pos@.len() ==> #[trigger] pos@[m] < indexes@.len(),
            keys@.len() == pos@.len(),
            out@.len() == t,
            forall|u: int| 0 <= u < t ==> cf_index_choice(#[trigger] out@[u], indexes@[pos@[perm@[u] as int] as int]),
        decreases perm.len() - t,
    {
        let e = &indexes[pos[perm[t]]];
        out.push(cf_index_choice_exec(e));
        t = t + 1;
    }
    proof {
        lemma_compose_selection(indexes@.len() as int, keep, pos@, perm@);
        let src = Seq::new(perm@.len(), |i: int| pos@[perm@[i] as int] as int);
        let s = indexes@;
        assert forall|i: int, j: int| 0 <= i < j < src.len() implies s[src[i]].release_type < s[src[j]].release_type
            || (s[src[i]].release_type == s[src[j]].release_type && src[i] < src[j]) by {
            assert(keys@[perm@[i] as int] == s[src[i]].release_type);
            assert(keys@[perm@[j] as int] == s[src[j]].release_type);
        }
        assert forall|i: int| 0 <= i < src.len() implies cf_index_choice(out@[i], s[src[i]]) by {
            assert(cf_index_choice(out@[i], s[pos@[perm@[i] as int] as int]));
        }
    }
    out
}

/// The choice offered for a Modrinth version.
pub open spec fn mr_choice(c: VersionChoice, v: MrVersion) -> bool {
    &&& c.id@ == v.id@
    &&& c.label@ == choice_label(v.version_number@, v.version_type@)
    &&& c.kind@ == v.version_type@
}

pub open spec fn mr_keep(s: Seq<MrVersion>, mc: Seq<char>, loader: Seq<char>) -> spec_fn(int) -> bool {
    |k: int| 0 <= k < s.len() && holds_text(s[k].game_versions@, mc) && lists_loader(s[k], loader)
}

/// `r` offers, once each, the versions for game version `mc` that list `loader`,
/// latest publication first, ties in listing order.
pub open spec fn mr_choices_ok(s: Seq<MrVersion>, mc: Seq<char>, loader: Seq<char>, r: Seq<VersionChoice>) -> bool {
    exists|src: Seq<int>|
        {
            &&& src.len() == r.len()
            &&& selects(s.len() as int, mr_keep(s, mc, loader), src)
            &&& forall|i: int, j: int|
                0 <= i < j < src.len() ==> text_lt(s[src[j]].date_published@, s[src[i]].date_published@)
                    || (s[src[i]].date_published@ == s[src[j]].date_published@ && src[i] < src[j])
            &&& forall|i: int| 0 <= i < src.len() ==> mr_choice(r[i], s[src[i]])
        }
}

fn mr_choice_exec(v: &MrVersion) -> (c: VersionChoice)
    ensures
        mr_choice(c, *v),
{
    let label = label_of(v.version_number.clone(), v.version_type.as_str());
    VersionChoice { id: v.id.clone(), label, kind: v.version_type.clone() }
}

/// The choices for a Modrinth version list: the versions for `mc_version` that list
/// `loader` (compared lower-cased), latest first.
pub fn mr_version_choices(versions: &Vec<MrVersion>, mc_version: &str, loader: &str) -> (r: Vec<VersionChoice>)
    ensures
        mr_choices_ok(versions@, mc_version@, loader@, r@),
{
    let ghost keep = mr_keep(versions@, mc_version@, loader@);
    let mut pos: Vec<usize> = Vec::new();
    let mut keys: Vec<String> = Vec::new();
    let mut i: usize = 0;
    while i < versions.len()
        invariant
            i <= versions@.len(),
            keep == mr_keep(versions@, mc_version@, loader@),
            increasing_selection(i as int, keep, pos@),
            forall|m: int| 0 <= m < pos@.len() ==> #[trigger] pos@[m] < i,
            keys@.len() == pos@.len(),
            forall|m: int| 0 <= m < keys@.len() ==> #[trigger] keys@[m]@ == versions@[pos@[m] as int].date_published@,
        decreases versions.len() - i,
    {
        if mr_version_matches(&versions[i], mc_version, loader) {
            let ghost old_pos = pos@;
            pos.push(i);
            keys.push(versions[i].date_published.clone());
            proof {
                assert(pos@[pos@.len() - 1] == i);
                assert(lists_position(pos@, i as int));
                assert forall|k: int| 0 <= k < i + 1 && #[trigger] keep(k) implies lists_position(pos@, k) by {
                    if k < i {
                        assert(lists_position(old_pos, k));
                        let w = choose|w: int| 0 <= w < old_pos.len() && old_pos[w] == k;
                        assert(pos@[w] == k);
                    }
                }
            }
        }
        i = i + 1;
    }
    let perm = order_by_text_desc(&keys);
    let mut out: Vec<VersionChoice> = Vec::new();
    let mut t: usize = 0;
    while t < perm.len()
        invariant
            t <= perm@.len(),
            desc_order(keys@, perm@),
            forall|m: int| 0 <= m < pos@.len() ==> #[trigger] pos@[m] < versions@.len(),
            keys@.len() == pos@.len(),
            out@.len() == t,
            forall|u: int| 0 <= u < t ==> mr_choice(#[trigger] out@[u], versions@[pos@[perm@[u] as int] as int]),
        decreases perm.len() - t,
    {
        let v = &versions[pos[perm[t]]];
        out.push(mr_choice_exec(v));
        t = t + 1;
    }
    proof {
        lemma_compose_selection(versions@.len() as int, keep, pos@, perm@);
        let src = Seq::new(perm@.len(), |i: int| pos@[perm@[i] as int] as int);
        let s = versions@;
        assert forall|i: int, j: int| 0 <= i < j < src.len() implies text_lt(
            s[src[j]].date_published@,
            s[src[i]].date_published@,
        ) || (s[src[i]].date_published@ == s[src[j]].date_published@ && src[i] < src[j]) by {
            assert(keys@[perm@[i] as int]@ == s[src[i]].date_published@);
            assert(keys@[perm@[j] as int]@ == s[src[j]].date_published@);
        }
        assert forall|i: int| 0 <= i < src.len() implies mr_choice(out@[i], s[src[i]]) by {
            assert(mr_choice(out@[i], s[pos@[perm@[i] as int] as int]));
        }
    }
    out
}

} // verus!
