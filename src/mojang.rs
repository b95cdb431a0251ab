//! Ordering of game versions by their place in the version manifest.
use vstd::prelude::*;
use crate::cf::number_end;
use crate::deps::first_from;
use crate::text::{
    chars_of, contains, contains_exec, digits_end, is_digit, lower_of, lowercase, matches_at,
    matches_at_exec, same_text, skip_digits,
};

verus! {

/// `x` first occurs in `s` at position `p`.
pub open spec fn first_seen(s: Seq<String>, x: Seq<char>, p: int) -> bool {
    0 <= p < s.len() && s[p]@ == x && forall|q: int| 0 <= q < p ==> s[q]@ != x
}

pub open spec fn holds(s: Seq<String>, x: Seq<char>) -> bool {
    exists|i: int| 0 <= i < s.len() && s[i]@ == x
}

/// `d` lists each text of `input` once, in order of first appearance; `fp` gives
/// the position of that first appearance.
pub open spec fn first_appearances(input: Seq<String>, d: Seq<String>, fp: Seq<int>) -> bool {
    &&& d.len() == fp.len()
    &&& forall|k: int| 0 <= k < d.len() ==> first_seen(input, #[trigger] d[k]@, fp[k])
    &&& forall|k: int, m: int| 0 <= k < m < d.len() ==> fp[k] < fp[m]
    &&& forall|j: int| 0 <= j < input.len() ==> holds(d, #[trigger] input[j]@)
}

proof fn lemma_first_seen_unique(s: Seq<String>, x: Seq<char>, p: int, q: int)
    requires
        first_seen(s, x, p),
        first_seen(s, x, q),
    ensures
        p == q,
{
}

fn index_of_text(v: &Vec<String>, x: &str) -> (r: Option<usize>)
    ensures
        match r {
            Some(k) => k < v@.len() && v@[k as int]@ == x@,
            None => !holds(v@, x@),
        },
{
    let mut k: usize = 0;
    while k < v.len()
        invariant
            k <= v@.len(),
            forall|m: int| 0 <= m < k ==> v@[m]@ != x@,
        decreases v.len() - k,
    {
        if same_text(v[k].as_str(), x) {
            return Some(k);
        }
        k = k + 1;
    }
    None
}

/// The texts of `input`, each once, in order of first appearance.
fn distinct_in_order(input: &Vec<String>) -> (res: (Vec<String>, Ghost<Seq<int>>))
    ensures
        first_appearances(input@, res.0@, res.1@),
{
    let mut d: Vec<String> = Vec::new();
    let ghost mut fp: Seq<int> = Seq::empty();
    let mut j: usize = 0;
    while j < input.len()
        invariant
            j <= input@.len(),
            d@.len() == fp.len(),
            forall|k: int| 0 <= k < d@.len() ==> first_seen(input@, #[trigger] d@[k]@, fp[k]),
            forall|k: int| 0 <= k < d@.len() ==> fp[k] < j,
            forall|k: int, m: int| 0 <= k < m < d@.len() ==> fp[k] < fp[m],
            forall|i: int| 0 <= i < j ==> holds(d@, #[trigger] input@[i]@),
        decreases input.len() - j,
    {
        let x = &input[j];
        match index_of_text(&d, x.as_str()) {
            Some(k) => {
                assert(holds(d@, input@[j as int]@));
            },
            None => {
                proof {
                    assert forall|q: int| 0 <= q < j implies input@[q]@ != x@ by {
                        assert(holds(d@, input@[q]@));
                    }
                }
                let ghost old_d = d@;
                d.push(x.clone());
                proof {
                    fp = fp.push(j as int);
                    assert forall|i: int| 0 <= i <= j implies holds(d@, #[trigger] input@[i]@) by {
                        if i < j {
                            assert(holds(old_d, input@[i]@));
                            let w = choose|w: int| 0 <= w < old_d.len() && old_d[w]@ == input@[i]@;
                            assert(d@[w] == old_d[w]);
                        } else {
                            assert(d@[d@.len() - 1]@ == input@[i]@);
                        }
                    }
                }
            },
        }
        j = j + 1;
    }
    (d, Ghost(fp))
}

/// Some item of `src` is `k`.
pub open spec fn covers(src: Seq<int>, k: int) -> bool {
    exists|i: int| 0 <= i < src.len() && src[i] == k
}

/// `out` is `d` reordered by ascending `keys`, ties kept in the order of `d`;
/// `src` says where each item of `out` stands in `d`.
pub open spec fn sorted_from(d: Seq<String>, keys: Seq<u64>, out: Seq<String>, src: Seq<int>) -> bool {
    &&& out.len() == d.len()
    &&& src.len() == out.len()
    &&& forall|i: int| 0 <= i < out.len() ==> 0 <= #[trigger] src[i] < d.len() && out[i] == d[src[i]]
    &&& forall|i: int, j: int| 0 <= i < j < out.len() ==> src[i] != src[j]
    &&& forall|k: int| 0 <= k < d.len() ==> #[trigger] covers(src, k)
    &&& forall|i: int, j: int|
        0 <= i < j < out.len() ==> keys[src[i]] < keys[src[j]] || (keys[src[i]] == keys[src[j]]
            && src[i] < src[j])
}

/// Stable insertion sort of `d` by `keys`.
fn sort_by_keys(d: &Vec<String>, keys: &Vec<u64>) -> (res: (Vec<String>, Ghost<Seq<int>>))
    requires
        d@.len() == keys@.len(),
    ensures
        sorted_from(d@, keys@, res.0@, res.1@),
{
    let mut out: Vec<String> = Vec::new();
    let mut out_keys: Vec<u64> = Vec::new();
    let ghost mut src: Seq<int> = Seq::empty();
    let mut k: usize = 0;
    while k < d.len()
        invariant
            k <= d@.len(),
            d@.len() == keys@.len(),
            out@.len() == k,
            out_keys@.len() == k,
            src.len() == k,
            forall|i: int|
                0 <= i < k ==> 0 <= #[trigger] src[i] < k && out@[i] == d@[src[i]] && out_keys@[i]
                    == keys@[src[i]],
            forall|i: int, j: int| 0 <= i < j < k ==> src[i] != src[j],
            forall|m: int| 0 <= m < k ==> #[trigger] covers(src, m),
            forall|i: int, j: int|
                0 <= i < j < k ==> out_keys@[i] < out_keys@[j] || (out_keys@[i] == out_keys@[j]
                    && src[i] < src[j]),
        decreases d.len() - k,
    {
        let key = keys[k];
        let mut p: usize = 0;
        while p < out_keys.len() && out_keys[p] <= key
            invariant
                p <= out_keys@.len(),
                forall|i: int| 0 <= i < p ==> out_keys@[i] <= key,
            decreases out_keys.len() - p,
        {
            p = p + 1;
        }
        let ghost old_src = src;
        let ghost old_keys = out_keys@;
        let ghost old_out = out@;
        out.insert(p, d[k].clone());
        out_keys.insert(p, key);
        proof {
            src = src.insert(p as int, k as int);
            old_src.insert_ensures(p as int, k as int);
            old_keys.insert_ensures(p as int, key);
            old_out.insert_ensures(p as int, d@[k as int]);
            assert forall|i: int| p <= i < k implies old_keys[i] > key by {
                if i > p {
                    assert(old_keys[p as int] < old_keys[i] || old_keys[p as int] == old_keys[i]);
                }
            }
            assert forall|m: int| 0 <= m <= k implies #[trigger] covers(src, m) by {
                if m < k {
                    assert(covers(old_src, m));
                    let w = choose|w: int| 0 <= w < k && old_src[w] == m;
                    if w < p {
                        assert(src[w] == m);
                    } else {
                        assert(src[w + 1] == m);
                    }
                } else {
                    assert(src[p as int] == m);
                }
            }
            assert forall|i: int, j: int| 0 <= i < j < k + 1 implies out_keys@[i] < out_keys@[j]
                || (out_keys@[i] == out_keys@[j] && src[i] < src[j]) by {
                if j < p {
                } else if j == p {
                } else if i < p {
                    assert(out_keys@[j] == old_keys[j - 1]);
                } else if i == p {
                    assert(out_keys@[j] == old_keys[j - 1]);
                } else {
                    assert(out_keys@[i] == old_keys[i - 1]);
                    assert(out_keys@[j] == old_keys[j - 1]);
                }
            }
            assert forall|i: int, j: int| 0 <= i < j < k + 1 implies src[i] != src[j] by {
                if j < p {
                } else if j == p {
                } else if i < p {
                } else if i == p {
                } else {
                    assert(src[i] == old_src[i - 1]);
                    assert(src[j] == old_src[j - 1]);
                }
            }
            assert forall|i: int| 0 <= i < k + 1 implies 0 <= #[trigger] src[i] < k + 1
                && out@[i] == d@[src[i]] && out_keys@[i] == keys@[src[i]] by {
                if i < p {
                } else if i == p {
                } else {
                    assert(src[i] == old_src[i - 1]);
                }
            }
        }
        k = k + 1;
    }
    (out, Ghost(src))
}

/// `out` lists each text of `input` exactly once, in ascending `key`, and texts of
/// equal key in the order in which they first appear in `input`.
pub open spec fn ordered_listing(
    input: Seq<String>,
    out: Seq<String>,
    key: spec_fn(Seq<char>) -> int,
) -> bool {
    &&& forall|x: Seq<char>| #[trigger] holds(out, x) <==> holds(input, x)
    &&& forall|i: int, j: int| 0 <= i < j < out.len() ==> out[i]@ != out[j]@
    &&& forall|i: int, j: int| 0 <= i < j < out.len() ==> key(out[i]@) <= key(out[j]@)
    &&& forall|i: int, j: int, p: int, q: int|
        0 <= i < j < out.len() && key(out[i]@) == key(out[j]@) && #[trigger] first_seen(
            input,
            out[i]@,
            p,
        ) && #[trigger] first_seen(input, out[j]@, q) ==> p < q
}

proof fn lemma_ordered_listing(
    input: Seq<String>,
    d: Seq<String>,
    fp: Seq<int>,
    keys: Seq<u64>,
    out: Seq<String>,
    src: Seq<int>,
    key: spec_fn(Seq<char>) -> int,
)
    requires
        first_appearances(input, d, fp),
        d.len() == keys.len(),
        forall|k: int| 0 <= k < d.len() ==> keys[k] as int == key(#[trigger] d[k]@),
        sorted_from(d, keys, out, src),
    ensures
        ordered_listing(input, out, key),
{
    assert forall|a: int, b: int| 0 <= a < b < d.len() implies d[a]@ != d[b]@ by {
        if d[a]@ == d[b]@ {
            lemma_first_seen_unique(input, d[a]@, fp[a], fp[b]);
        }
    }
    assert forall|i: int, j: int| 0 <= i < j < out.len() implies out[i]@ != out[j]@ by {
        assert(src[i] != src[j]);
        if src[i] < src[j] {
            assert(d[src[i]]@ != d[src[j]]@);
        } else {
            assert(d[src[j]]@ != d[src[i]]@);
        }
    }
    assert forall|x: Seq<char>| #[trigger] holds(out, x) <==> holds(input, x) by {
        if holds(out, x) {
            let i = choose|i: int| 0 <= i < out.len() && out[i]@ == x;
            assert(first_seen(input, d[src[i]]@, fp[src[i]]));
        }
        if holds(input, x) {
            let j = choose|j: int| 0 <= j < input.len() && input[j]@ == x;
            assert(holds(d, input[j]@));
            let k = choose|k: int| 0 <= k < d.len() && d[k]@ == x;
            assert(covers(src, k));
            let i = choose|i: int| 0 <= i < src.len() && src[i] == k;
            assert(out[i]@ == x);
        }
    }
    assert forall|i: int, j: int| 0 <= i < j < out.len() implies key(out[i]@) <= key(out[j]@) by {
        assert(keys[src[i]] as int == key(d[src[i]]@));
        assert(keys[src[j]] as int == key(d[src[j]]@));
    }
    assert forall|i: int, j: int, p: int, q: int|
        0 <= i < j < out.len() && key(out[i]@) == key(out[j]@) && #[trigger] first_seen(
            input,
            out[i]@,
            p,
        ) && #[trigger] first_seen(input, out[j]@, q) implies p < q by {
        assert(keys[src[i]] as int == key(d[src[i]]@));
        assert(keys[src[j]] as int == key(d[src[j]]@));
        assert(first_seen(input, d[src[i]]@, fp[src[i]]));
        assert(first_seen(input, d[src[j]]@, fp[src[j]]));
        lemma_first_seen_unique(input, out[i]@, p, fp[src[i]]);
        lemma_first_seen_unique(input, out[j]@, q, fp[src[j]]);
    }
}

/// Ranks of game versions, from an authoritative manifest (rank 0 first).
pub struct VersionIndex {
    pub entries: Vec<(String, u16)>,
}

/// Rank of `k`: that of its last entry.
pub open spec fn rank_in(e: Seq<(String, u16)>, k: Seq<char>) -> Option<u16>
    decreases e.len(),
{
    if e.len() == 0 {
        None
    } else if e.last().0@ == k {
        Some(e.last().1)
    } else {
        rank_in(e.drop_last(), k)
    }
}

impl VersionIndex {
    pub open spec fn rank_of(&self, k: Seq<char>) -> Option<u16> {
        rank_in(self.entries@, k)
    }

    /// Index of manifest ids in manifest order: the id at position `i` gets rank `i`.
    /// Only the first 65536 ids are ranked; an id listed twice keeps its later rank.
    pub fn from_manifest(ids: &Vec<String>) -> (r: Self)
        ensures
            r.entries@.len() == if ids@.len() <= 65536 {
                ids@.len() as int
            } else {
                65536
            },
            forall|i: int|
                0 <= i < r.entries@.len() ==> r.entries@[i].0@ == ids@[i]@ && r.entries@[i].1
                    == i,
    {
        let mut entries: Vec<(String, u16)> = Vec::new();
        let mut i: usize = 0;
        while i < ids.len() && i <= 65535
            invariant
                i <= ids@.len(),
                i <= 65536,
                entries@.len() == i,
                forall|m: int|
                    0 <= m < i ==> entries@[m].0@ == ids@[m]@ && entries@[m].1 == m,
            decreases ids.len() - i,
        {
            entries.push((ids[i].clone(), i as u16));
            i = i + 1;
        }
        VersionIndex { entries }
    }

    /// Rank of a version id, if the index holds it.
    pub fn rank(&self, k: &str) -> (r: Option<u16>)
        ensures
            r == self.rank_of(k@),
    {
        let mut j = self.entries.len();
        assert(self.entries@.subrange(0, j as int) =~= self.entries@);
        while j > 0
            invariant
                j <= self.entries@.len(),
                rank_in(self.entries@.subrange(0, j as int), k@) == self.rank_of(k@),
            decreases j,
        {
            let ghost part = self.entries@.subrange(0, j as int);
            assert(part.drop_last() =~= self.entries@.subrange(0, j - 1));
            if same_text(self.entries[j - 1].0.as_str(), k) {
                return Some(self.entries[j - 1].1);
            }
            j = j - 1;
        }
        None
    }
}

/// Sort key of a version: its rank, or 65535 when the index lacks it (or there is
/// no index, in which case every key is the same).
pub open spec fn plain_key(index: Option<VersionIndex>, s: Seq<char>) -> int {
    match index {
        Some(ix) => match ix.rank_of(s) {
            Some(r) => r as int,
            None => 65535,
        },
        None => 0,
    }
}

/// Orders game versions by their rank in the manifest index; versions the index
/// lacks go last. Each version is listed once, and versions of equal rank keep the
/// order of their first appearance. Without an index the order of first appearance
/// is kept.
pub fn order_mc_versions(index: &Option<VersionIndex>, input: Vec<String>) -> (r: Vec<String>)
    ensures
        ordered_listing(input@, r@, |x: Seq<char>| plain_key(*index, x)),
{
    let (d, Ghost(fp)) = distinct_in_order(&input);
    let ghost key = |x: Seq<char>| plain_key(*index, x);
    let mut keys: Vec<u64> = Vec::new();
    let mut k: usize = 0;
    while k < d.len()
        invariant
            k <= d@.len(),
            keys@.len() == k,
            key == (|x: Seq<char>| plain_key(*index, x)),
            forall|m: int| 0 <= m < k ==> keys@[m] as int == key(#[trigger] d@[m]@),
        decreases d.len() - k,
    {
        let kv: u64 = match index {
            Some(ix) => match ix.rank(d[k].as_str()) {
                Some(r) => r as u64,
                None => 65535,
            },
            None => 0,
        };
        keys.push(kv);
        k = k + 1;
    }
    let (out, Ghost(src)) = sort_by_keys(&d, &keys);
    proof {
        lemma_ordered_listing(input@, d@, fp, keys@, out@, src, key);
    }
    out
}

/// Value of the decimal digits `t[a..b]`.
pub open spec fn digits_value(t: Seq<char>, a: int, b: int) -> nat
    decreases b - a,
{
    if b <= a {
        0
    } else {
        digits_value(t, a, b - 1) * 10 + ((t[b - 1] as u32 - '0' as u32) as nat)
    }
}

/// Rank of a numbered suffix: a larger number ranks first; a number that does not
/// fit in 16 bits ranks last.
pub open spec fn suffix_number_rank(v: nat) -> int {
    if v <= 65535 {
        65535 - v
    } else {
        65535
    }
}

/// At `q` stands `tag` followed by a digit.
pub open spec fn tagged_number_at(t: Seq<char>, tag: Seq<char>, q: int) -> bool {
    matches_at(t, q, tag) && q + tag.len() < t.len() && is_digit(t[q + tag.len()])
}

pub open spec fn tagged_pred(t: Seq<char>, tag: Seq<char>) -> spec_fn(int) -> bool {
    |q: int| tagged_number_at(t, tag, q)
}

/// Kind and rank of the first `tag<N>` in `t`, if any.
pub open spec fn tagged_suffix(t: Seq<char>, tag: Seq<char>) -> Option<int> {
    match first_from(t, tagged_pred(t, tag), 0) {
        Some(q) => {
            let s = q + tag.len();
            Some(suffix_number_rank(digits_value(t, s, digits_end(t, s))))
        },
        None => None,
    }
}

/// Secondary key of a lower-cased version: release candidates (`-rcN`) first, then
/// pre-releases (`-preN`), then snapshots, then plain releases; within a kind, the
/// larger `N` first. Encoded as `kind * 65536 + rank`.
pub open spec fn suffix_key(sl: Seq<char>) -> int {
    match tagged_suffix(sl, "-rc"@) {
        Some(r) => 65536 + r,
        None => match tagged_suffix(sl, "-pre"@) {
            Some(r) => 2 * 65536 + r,
            None => if contains(sl, "snapshot"@) {
                3 * 65536int
            } else {
                4 * 65536int
            },
        },
    }
}

/// The leading dotted number of a lower-cased version (`1.20` of `1.20-rc1`), when
/// it has at least one dot.
pub open spec fn base_version(sl: Seq<char>) -> Option<Seq<char>> {
    if sl.len() > 0 && is_digit(sl[0]) && sl.subrange(0, number_end(sl, 1)).contains('.') {
        Some(sl.subrange(0, number_end(sl, 1)))
    } else {
        None
    }
}

/// Rank of a version in the index, falling back to the rank of its base version.
pub open spec fn fuzzy_rank(ix: VersionIndex, s: Seq<char>, sl: Seq<char>) -> int {
    let r0: int = match ix.rank_of(s) {
        Some(r) => r as int,
        None => 65535,
    };
    if r0 == 65535 {
        match base_version(sl) {
            Some(b) => match ix.rank_of(b) {
                Some(r) => r as int,
                None => 65535,
            },
            None => 65535,
        }
    } else {
        r0
    }
}

/// Sort key of a version `s` whose lower-cased form is `sl`: the fuzzy rank first,
/// then the suffix key.
pub open spec fn fuzzy_key(ix: VersionIndex, s: Seq<char>, sl: Seq<char>) -> int {
    fuzzy_rank(ix, s, sl) * 16777216 + suffix_key(sl)
}

/// Sort key of every version under an index, as `order_mc_versions_cf` uses it.
pub open spec fn cf_order_key(ix: VersionIndex, s: Seq<char>) -> int {
    fuzzy_key(ix, s, lower_of(s))
}

fn tagged_suffix_exec(t: &Vec<char>, tag: &Vec<char>) -> (r: Option<u64>)
    ensures
        match r {
            Some(v) => tagged_suffix(t@, tag@) == Some(v as int),
            None => tagged_suffix(t@, tag@) is None,
        },
{
    let ghost pred = tagged_pred(t@, tag@);
    let n = t.len();
    let mut q: usize = 0;
    while q < n
        invariant
            q <= n,
            n == t@.len(),
            pred == tagged_pred(t@, tag@),
            first_from(t@, pred, q as int) == first_from(t@, pred, 0),
        decreases n - q,
    {
        if matches_at_exec(t, q, tag) {
            assert(q + tag@.len() <= n);
            let s = q + tag.len();
            if s < n && '0' <= t[s] && t[s] <= '9' {
                let e = skip_digits(t, s);
                proof {
                    crate::text::lemma_digits_end_bounds(t@, s as int);
                }
                let mut v: u64 = 0;
                let mut i = s;
                while i < e
                    invariant
                        s <= i <= e <= n,
                        n == t@.len(),
                        forall|m: int| s <= m < e ==> is_digit(t@[m]),
                        v as int == if digits_value(t@, s as int, i as int) <= 65536 {
                            digits_value(t@, s as int, i as int) as int
                        } else {
                            65536
                        },
                    decreases e - i,
                {
                    assert(is_digit(t@[i as int]));
                    let dv = (t[i] as u32 - '0' as u32) as u64;
                    assert(dv <= 9);
                    if v < 65536 {
                        v = v * 10 + dv;
                        if v > 65536 {
                            v = 65536;
                        }
                    } else {
                        assert(digits_value(t@, s as int, i + 1) >= digits_value(t@, s as int, i as int)) by (nonlinear_arith)
                            requires
                                digits_value(t@, s as int, i + 1) == digits_value(t@, s as int, i as int) * 10 + dv,
                        ;
                    }
                    i = i + 1;
                }
                let r = if v <= 65535 {
                    65535 - v
                } else {
                    65535
                };
                return Some(r);
            }
        }
        q = q + 1;
    }
    None
}

fn suffix_key_exec(sl: &Vec<char>) -> (r: u64)
    ensures
        r as int == suffix_key(sl@),
        r < 5 * 65536,
{
    let rc = chars_of("-rc");
    let pre = chars_of("-pre");
    let snap = chars_of("snapshot");
    match tagged_suffix_exec(sl, &rc) {
        Some(r) => 65536 + r,
        None => match tagged_suffix_exec(sl, &pre) {
            Some(r) => 2 * 65536 + r,
            None => if contains_exec(sl, &snap) {
                3 * 65536
            } else {
                4 * 65536
            },
        },
    }
}

/// Sort key of version `s` given its lower-cased form `lowered`.
pub fn fuzzy_sort_key(index: &VersionIndex, s: &str, lowered: &str) -> (r: u64)
    ensures
        r as int == fuzzy_key(*index, s@, lowered@),
{
    let sl = chars_of(lowered);
    let mut rank: u64 = match index.rank(s) {
        Some(r) => r as u64,
        None => 65535,
    };
    if rank == 65535 {
        if sl.len() > 0 && '0' <= sl[0] && sl[0] <= '9' {
            let n = sl.len();
            let mut j: usize = 1;
            while j < n && (('0' <= sl[j] && sl[j] <= '9') || (n - j > 1 && sl[j] == '.' && '0'
                <= sl[j + 1] && sl[j + 1] <= '9'))
                invariant
                    1 <= j <= n,
                    n == sl@.len(),
                    number_end(sl@, j as int) == number_end(sl@, 1),
                decreases n - j,
            {
                if '0' <= sl[j] && sl[j] <= '9' {
                    j = j + 1;
                } else {
                    j = j + 2;
                }
            }
            let mut dot = false;
            let mut k: usize = 0;
            while k < j
                invariant
                    k <= j <= n,
                    n == sl@.len(),
                    dot == exists|m: int| 0 <= m < k && sl@[m] == '.',
                decreases j - k,
            {
                if sl[k] == '.' {
                    dot = true;
                }
                k = k + 1;
            }
            proof {
                let b = sl@.subrange(0, j as int);
                if dot {
                    let m = choose|m: int| 0 <= m < j && sl@[m] == '.';
                    assert(b[m] == '.');
                } else {
                    assert forall|m: int| 0 <= m < b.len() implies b[m] != '.' by {
                        assert(sl@[m] != '.');
                    }
                }
            }
            if dot {
                let mut base = String::new();
                crate::text::push_range(&mut base, &sl, 0, j);
                match index.rank(base.as_str()) {
                    Some(r) => {
                        rank = r as u64;
                    },
                    None => {},
                }
            }
        }
    }
    let sk = suffix_key_exec(&sl);
    rank * 16777216 + sk
}

/// Orders game versions as `order_mc_versions` does, with a fuzzy rank: a version
/// the index lacks takes the rank of its leading dotted number, and versions of one
/// rank are ordered by suffix (see `suffix_key`). Each version is listed once. Without
/// an index the input is returned as it is.
pub fn order_mc_versions_cf(index: &Option<VersionIndex>, input: Vec<String>) -> (r: Vec<String>)
    ensures
        match index {
            Some(ix) => ordered_listing(input@, r@, |x: Seq<char>| cf_order_key(*ix, x)),
            None => r@ == input@,
        },
{
    match index {
        None => input,
        Some(ix) => {
            let (d, Ghost(fp)) = distinct_in_order(&input);
            let ghost key = |x: Seq<char>| cf_order_key(*ix, x);
            let mut keys: Vec<u64> = Vec::new();
            let mut k: usize = 0;
            while k < d.len()
                invariant
                    k <= d@.len(),
                    keys@.len() == k,
                    key == (|x: Seq<char>| cf_order_key(*ix, x)),
                    forall|m: int| 0 <= m < k ==> keys@[m] as int == key(#[trigger] d@[m]@),
                decreases d.len() - k,
            {
                let lowered = lowercase(d[k].as_str());
                keys.push(fuzzy_sort_key(ix, d[k].as_str(), lowered.as_str()));
                k = k + 1;
            }
            let (out, Ghost(src)) = sort_by_keys(&d, &keys);
            proof {
                lemma_ordered_listing(input@, d@, fp, keys@, out@, src, key);
            }
            out
        },
    }
}

} // verus!
