//! CurseForge: loader codes, version extraction from file names, cache names, and
//! the choice of the latest matching file.
use vstd::prelude::*;
use crate::cache::{safe_key_segment, safe_segment};
use crate::text::{
    chars_of, decimal, ends_with, ends_with_exec, is_ascii_alnum, is_digit, lower_of, lowercase,
    push_decimal, push_range, push_str, same_text,
};
use crate::util::{loader_name_to_tag, tag_of_lowered};

verus! {

/// One entry of a project's "latest files" index.
pub struct CfLatestFileIndex {
    pub game_version: String,
    pub file_id: u32,
    pub filename: String,
    pub release_type: u8,
    pub mod_loader: Option<u8>,
}

/// One file of a project's file listing.
pub struct CfFileItem {
    pub id: u32,
    pub display_name: Option<String>,
    pub file_name: String,
    pub file_date: String,
    pub release_type: u8,
    pub game_versions: Vec<String>,
}

/// Characters allowed after the `-` or `+` that opens a version suffix.
pub open spec fn is_suffix_char(c: char) -> bool {
    is_ascii_alnum(c) || c == '_' || c == '.' || c == '-'
}

/// End of the dotted number that continues at `j`: digits, and `.` followed by a digit.
pub open spec fn number_end(t: Seq<char>, j: int) -> int
    decreases t.len() - j,
{
    if j < 0 || j >= t.len() {
        j
    } else if is_digit(t[j]) {
        number_end(t, j + 1)
    } else if j + 1 < t.len() && t[j] == '.' && is_digit(t[j + 1]) {
        number_end(t, j + 2)
    } else {
        j
    }
}

pub open spec fn suffix_run_end(t: Seq<char>, j: int) -> int
    decreases t.len() - j,
{
    if j < 0 || j >= t.len() || !is_suffix_char(t[j]) {
        j
    } else {
        suffix_run_end(t, j + 1)
    }
}

/// `t[a..b]` holds a dotted number of its own: a digit, `.`, then a digit.
pub open spec fn holds_dotted_number(t: Seq<char>, a: int, b: int) -> bool {
    exists|k: int| a <= k && k + 2 < b && #[trigger] is_digit(t[k]) && t[k + 1] == '.' && is_digit(t[k + 2])
}

/// End of the version token that starts with the digit at `i`: the dotted number,
/// then, when present, `-` or `+` and a run of suffix characters (`-rc1`, `+build.5`).
/// A run that holds a dotted number of its own is no suffix: it carries a later
/// version (`-forge-1.20.jar`), which is not part of this one.
pub open spec fn token_end(t: Seq<char>, i: int) -> int {
    let n = number_end(t, i + 1);
    if n + 1 < t.len() && (t[n] == '-' || t[n] == '+') && is_suffix_char(t[n + 1])
        && !holds_dotted_number(t, n + 1, suffix_run_end(t, n + 1)) {
        suffix_run_end(t, n + 1)
    } else {
        n
    }
}

/// The first version token at or after `i` that holds a `.`, scanning token by token.
pub open spec fn version_from(t: Seq<char>, i: int) -> Option<Seq<char>>
    decreases t.len() - i,
{
    if i < 0 || i >= t.len() {
        None
    } else if !is_digit(t[i]) {
        version_from(t, i + 1)
    } else {
        let e = token_end(t, i);
        if t.subrange(i, e).contains('.') {
            Some(t.subrange(i, e))
        } else {
            version_from(t, if i < e <= t.len() { e } else { i + 1 })
        }
    }
}

proof fn lemma_number_end_bounds(t: Seq<char>, j: int)
    requires
        0 <= j <= t.len(),
    ensures
        j <= number_end(t, j) <= t.len(),
    decreases t.len() - j,
{
    if j < t.len() {
        if is_digit(t[j]) {
            lemma_number_end_bounds(t, j + 1);
        } else if j + 1 < t.len() && t[j] == '.' && is_digit(t[j + 1]) {
            lemma_number_end_bounds(t, j + 2);
        }
    }
}

proof fn lemma_suffix_run_bounds(t: Seq<char>, j: int)
    requires
        0 <= j <= t.len(),
    ensures
        j <= suffix_run_end(t, j) <= t.len(),
    decreases t.len() - j,
{
    if j < t.len() && is_suffix_char(t[j]) {
        lemma_suffix_run_bounds(t, j + 1);
    }
}

fn is_digit_exec(c: char) -> (r: bool)
    ensures
        r == is_digit(c),
{
    '0' <= c && c <= '9'
}

fn is_suffix_char_exec(c: char) -> (r: bool)
    ensures
        r == is_suffix_char(c),
{
    ('0' <= c && c <= '9') || ('a' <= c && c <= 'z') || ('A' <= c && c <= 'Z') || c == '_' || c
        == '.' || c == '-'
}

fn token_end_exec(t: &Vec<char>, i: usize) -> (r: usize)
    requires
        i < t@.len(),
    ensures
        r == token_end(t@, i as int),
        i < r <= t@.len(),
{
    let n = t.len();
    let mut j = i + 1;
    while j < n && (is_digit_exec(t[j]) || (n - j > 1 && t[j] == '.' && is_digit_exec(t[j + 1])))
        invariant
            i < j <= n,
            n == t@.len(),
            number_end(t@, j as int) == number_end(t@, i + 1),
        decreases n - j,
    {
        if is_digit_exec(t[j]) {
            j = j + 1;
        } else {
            j = j + 2;
        }
    }
    assert(number_end(t@, j as int) == number_end(t@, i + 1));
    if j < n && n - j > 1 && (t[j] == '-' || t[j] == '+') && is_suffix_char_exec(t[j + 1]) {
        let mut k = j + 1;
        while k < n && is_suffix_char_exec(t[k])
            invariant
                j < k <= n,
                n == t@.len(),
                suffix_run_end(t@, k as int) == suffix_run_end(t@, j + 1),
            decreases n - k,
        {
            k = k + 1;
        }
        let mut m = j + 1;
        let mut dotted = false;
        while m < k
            invariant
                j < m <= k <= n,
                n == t@.len(),
                dotted == exists|x: int| j + 1 <= x < m && x + 2 < k && #[trigger] is_digit(t@[x])
                    && t@[x + 1] == '.' && is_digit(t@[x + 2]),
            decreases k - m,
        {
            if k - m > 2 && is_digit_exec(t[m]) && t[m + 1] == '.' && is_digit_exec(t[m + 2]) {
                dotted = true;
            }
            m = m + 1;
        }
        if dotted {
            j
        } else {
            k
        }
    } else {
        j
    }
}

/// Pulls a version out of a file or display name: the first token that holds a `.`,
/// a token being dot-separated digit groups with an optional `-`/`+` suffix (see
/// `token_end`).
pub fn extract_version(text: &str) -> (r: Option<String>)
    ensures
        match r {
            Some(v) => version_from(text@, 0) == Some(v@),
            None => version_from(text@, 0) is None,
        },
{
    let t = chars_of(text);
    let n = t.len();
    let mut i: usize = 0;
    while i < n
        invariant
            i <= n,
            n == t@.len(),
            t@ == text@,
            version_from(t@, i as int) == version_from(t@, 0),
        decreases n - i,
    {
        if !is_digit_exec(t[i]) {
            i = i + 1;
        } else {
            let e = token_end_exec(&t, i);
            let mut k = i;
            let mut dot = false;
            while k < e
                invariant
                    i <= k <= e <= n,
                    n == t@.len(),
                    dot == exists|m: int| i <= m < k && t@[m] == '.',
                decreases e - k,
            {
                if t[k] == '.' {
                    dot = true;
                }
                k = k + 1;
            }
            proof {
                let s = t@.subrange(i as int, e as int);
                if dot {
                    let m = choose|m: int| i <= m < e && t@[m] == '.';
                    assert(s[m - i] == '.');
                } else {
                    assert forall|m: int| 0 <= m < s.len() implies s[m] != '.' by {
                        assert(t@[i + m] != '.');
                    }
                }
            }
            if dot {
                let mut out = String::new();
                push_range(&mut out, &t, i, e);
                return Some(out);
            }
            i = e;
        }
    }
    None
}

/// `name` without a trailing `.jar` (matched lower-cased), given its lower-cased form.
pub open spec fn jar_stripped(name: Seq<char>, lowered: Seq<char>) -> Seq<char> {
    if ends_with(lowered, ".jar"@) {
        name.subrange(0, if name.len() >= 4 { name.len() - 4 } else { 0 })
    } else {
        name
    }
}

/// Drops the last four characters of `name` when its lower-cased form `lowered`
/// ends with `.jar`.
pub fn strip_jar_given_lowered(name: &str, lowered: &str) -> (r: String)
    ensures
        r@ == jar_stripped(name@, lowered@),
{
    let t = chars_of(name);
    let l = chars_of(lowered);
    let jar = chars_of(".jar");
    let mut out = String::new();
    if ends_with_exec(&l, &jar) {
        let cut = if t.len() >= 4 {
            t.len() - 4
        } else {
            0
        };
        push_range(&mut out, &t, 0, cut);
    } else {
        push_range(&mut out, &t, 0, t.len());
        assert(t@.subrange(0, t@.len() as int) =~= t@);
    }
    out
}

/// A file name without its `.jar` extension (matched case-insensitively).
pub fn strip_jar_suffix(name: &str) -> (r: String)
    ensures
        r@ == jar_stripped(name@, lower_of(name@)),
{
    let lowered = lowercase(name);
    strip_jar_given_lowered(name, lowered.as_str())
}

/// Loader tag of a CurseForge mod-loader code.
pub open spec fn cf_loader_tag(code: u8) -> Seq<char> {
    if code == 1 {
        "Forge"@
    } else if code == 6 {
        "NeoForge"@
    } else if code == 4 {
        "Fabric"@
    } else if code == 5 {
        "Quilt"@
    } else if code == 3 {
        "LiteLoader"@
    } else if code == 7 {
        "Rift"@
    } else {
        "Unknown"@
    }
}

/// Loader tag of a CurseForge mod-loader code; `Unknown` for codes outside the table.
pub fn cf_mod_loader_to_tag(code: u8) -> (r: &'static str)
    ensures
        r@ == cf_loader_tag(code),
{
    match code {
        1 => "Forge",
        6 => "NeoForge",
        4 => "Fabric",
        5 => "Quilt",
        3 => "LiteLoader",
        7 => "Rift",
        _ => "Unknown",
    }
}

/// CurseForge mod-loader code of an already lower-cased loader name.
pub open spec fn cf_code_of_lowered(l: Seq<char>) -> Option<u8> {
    if l == "forge"@ {
        Some(1u8)
    } else if l == "neoforge"@ {
        Some(6u8)
    } else if l == "fabric"@ {
        Some(4u8)
    } else if l == "quilt"@ {
        Some(5u8)
    } else {
        None
    }
}

/// CurseForge mod-loader code for a lower-cased loader name.
pub fn cf_loader_code_from_lowered(lowered: &str) -> (r: Option<u8>)
    ensures
        r == cf_code_of_lowered(lowered@),
{
    if same_text(lowered, "forge") {
        Some(1)
    } else if same_text(lowered, "neoforge") {
        Some(6)
    } else if same_text(lowered, "fabric") {
        Some(4)
    } else if same_text(lowered, "quilt") {
        Some(5)
    } else {
        None
    }
}

/// CurseForge mod-loader code for a loader name, compared lower-cased.
pub fn cf_mod_loader_code_from_name(name: &str) -> (r: Option<u8>)
    ensures
        r == cf_code_of_lowered(lower_of(name@)),
{
    let lowered = lowercase(name);
    cf_loader_code_from_lowered(lowered.as_str())
}

/// Cache file name of a filtered file listing.
pub fn cf_cache_name(project_id: u32, mc_version: &str, loader_code: u8) -> (r: String)
    ensures
        r@ == "cf-files-"@ + decimal(project_id as nat) + "-"@ + safe_segment(mc_version@) + "-"@
            + decimal(loader_code as nat) + ".bin"@,
{
    let v = safe_key_segment(mc_version);
    let mut out = String::new();
    push_str(&mut out, "cf-files-");
    push_decimal(&mut out, project_id as u64);
    push_str(&mut out, "-");
    push_str(&mut out, v.as_str());
    push_str(&mut out, "-");
    push_decimal(&mut out, loader_code as u64);
    push_str(&mut out, ".bin");
    out
}

/// Loader tag of the loader an index entry was published for.
pub open spec fn cf_entry_tag(e: CfLatestFileIndex) -> Seq<char> {
    match e.mod_loader {
        Some(c) => cf_loader_tag(c),
        None => "Unknown"@,
    }
}

/// The entry is a release, beta or alpha for game version `mc` and loader tag `target`.
pub open spec fn cf_eligible(e: CfLatestFileIndex, mc: Seq<char>, target: Seq<char>) -> bool {
    1 <= e.release_type <= 3 && e.game_version@ == mc && cf_entry_tag(e) == target
}

/// Entry `a` at position `ia` ranks at least as high as entry `b` at `ib`: a higher
/// release level (release 1, beta 2, alpha 3), then a larger (newer) file id, then
/// the earlier position.
pub open spec fn cf_preferred(a: CfLatestFileIndex, ia: int, b: CfLatestFileIndex, ib: int) -> bool {
    a.release_type < b.release_type || (a.release_type == b.release_type && (a.file_id
        > b.file_id || (a.file_id == b.file_id && ia <= ib)))
}

/// Position `i` holds the eligible entry that ranks highest.
pub open spec fn cf_best(s: Seq<CfLatestFileIndex>, mc: Seq<char>, target: Seq<char>, i: int) -> bool {
    &&& 0 <= i < s.len()
    &&& cf_eligible(s[i], mc, target)
    &&& forall|j: int| 0 <= j < s.len() && cf_eligible(s[j], mc, target) ==> cf_preferred(s[i], i, s[j], j)
}

/// Version shown for an entry: the version in its file name, else its file id.
pub open spec fn cf_display_version(e: CfLatestFileIndex) -> Seq<char> {
    match version_from(e.filename@, 0) {
        Some(v) => v,
        None => decimal(e.file_id as nat),
    }
}

fn cf_entry_matches(e: &CfLatestFileIndex, mc_version: &str, target_loader: &str) -> (r: bool)
    ensures
        r == cf_eligible(*e, mc_version@, target_loader@),
{
    let tag = match e.mod_loader {
        Some(c) => cf_mod_loader_to_tag(c),
        None => "Unknown",
    };
    1 <= e.release_type && e.release_type <= 3 && same_text(e.game_version.as_str(), mc_version)
        && same_text(tag, target_loader)
}

/// Picks the index entry for `mc_version` and loader tag `target_loader` that ranks
/// highest: release over beta over alpha, then the largest file id.
pub fn select_cf_entry(indexes: &Vec<CfLatestFileIndex>, mc_version: &str, target_loader: &str) -> (r: Option<usize>)
    ensures
        match r {
            Some(i) => cf_best(indexes@, mc_version@, target_loader@, i as int),
            None => forall|j: int|
                0 <= j < indexes@.len() ==> !cf_eligible(indexes@[j], mc_version@, target_loader@),
        },
{
    let ghost mc = mc_version@;
    let ghost tg = target_loader@;
    let mut best: Option<usize> = None;
    let mut j: usize = 0;
    while j < indexes.len()
        invariant
            j <= indexes@.len(),
            mc == mc_version@,
            tg == target_loader@,
            match best {
                Some(b) => b < j && cf_eligible(indexes@[b as int], mc, tg) && forall|k: int|
                    0 <= k < j && cf_eligible(indexes@[k], mc, tg) ==> cf_preferred(
                        indexes@[b as int],
                        b as int,
                        indexes@[k],
                        k,
                    ),
                None => forall|k: int| 0 <= k < j ==> !cf_eligible(indexes@[k], mc, tg),
            },
        decreases indexes.len() - j,
    {
        let e = &indexes[j];
        if cf_entry_matches(e, mc_version, target_loader) {
            match best {
                None => {
                    best = Some(j);
                },
                Some(b) => {
                    let cur = &indexes[b];
                    if e.release_type < cur.release_type || (e.release_type == cur.release_type
                        && e.file_id > cur.file_id) {
                        best = Some(j);
                    }
                },
            }
        }
        j = j + 1;
    }
    best
}

/// The latest file for `mc_version` and `loader` among a project's index entries:
/// its file id, the version to show, and its release level; all `None` when no
/// entry matches. The loader is compared as a tag (see `loader_name_to_tag`).
pub fn get_latest_cf_file(indexes: &Vec<CfLatestFileIndex>, mc_version: &str, loader: &str) -> (r: (
    Option<u32>,
    Option<String>,
    Option<u8>,
))
    ensures
        ({
            let tg = tag_of_lowered(lower_of(loader@));
            match r.0 {
                None => r.1 is None && r.2 is None && forall|j: int|
                    0 <= j < indexes@.len() ==> !cf_eligible(indexes@[j], mc_version@, tg),
                Some(id) => exists|i: int|
                    {
                        &&& cf_best(indexes@, mc_version@, tg, i)
                        &&& id == indexes@[i].file_id
                        &&& r.1 matches Some(v) && v@ == cf_display_version(indexes@[i])
                        &&& r.2 == Some(indexes@[i].release_type)
                    },
            }
        }),
{
    let target = loader_name_to_tag(loader);
    match select_cf_entry(indexes, mc_version, target.as_str()) {
        None => (None, None, None),
        Some(i) => {
            let e = &indexes[i];
            let version = match extract_version(e.filename.as_str()) {
                Some(v) => v,
                None => {
                    let mut d = String::new();
                    push_decimal(&mut d, e.file_id as u64);
                    d
                },
            };
            let r = (Some(e.file_id), Some(version), Some(e.release_type));
            assert(cf_best(indexes@, mc_version@, target@, i as int));
            r
        },
    }
}

/// Whether another page of the file listing is to be fetched: the last page came back
/// full and fewer than `cap` files have been gathered.
pub fn more_pages_wanted(page_len: usize, page_size: u32, gathered: usize, cap: usize) -> (r: bool)
    ensures
        r == (page_len >= page_size && gathered < cap),
{
    !(page_len < page_size as usize || gathered >= cap)
}

} // verus!
