//! Dependency declaration lines: composing one for a loader, and replacing or
//! inserting the declaration of a module in a build script.
use vstd::prelude::*;
use crate::gradle::{
    block_range_chars, insert_before_close, insert_before_close_exec, lemma_first_block_bounds,
    top_level_block,
};
use crate::text::{
    chars_of, contains, decimal, digits_end, find_char, find_char_from, is_digit, line_start,
    line_start_exec, lower_of, lowercase, matches_at, matches_at_exec, push_decimal, push_range,
    push_str, same_text, skip_digits,
};

verus! {

/// A loader name that has no dependency dialect.
pub struct UnknownLoaderError {
    pub loader: String,
}

impl UnknownLoaderError {
    /// The error as text: `Unknown loader: <name>`.
    pub fn message(&self) -> (r: String)
        ensures
            r@ == "Unknown loader: "@ + self.loader@,
    {
        let mut out = String::new();
        push_str(&mut out, "Unknown loader: ");
        push_str(&mut out, self.loader.as_str());
        out
    }
}

/// The declaration line for a coordinate, by lower-cased loader name.
pub open spec fn dialect_line(lowered: Seq<char>, coord: Seq<char>) -> Option<Seq<char>> {
    if lowered == "forge"@ {
        Some("    implementation fg.deobf(\""@ + coord + "\")"@)
    } else if lowered == "fabric"@ || lowered == "quilt"@ {
        Some("    modImplementation \""@ + coord + "\""@)
    } else if lowered == "neoforge"@ {
        Some("    implementation \""@ + coord + "\""@)
    } else {
        None
    }
}

/// Curse Maven coordinate `curse.maven:<slug>-<modid>:<file id>`.
pub open spec fn cf_coordinate(slug: Seq<char>, modid: Seq<char>, file_id: nat) -> Seq<char> {
    "curse.maven:"@ + slug + "-"@ + modid + ":"@ + decimal(file_id)
}

/// Modrinth Maven coordinate `maven.modrinth:<slug>:<version id>`.
pub open spec fn mr_coordinate(slug: Seq<char>, version_id: Seq<char>) -> Seq<char> {
    "maven.modrinth:"@ + slug + ":"@ + version_id
}

/// Composes the declaration line of `coordinate` for an already lower-cased loader
/// name; `None` for a loader without a dialect.
pub fn dependency_line(lowered: &str, coordinate: &str) -> (r: Option<String>)
    ensures
        match r {
            Some(l) => dialect_line(lowered@, coordinate@) == Some(l@),
            None => dialect_line(lowered@, coordinate@) is None,
        },
{
    let mut out = String::new();
    if same_text(lowered, "forge") {
        push_str(&mut out, "    implementation fg.deobf(\"");
        push_str(&mut out, coordinate);
        push_str(&mut out, "\")");
    } else if same_text(lowered, "fabric") || same_text(lowered, "quilt") {
        push_str(&mut out, "    modImplementation \"");
        push_str(&mut out, coordinate);
        push_str(&mut out, "\"");
    } else if same_text(lowered, "neoforge") {
        push_str(&mut out, "    implementation \"");
        push_str(&mut out, coordinate);
        push_str(&mut out, "\"");
    } else {
        return None;
    }
    Some(out)
}

fn line_or_error(lowered: &str, coordinate: &str, loader: &str) -> (r: Result<
    String,
    UnknownLoaderError,
>)
    ensures
        match dialect_line(lowered@, coordinate@) {
            Some(l) => r matches Ok(s) && s@ == l,
            None => r matches Err(e) && e.loader@ == loader@,
        },
{
    match dependency_line(lowered, coordinate) {
        Some(l) => Ok(l),
        None => {
            let mut name = String::new();
            push_str(&mut name, loader);
            Err(UnknownLoaderError { loader: name })
        },
    }
}

/// Declaration line of a Curse Maven dependency for `loader` (compared lower-cased).
pub fn generate_dep(loader: &str, slug: &str, modid: &str, file_id: u32) -> (r: Result<
    String,
    UnknownLoaderError,
>)
    ensures
        match dialect_line(lower_of(loader@), cf_coordinate(slug@, modid@, file_id as nat)) {
            Some(l) => r matches Ok(s) && s@ == l,
            None => r matches Err(e) && e.loader@ == loader@,
        },
{
    let mut coord = String::new();
    push_str(&mut coord, "curse.maven:");
    push_str(&mut coord, slug);
    push_str(&mut coord, "-");
    push_str(&mut coord, modid);
    push_str(&mut coord, ":");
    push_decimal(&mut coord, file_id as u64);
    let lowered = lowercase(loader);
    line_or_error(lowered.as_str(), coord.as_str(), loader)
}

/// Declaration line of a Modrinth Maven dependency for `loader` (compared lower-cased).
pub fn generate_mr_dep(loader: &str, slug: &str, version_id: &str) -> (r: Result<
    String,
    UnknownLoaderError,
>)
    ensures
        match dialect_line(lower_of(loader@), mr_coordinate(slug@, version_id@)) {
            Some(l) => r matches Ok(s) && s@ == l,
            None => r matches Err(e) && e.loader@ == loader@,
        },
{
    let mut coord = String::new();
    push_str(&mut coord, "maven.modrinth:");
    push_str(&mut coord, slug);
    push_str(&mut coord, ":");
    push_str(&mut coord, version_id);
    let lowered = lowercase(loader);
    line_or_error(lowered.as_str(), coord.as_str(), loader)
}

/// The Forge and NeoForge dialects differ for every coordinate while both hold it,
/// and a loader outside the table has none.
pub proof fn lemma_dialects_distinct(coord: Seq<char>)
    ensures
        dialect_line("forge"@, coord) is Some,
        dialect_line("neoforge"@, coord) is Some,
        contains(dialect_line("forge"@, coord)->0, coord),
        contains(dialect_line("neoforge"@, coord)->0, coord),
        dialect_line("forge"@, coord) != dialect_line("neoforge"@, coord),
        dialect_line("bogus"@, coord) is None,
{
    reveal_strlit("forge");
    reveal_strlit("neoforge");
    reveal_strlit("fabric");
    reveal_strlit("quilt");
    reveal_strlit("bogus");
    reveal_strlit("    implementation fg.deobf(\"");
    reveal_strlit("    implementation \"");
    assert("forge"@.len() != "neoforge"@.len());
    assert("bogus"@[0] != "forge"@[0]);
    assert("bogus"@[0] != "quilt"@[0]);
    assert("bogus"@.len() != "fabric"@.len());
    assert("bogus"@.len() != "neoforge"@.len());
    let f = ("    implementation fg.deobf(\""@ + coord + "\")"@);
    let n = ("    implementation \""@ + coord + "\""@);
    assert(f[19] == 'f');
    assert(n[19] == '"');
    let fp = "    implementation fg.deobf(\""@;
    let np = "    implementation \""@;
    assert(f.subrange(fp.len() as int, (fp.len() + coord.len()) as int) =~= coord);
    assert(matches_at(f, fp.len() as int, coord));
    assert(n.subrange(np.len() as int, (np.len() + coord.len()) as int) =~= coord);
    assert(matches_at(n, np.len() as int, coord));
}

/// Script `t` with `line` added to its top-level `dependencies` block, or with a new
/// such block appended when there is none.
pub open spec fn with_dependency(t: Seq<char>, line: Seq<char>) -> Seq<char> {
    match top_level_block(t, "dependencies"@) {
        Some((s, e)) => insert_before_close(t, s, e, line),
        None => t + "\ndependencies {\n"@ + line + "\n}\n"@,
    }
}

fn with_dependency_exec(t: &Vec<char>, line: &str) -> (r: String)
    ensures
        r@ == with_dependency(t@, line@),
{
    let deps = chars_of("dependencies");
    let mut out = String::new();
    match block_range_chars(t, &deps) {
        Some((s, e)) => {
            proof {
                lemma_first_block_bounds(t@, deps@, 0);
            }
            insert_before_close_exec(&mut out, t, s, e, line);
        },
        None => {
            push_range(&mut out, t, 0, t.len());
            push_str(&mut out, "\ndependencies {\n");
            push_str(&mut out, line);
            push_str(&mut out, "\n}\n");
        },
    }
    assert(out@ =~= with_dependency(t@, line@));
    out
}

/// Adds `dep_line` to the script's top-level `dependencies` block (or to a new
/// block at the end).
pub fn insert_into_dependencies_block(build_gradle: &str, dep_line: &str) -> (r: String)
    ensures
        r@ == with_dependency(build_gradle@, dep_line@),
{
    let t = chars_of(build_gradle);
    with_dependency_exec(&t, dep_line)
}

/// End of the run at `i` that holds neither `:` nor a line break.
pub open spec fn seg_end(t: Seq<char>, i: int) -> int
    decreases t.len() - i,
{
    if i < 0 || i >= t.len() || t[i] == ':' || t[i] == '\n' {
        i
    } else {
        seg_end(t, i + 1)
    }
}

/// Start of the run of digits that ends at `c`, looking no further back than `a`.
pub open spec fn digits_start(t: Seq<char>, a: int, c: int) -> int
    decreases c - a,
{
    if c <= a || c > t.len() || !is_digit(t[c - 1]) {
        c
    } else {
        digits_start(t, a, c - 1)
    }
}

/// Characters of a Modrinth version id: ASCII letters, digits, `.` and `-`.
pub open spec fn is_vid(c: char) -> bool {
    ('0' <= c && c <= '9') || ('a' <= c && c <= 'z') || ('A' <= c && c <= 'Z') || c == '.' || c
        == '-'
}

pub open spec fn vid_end(t: Seq<char>, i: int) -> int
    decreases t.len() - i,
{
    if i < 0 || i >= t.len() || !is_vid(t[i]) {
        i
    } else {
        vid_end(t, i + 1)
    }
}

/// End of the line that holds position `i` (its line break, or the length).
pub open spec fn line_end(t: Seq<char>, i: int) -> int {
    find_char_from(t, '\n', i)
}

/// At `q` stands a reference to Curse Maven module `modid`:
/// `curse.maven:`, a run free of `:` that ends in `-<modid>`, `:`, then a digit.
pub open spec fn cf_ref_at(t: Seq<char>, q: int, modid: Seq<char>) -> bool {
    let c = seg_end(t, q + "curse.maven:"@.len());
    &&& matches_at(t, q, "curse.maven:"@)
    &&& c + 1 < t.len()
    &&& t[c] == ':'
    &&& is_digit(t[c + 1])
    &&& q + "curse.maven:"@.len() <= c - modid.len() - 1
    &&& matches_at(t, c - modid.len() - 1, seq!['-'] + modid)
}

/// At `q` stands a reference to Modrinth project `slug`:
/// `maven.modrinth:<slug>:` then a version-id character.
pub open spec fn mr_ref_at(t: Seq<char>, q: int, slug: Seq<char>) -> bool {
    let m = mr_ref_prefix(slug).len();
    matches_at(t, q, mr_ref_prefix(slug)) && q + m < t.len() && is_vid(t[q + m])
}

pub open spec fn mr_ref_prefix(slug: Seq<char>) -> Seq<char> {
    "maven.modrinth:"@ + slug + ":"@
}

/// In a line, at `q`: `curse.maven:`, a run free of `:` that ends in `-` and digits
/// with something before the `-`, `:`, then a digit (the new file id starts there).
pub open spec fn cf_id_at(t: Seq<char>, q: int) -> bool {
    let a = q + "curse.maven:"@.len();
    let c = seg_end(t, a);
    let ds = digits_start(t, a, c);
    &&& matches_at(t, q, "curse.maven:"@)
    &&& c + 1 < t.len()
    &&& t[c] == ':'
    &&& is_digit(t[c + 1])
    &&& ds < c
    &&& ds - 1 > a
    &&& t[ds - 1] == '-'
}

/// In a line, at `q`: `maven.modrinth:`, a non-empty run free of `:`, `:`, then a
/// version-id character (the new version id starts there).
pub open spec fn mr_id_at(t: Seq<char>, q: int) -> bool {
    let a = q + "maven.modrinth:"@.len();
    let c = seg_end(t, a);
    &&& matches_at(t, q, "maven.modrinth:"@)
    &&& c > a
    &&& c + 1 < t.len()
    &&& t[c] == ':'
    &&& is_vid(t[c + 1])
}

pub open spec fn cf_ref_pred(t: Seq<char>, modid: Seq<char>) -> spec_fn(int) -> bool {
    |q: int| cf_ref_at(t, q, modid)
}

pub open spec fn mr_ref_pred(t: Seq<char>, slug: Seq<char>) -> spec_fn(int) -> bool {
    |q: int| mr_ref_at(t, q, slug)
}

pub open spec fn cf_id_pred(t: Seq<char>) -> spec_fn(int) -> bool {
    |q: int| cf_id_at(t, q)
}

pub open spec fn mr_id_pred(t: Seq<char>) -> spec_fn(int) -> bool {
    |q: int| mr_id_at(t, q)
}

/// First position at or after `q` where `pred` holds.
pub open spec fn first_from(t: Seq<char>, pred: spec_fn(int) -> bool, q: int) -> Option<int>
    decreases t.len() - q,
{
    if q < 0 || q >= t.len() {
        None
    } else if pred(q) {
        Some(q)
    } else {
        first_from(t, pred, q + 1)
    }
}

/// The first reference to module `modid` and the file-id digits that follow it.
pub open spec fn cf_found(t: Seq<char>, modid: Seq<char>) -> Option<(int, int, int)> {
    match first_from(t, cf_ref_pred(t, modid), 0) {
        Some(q) => {
            let ds = seg_end(t, q + "curse.maven:"@.len()) + 1;
            Some((q, ds, digits_end(t, ds)))
        },
        None => None,
    }
}

/// The first reference to project `slug` and the version id that follows it.
pub open spec fn mr_found(t: Seq<char>, slug: Seq<char>) -> Option<(int, int, int)> {
    match first_from(t, mr_ref_pred(t, slug), 0) {
        Some(q) => {
            let ds = q + mr_ref_prefix(slug).len();
            Some((q, ds, vid_end(t, ds)))
        },
        None => None,
    }
}

/// The file id that a new Curse Maven declaration line carries.
pub open spec fn cf_new_id(line: Seq<char>) -> Option<Seq<char>> {
    match first_from(line, cf_id_pred(line), 0) {
        Some(q) => {
            let s = seg_end(line, q + "curse.maven:"@.len()) + 1;
            Some(line.subrange(s, digits_end(line, s)))
        },
        None => None,
    }
}

/// The version id that a new Modrinth declaration line carries.
pub open spec fn mr_new_id(line: Seq<char>) -> Option<Seq<char>> {
    match first_from(line, mr_id_pred(line), 0) {
        Some(q) => {
            let s = seg_end(line, q + "maven.modrinth:"@.len()) + 1;
            Some(line.subrange(s, vid_end(line, s)))
        },
        None => None,
    }
}

/// Replaces the id fragment `t[ds..de]` of the reference found at `q` with `nid`;
/// without a new id, replaces the whole line(s) of the reference with `line`;
/// without a reference, adds `line` to the dependencies.
pub open spec fn upserted(
    t: Seq<char>,
    found: Option<(int, int, int)>,
    nid: Option<Seq<char>>,
    line: Seq<char>,
) -> Seq<char> {
    match found {
        Some((q, ds, de)) => match nid {
            Some(n) => t.subrange(0, ds) + n + t.subrange(de, t.len() as int),
            None => t.subrange(0, line_start(t, q)) + line + t.subrange(
                line_end(t, de),
                t.len() as int,
            ),
        },
        None => with_dependency(t, line),
    }
}

pub open spec fn range_of(o: Option<(usize, usize, usize)>) -> Option<(int, int, int)> {
    match o {
        Some((q, ds, de)) => Some((q as int, ds as int, de as int)),
        None => None,
    }
}

pub open spec fn id_of(l: Seq<char>, o: Option<(usize, usize)>) -> Option<Seq<char>> {
    match o {
        Some((s, e)) => Some(l.subrange(s as int, e as int)),
        None => None,
    }
}

fn seg_end_exec(t: &Vec<char>, i: usize) -> (r: usize)
    requires
        i <= t@.len(),
    ensures
        r == seg_end(t@, i as int),
        i <= r <= t@.len(),
        forall|k: int| i <= k < r ==> t@[k] != ':' && t@[k] != '\n',
{
    let mut j = i;
    while j < t.len() && t[j] != ':' && t[j] != '\n'
        invariant
            i <= j <= t@.len(),
            seg_end(t@, j as int) == seg_end(t@, i as int),
            forall|k: int| i <= k < j ==> t@[k] != ':' && t@[k] != '\n',
        decreases t.len() - j,
    {
        j = j + 1;
    }
    j
}

fn is_vid_exec(c: char) -> (r: bool)
    ensures
        r == is_vid(c),
{
    ('0' <= c && c <= '9') || ('a' <= c && c <= 'z') || ('A' <= c && c <= 'Z') || c == '.' || c
        == '-'
}

fn vid_end_exec(t: &Vec<char>, i: usize) -> (r: usize)
    requires
        i <= t@.len(),
    ensures
        r == vid_end(t@, i as int),
        i <= r <= t@.len(),
{
    let mut j = i;
    while j < t.len() && is_vid_exec(t[j])
        invariant
            i <= j <= t@.len(),
            vid_end(t@, j as int) == vid_end(t@, i as int),
        decreases t.len() - j,
    {
        j = j + 1;
    }
    j
}

fn digits_start_exec(t: &Vec<char>, a: usize, c: usize) -> (r: usize)
    requires
        a <= c <= t@.len(),
    ensures
        r == digits_start(t@, a as int, c as int),
        a <= r <= c,
{
    let mut j = c;
    while j > a && '0' <= t[j - 1] && t[j - 1] <= '9'
        invariant
            a <= j <= c <= t@.len(),
            digits_start(t@, a as int, j as int) == digits_start(t@, a as int, c as int),
        decreases j,
    {
        j = j - 1;
    }
    j
}

fn cf_ref_exec(
    t: &Vec<char>,
    q: usize,
    modid: &Vec<char>,
    prefix: &Vec<char>,
    dash_modid: &Vec<char>,
) -> (r: Option<usize>)
    requires
        q < t@.len(),
        prefix@ == "curse.maven:"@,
        dash_modid@ == seq!['-'] + modid@,
    ensures
        r is Some == cf_ref_at(t@, q as int, modid@),
        r matches Some(ds) ==> ds == seg_end(t@, q + "curse.maven:"@.len()) + 1 && q < ds
            < t@.len(),
{
    let n = t.len();
    if !matches_at_exec(t, q, prefix) {
        return None;
    }
    assert(q + prefix@.len() <= n);
    let a = q + prefix.len();
    let c = seg_end_exec(t, a);
    if !(c < n && n - c > 1 && t[c] == ':' && '0' <= t[c + 1] && t[c + 1] <= '9') {
        return None;
    }
    if c - a <= modid.len() {
        return None;
    }
    if matches_at_exec(t, c - modid.len() - 1, dash_modid) {
        Some(c + 1)
    } else {
        None
    }
}

fn mr_ref_exec(t: &Vec<char>, q: usize, slug: &Vec<char>, prefix: &Vec<char>) -> (r: Option<usize>)
    requires
        q < t@.len(),
        prefix@ == mr_ref_prefix(slug@),
    ensures
        r is Some == mr_ref_at(t@, q as int, slug@),
        r matches Some(ds) ==> ds == q + mr_ref_prefix(slug@).len() && q <= ds < t@.len(),
{
    let n = t.len();
    if !matches_at_exec(t, q, prefix) {
        return None;
    }
    assert(q + prefix@.len() <= n);
    let m = q + prefix.len();
    if m < n && is_vid_exec(t[m]) {
        Some(m)
    } else {
        None
    }
}

fn cf_id_exec(t: &Vec<char>, q: usize, prefix: &Vec<char>) -> (r: Option<usize>)
    requires
        q < t@.len(),
        prefix@ == "curse.maven:"@,
    ensures
        r is Some == cf_id_at(t@, q as int),
        r matches Some(s) ==> s == seg_end(t@, q + "curse.maven:"@.len()) + 1 && s < t@.len(),
{
    let n = t.len();
    if !matches_at_exec(t, q, prefix) {
        return None;
    }
    assert(q + prefix@.len() <= n);
    let a = q + prefix.len();
    let c = seg_end_exec(t, a);
    if !(c < n && n - c > 1 && t[c] == ':' && '0' <= t[c + 1] && t[c + 1] <= '9') {
        return None;
    }
    let ds = digits_start_exec(t, a, c);
    if ds < c && ds > a && ds - a > 1 && t[ds - 1] == '-' {
        Some(c + 1)
    } else {
        None
    }
}

fn mr_id_exec(t: &Vec<char>, q: usize, prefix: &Vec<char>) -> (r: Option<usize>)
    requires
        q < t@.len(),
        prefix@ == "maven.modrinth:"@,
    ensures
        r is Some == mr_id_at(t@, q as int),
        r matches Some(s) ==> s == seg_end(t@, q + "maven.modrinth:"@.len()) + 1 && s < t@.len(),
{
    let n = t.len();
    if !matches_at_exec(t, q, prefix) {
        return None;
    }
    assert(q + prefix@.len() <= n);
    let a = q + prefix.len();
    let c = seg_end_exec(t, a);
    if c > a && c < n && n - c > 1 && t[c] == ':' && is_vid_exec(t[c + 1]) {
        Some(c + 1)
    } else {
        None
    }
}

fn find_cf_ref(t: &Vec<char>, modid: &Vec<char>) -> (r: Option<(usize, usize, usize)>)
    ensures
        range_of(r) == cf_found(t@, modid@),
        r matches Some((q, ds, de)) ==> q <= ds <= de <= t@.len(),
{
    let prefix = chars_of("curse.maven:");
    let mut dash_modid: Vec<char> = Vec::new();
    dash_modid.push('-');
    let mut k: usize = 0;
    while k < modid.len()
        invariant
            k <= modid@.len(),
            dash_modid@ == seq!['-'] + modid@.subrange(0, k as int),
        decreases modid.len() - k,
    {
        dash_modid.push(modid[k]);
        k = k + 1;
        assert(dash_modid@ =~= seq!['-'] + modid@.subrange(0, k as int));
    }
    assert(modid@.subrange(0, modid@.len() as int) =~= modid@);
    let ghost pred = cf_ref_pred(t@, modid@);
    let mut q: usize = 0;
    while q < t.len()
        invariant
            q <= t@.len(),
            pred == cf_ref_pred(t@, modid@),
            prefix@ == "curse.maven:"@,
            dash_modid@ == seq!['-'] + modid@,
            first_from(t@, pred, q as int) == first_from(t@, pred, 0),
        decreases t.len() - q,
    {
        if let Some(ds) = cf_ref_exec(t, q, modid, &prefix, &dash_modid) {
            let de = skip_digits(t, ds);
            return Some((q, ds, de));
        }
        q = q + 1;
    }
    None
}

fn find_mr_ref(t: &Vec<char>, slug: &Vec<char>) -> (r: Option<(usize, usize, usize)>)
    ensures
        range_of(r) == mr_found(t@, slug@),
        r matches Some((q, ds, de)) ==> q <= ds <= de <= t@.len(),
{
    let mut prefix = chars_of("maven.modrinth:");
    let mut k: usize = 0;
    let ghost p0 = prefix@;
    while k < slug.len()
        invariant
            k <= slug@.len(),
            p0 == "maven.modrinth:"@,
            prefix@ == p0 + slug@.subrange(0, k as int),
        decreases slug.len() - k,
    {
        prefix.push(slug[k]);
        k = k + 1;
        assert(prefix@ =~= p0 + slug@.subrange(0, k as int));
    }
    prefix.push(':');
    proof {
        reveal_strlit(":");
        assert(slug@.subrange(0, slug@.len() as int) =~= slug@);
        assert(prefix@ =~= mr_ref_prefix(slug@));
    }
    let ghost pred = mr_ref_pred(t@, slug@);
    let mut q: usize = 0;
    while q < t.len()
        invariant
            q <= t@.len(),
            pred == mr_ref_pred(t@, slug@),
            prefix@ == mr_ref_prefix(slug@),
            first_from(t@, pred, q as int) == first_from(t@, pred, 0),
        decreases t.len() - q,
    {
        if let Some(ds) = mr_ref_exec(t, q, slug, &prefix) {
            let de = vid_end_exec(t, ds);
            return Some((q, ds, de));
        }
        q = q + 1;
    }
    None
}

fn find_cf_new_id(l: &Vec<char>) -> (r: Option<(usize, usize)>)
    ensures
        id_of(l@, r) == cf_new_id(l@),
        r matches Some((s, e)) ==> s <= e <= l@.len(),
{
    let prefix = chars_of("curse.maven:");
    let ghost pred = cf_id_pred(l@);
    let mut q: usize = 0;
    while q < l.len()
        invariant
            q <= l@.len(),
            pred == cf_id_pred(l@),
            prefix@ == "curse.maven:"@,
            first_from(l@, pred, q as int) == first_from(l@, pred, 0),
        decreases l.len() - q,
    {
        if let Some(s) = cf_id_exec(l, q, &prefix) {
            let e = skip_digits(l, s);
            return Some((s, e));
        }
        q = q + 1;
    }
    None
}

fn find_mr_new_id(l: &Vec<char>) -> (r: Option<(usize, usize)>)
    ensures
        id_of(l@, r) == mr_new_id(l@),
        r matches Some((s, e)) ==> s <= e <= l@.len(),
{
    let prefix = chars_of("maven.modrinth:");
    let ghost pred = mr_id_pred(l@);
    let mut q: usize = 0;
    while q < l.len()
        invariant
            q <= l@.len(),
            pred == mr_id_pred(l@),
            prefix@ == "maven.modrinth:"@,
            first_from(l@, pred, q as int) == first_from(l@, pred, 0),
        decreases l.len() - q,
    {
        if let Some(s) = mr_id_exec(l, q, &prefix) {
            let e = vid_end_exec(l, s);
            return Some((s, e));
        }
        q = q + 1;
    }
    None
}

fn upsert_exec(
    t: &Vec<char>,
    found: Option<(usize, usize, usize)>,
    l: &Vec<char>,
    nid: Option<(usize, usize)>,
    line: &str,
) -> (r: String)
    requires
        l@ == line@,
        found matches Some((q, ds, de)) ==> q <= ds <= de <= t@.len(),
        nid matches Some((s, e)) ==> s <= e <= l@.len(),
    ensures
        r@ == upserted(t@, range_of(found), id_of(l@, nid), line@),
{
    match found {
        Some((q, ds, de)) => {
            let mut out = String::new();
            match nid {
                Some((s, e)) => {
                    push_range(&mut out, t, 0, ds);
                    push_range(&mut out, l, s, e);
                    push_range(&mut out, t, de, t.len());
                },
                None => {
                    let ls = line_start_exec(t, q);
                    let le = find_char(t, '\n', de);
                    push_range(&mut out, t, 0, ls);
                    push_str(&mut out, line);
                    push_range(&mut out, t, le, t.len());
                },
            }
            assert(out@ =~= upserted(t@, range_of(found), id_of(l@, nid), line@));
            out
        },
        None => with_dependency_exec(t, line),
    }
}

/// Points the script's declaration of Curse Maven module `modid` at the file id
/// carried by `dep_line`, or adds `dep_line` when the module is not declared.
///
/// The first reference `curse.maven:<…>-<modid>:<digits>` has its digits replaced;
/// when `dep_line` carries no file id, the whole line of the reference is replaced.
pub fn update_or_insert_dependency(build_gradle: &str, modid: &str, dep_line: &str) -> (r: String)
    ensures
        r@ == upserted(
            build_gradle@,
            cf_found(build_gradle@, modid@),
            cf_new_id(dep_line@),
            dep_line@,
        ),
{
    let t = chars_of(build_gradle);
    let m = chars_of(modid);
    let l = chars_of(dep_line);
    let found = find_cf_ref(&t, &m);
    let nid = find_cf_new_id(&l);
    upsert_exec(&t, found, &l, nid, dep_line)
}

/// Points the script's declaration of Modrinth project `project_slug` at the version
/// id carried by `dep_line`, or adds `dep_line` when the project is not declared.
///
/// The first reference `maven.modrinth:<slug>:<version id>` has its version id
/// replaced; when `dep_line` carries none, the whole line of the reference is replaced.
pub fn update_or_insert_dependency_mr(build_gradle: &str, project_slug: &str, dep_line: &str) -> (r: String)
    ensures
        r@ == upserted(
            build_gradle@,
            mr_found(build_gradle@, project_slug@),
            mr_new_id(dep_line@),
            dep_line@,
        ),
{
    let t = chars_of(build_gradle);
    let s = chars_of(project_slug);
    let l = chars_of(dep_line);
    let found = find_mr_ref(&t, &s);
    let nid = find_mr_new_id(&l);
    upsert_exec(&t, found, &l, nid, dep_line)
}

} // verus!
