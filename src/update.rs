//! Applying a chosen release to a build script: declare the registry's repository,
//! compose the dependency line, and upsert it.
use vstd::prelude::*;
use crate::deps::{
    cf_coordinate, cf_found, cf_new_id, dialect_line, generate_dep, generate_mr_dep,
    mr_coordinate, mr_found, mr_new_id, update_or_insert_dependency,
    update_or_insert_dependency_mr, upserted, UnknownLoaderError,
};
use crate::gradle::{
    ensure_curse_maven_repo, ensure_modrinth_maven_repo, ensured_curse, ensured_modrinth,
};
use crate::text::{decimal, lower_of, push_decimal};

verus! {

/// Script `t` after declaring Curse Maven and upserting `line` for module `modid`.
pub open spec fn cf_patched(t: Seq<char>, modid: Seq<char>, line: Seq<char>) -> Seq<char> {
    let e = ensured_curse(t);
    upserted(e, cf_found(e, modid), cf_new_id(line), line)
}

/// Script `t` after declaring Modrinth Maven and upserting `line` for project `slug`.
pub open spec fn mr_patched(t: Seq<char>, slug: Seq<char>, line: Seq<char>) -> Seq<char> {
    let e = ensured_modrinth(t);
    upserted(e, mr_found(e, slug), mr_new_id(line), line)
}

/// Points the script at CurseForge file `file_id` of project `slug`/`project_id`:
/// returns the new script and the dependency line, or the error for a loader
/// without a dialect (the script is then left alone).
pub fn apply_cf_file(
    build_gradle: &str,
    loader: &str,
    slug: &str,
    project_id: u32,
    file_id: u32,
) -> (r: Result<(String, String), UnknownLoaderError>)
    ensures
        ({
            let modid = decimal(project_id as nat);
            match dialect_line(lower_of(loader@), cf_coordinate(slug@, modid, file_id as nat)) {
                Some(l) => r matches Ok((t, d)) && d@ == l && t@ == cf_patched(build_gradle@, modid, l),
                None => r matches Err(e) && e.loader@ == loader@,
            }
        }),
{
    let ensured = ensure_curse_maven_repo(build_gradle);
    let mut modid = String::new();
    push_decimal(&mut modid, project_id as u64);
    let line = generate_dep(loader, slug, modid.as_str(), file_id)?;
    let patched = update_or_insert_dependency(ensured.as_str(), modid.as_str(), line.as_str());
    Ok((patched, line))
}

/// Points the script at Modrinth version `version_id` of project `slug`: returns
/// the new script and the dependency line, or the error for a loader without a
/// dialect (the script is then left alone).
pub fn apply_mr_version(build_gradle: &str, loader: &str, slug: &str, version_id: &str) -> (r: Result<
    (String, String),
    UnknownLoaderError,
>)
    ensures
        match dialect_line(lower_of(loader@), mr_coordinate(slug@, version_id@)) {
            Some(l) => r matches Ok((t, d)) && d@ == l && t@ == mr_patched(build_gradle@, slug@, l),
            None => r matches Err(e) && e.loader@ == loader@,
        },
{
    let ensured = ensure_modrinth_maven_repo(build_gradle);
    let line = generate_mr_dep(loader, slug, version_id)?;
    let patched = update_or_insert_dependency_mr(ensured.as_str(), slug, line.as_str());
    Ok((patched, line))
}

/// Warning shown when a CurseForge release level other than release was used.
pub fn cf_level_warning(level: Option<u8>) -> (r: &'static str)
    ensures
        r@ == (if level == Some(2u8) {
            "\u{26a0} Beta Build used\n"@
        } else if level == Some(3u8) {
            "\u{26a0} Alpha Build used\n"@
        } else {
            ""@
        }),
{
    match level {
        Some(2) => "\u{26a0} Beta Build used\n",
        Some(3) => "\u{26a0} Alpha Build used\n",
        _ => "",
    }
}

/// Warning shown when a Modrinth release level other than release was used.
pub fn mr_level_warning(level: Option<&str>) -> (r: &'static str)
    ensures
        r@ == (match level {
            Some(l) => if l@ == "beta"@ {
                "\u{26a0} Beta Build used\n"@
            } else if l@ == "alpha"@ {
                "\u{26a0} Alpha Build used\n"@
            } else {
                ""@
            },
            None => ""@,
        }),
{
    match level {
        Some(l) => if crate::text::same_text(l, "beta") {
            "\u{26a0} Beta Build used\n"
        } else if crate::text::same_text(l, "alpha") {
            "\u{26a0} Alpha Build used\n"
        } else {
            ""
        },
        None => "",
    }
}

} // verus!
