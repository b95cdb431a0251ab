use mod_dep_updater::deps::{
    dependency_line, generate_dep, generate_mr_dep, insert_into_dependencies_block,
    update_or_insert_dependency, update_or_insert_dependency_mr,
};
use mod_dep_updater::gradle::{
    ensure_curse_maven_repo, ensure_modrinth_maven_repo, find_top_level_block_range,
};
use mod_dep_updater::update::{apply_cf_file, apply_mr_version, cf_level_warning, mr_level_warning};

const CURSE_STANZA: &str = "    maven {\n        name = \"Curse Maven\"\n        url = \"https://cursemaven.com\"\n        content {\n            includeGroup \"curse.maven\"\n        }\n    }";
const MODRINTH_STANZA: &str =
    "    maven {\n        name = \"Modrinth\"\n        url = \"https://api.modrinth.com/maven\"\n    }";

#[test]
fn block_locator_spans_nested_block() {
    let text = "foo { bar { } baz }";
    let (s, e) = find_top_level_block_range(text, "foo").unwrap();
    assert_eq!(&text[s..e], " bar { } baz ");
}

#[test]
fn block_locator_skips_nested_header() {
    let text = "outer {\nfoo {\n  a\n}\n}\nfoo {\n  b\n}\n";
    let (s, e) = find_top_level_block_range(text, "foo").unwrap();
    assert_eq!(&text[s..e], "\n  b\n");
}

#[test]
fn block_locator_requires_line_start() {
    assert_eq!(find_top_level_block_range("x foo { }", "foo"), None);
    assert_eq!(find_top_level_block_range("", "foo"), None);
    assert_eq!(find_top_level_block_range("  \n  foo\n {}", "foo"), Some((11, 11)));
}

#[test]
fn block_locator_unclosed_block_runs_to_end() {
    let text = "foo {\n  abc";
    assert_eq!(find_top_level_block_range(text, "foo"), Some((5, text.len())));
}

#[test]
fn curse_repo_added_to_existing_block() {
    let text = "repositories {\n    mavenCentral()\n}\n";
    let out = ensure_curse_maven_repo(text);
    let expected = format!("repositories {{\n    mavenCentral()\n{}\n}}\n", CURSE_STANZA);
    assert_eq!(out, expected);
}

#[test]
fn curse_repo_separated_from_block_content() {
    let text = "repositories { mavenCentral() }";
    let out = ensure_curse_maven_repo(text);
    assert_eq!(out, format!("repositories {{ mavenCentral() \n{}\n}}", CURSE_STANZA));
}

#[test]
fn curse_repo_after_plugins_block() {
    let text = "  plugins {\n    id 'java'\n}\napply x\n";
    let out = ensure_curse_maven_repo(text);
    let expected = format!(
        "  plugins {{\n    id 'java'\n}}\n\nrepositories {{\n{}\n}}\n\n\napply x\n",
        CURSE_STANZA
    );
    assert_eq!(out, expected);
}

#[test]
fn curse_repo_prepended_without_plugins() {
    let out = ensure_curse_maven_repo("apply x\n");
    assert_eq!(out, format!("repositories {{\n{}\n}}\n\napply x\n", CURSE_STANZA));
}

#[test]
fn curse_repo_kept_when_marker_present() {
    let text = "dependencies { implementation \"curse.maven:jei-1:2\" }";
    assert_eq!(ensure_curse_maven_repo(text), text);
}

#[test]
fn ensure_repo_is_idempotent() {
    for text in ["", "plugins {\n}\n", "repositories {\n}\n", "x\n"] {
        let once = ensure_curse_maven_repo(text);
        assert_eq!(ensure_curse_maven_repo(&once), once);
        let once = ensure_modrinth_maven_repo(text);
        assert_eq!(ensure_modrinth_maven_repo(&once), once);
    }
}

#[test]
fn modrinth_repo_prepended() {
    let out = ensure_modrinth_maven_repo("");
    assert_eq!(out, format!("repositories {{\n{}\n}}\n\n", MODRINTH_STANZA));
}

#[test]
fn repeated_insertion_leaves_one_repositories_block() {
    let text = "plugins {\n    id 'java'\n}\n";
    let twice = ensure_curse_maven_repo(&ensure_curse_maven_repo(text));
    assert_eq!(twice.matches("repositories").count(), 1);
    let twice = ensure_modrinth_maven_repo(&ensure_modrinth_maven_repo(text));
    assert_eq!(twice.matches("repositories").count(), 1);
}

#[test]
fn dialects_by_loader() {
    let forge = generate_dep("forge", "jei", "238222", 4712345).ok().unwrap();
    assert_eq!(forge, "    implementation fg.deobf(\"curse.maven:jei-238222:4712345\")");
    let neo = generate_dep("neoforge", "jei", "238222", 4712345).ok().unwrap();
    assert_eq!(neo, "    implementation \"curse.maven:jei-238222:4712345\"");
    assert_ne!(forge, neo);
    let fabric = generate_mr_dep("Fabric", "sodium", "abc123").ok().unwrap();
    assert_eq!(fabric, "    modImplementation \"maven.modrinth:sodium:abc123\"");
    let quilt = generate_mr_dep("QUILT", "sodium", "abc123").ok().unwrap();
    assert_eq!(quilt, fabric);
}

#[test]
fn unknown_loader_is_an_error() {
    let err = generate_dep("bogus", "jei", "1", 2).err().unwrap();
    assert_eq!(err.loader, "bogus");
    assert_eq!(err.message(), "Unknown loader: bogus");
    let err = generate_mr_dep("Rift", "x", "y").err().unwrap();
    assert_eq!(err.loader, "Rift");
}

#[test]
fn dependency_line_from_lowered_name() {
    assert_eq!(dependency_line("forge", "c:d:e").unwrap(), "    implementation fg.deobf(\"c:d:e\")");
    assert_eq!(dependency_line("FORGE", "c:d:e"), None);
}

#[test]
fn upsert_replaces_file_id_in_place() {
    let text = "dependencies {\n    implementation fg.deobf(\"curse.maven:jei-238222:1000\") // keep\n}\n";
    let line = "    implementation fg.deobf(\"curse.maven:jei-238222:2000\")";
    let out = update_or_insert_dependency(text, "238222", line);
    assert_eq!(
        out,
        "dependencies {\n    implementation fg.deobf(\"curse.maven:jei-238222:2000\") // keep\n}\n"
    );
    assert_eq!(update_or_insert_dependency(&out, "238222", line), out);
}

#[test]
fn upsert_replaces_whole_line_without_new_id() {
    let text = "a\n  x curse.maven:jei-238222:1000 y\nb\n";
    let out = update_or_insert_dependency(text, "238222", "NEW");
    assert_eq!(out, "a\nNEW\nb\n");
}

#[test]
fn upsert_ignores_other_modules() {
    let text = "dependencies {\n    modImplementation \"curse.maven:x-1238222:5\"\n}\n";
    let line = "    modImplementation \"curse.maven:jei-238222:7\"";
    let out = update_or_insert_dependency(text, "238222", line);
    assert_eq!(
        out,
        "dependencies {\n    modImplementation \"curse.maven:x-1238222:5\"\n    modImplementation \"curse.maven:jei-238222:7\"\n}\n"
    );
}

#[test]
fn upsert_creates_dependencies_block() {
    let line = "    implementation \"curse.maven:jei-1:2\"";
    let out = update_or_insert_dependency("plugins {}\n", "1", line);
    assert_eq!(out, format!("plugins {{}}\n\ndependencies {{\n{}\n}}\n", line));
    assert_eq!(update_or_insert_dependency(&out, "1", line), out);
}

#[test]
fn upsert_modrinth_version_in_place() {
    let text = "dependencies {\n    modImplementation \"maven.modrinth:sodium:abc123\"\n}\n";
    let line = "    modImplementation \"maven.modrinth:sodium:def456\"";
    let out = update_or_insert_dependency_mr(text, "sodium", line);
    assert_eq!(out, "dependencies {\n    modImplementation \"maven.modrinth:sodium:def456\"\n}\n");
    assert_eq!(update_or_insert_dependency_mr(&out, "sodium", line), out);
}

#[test]
fn upsert_modrinth_inserts_when_absent() {
    let text = "dependencies {\n}\n";
    let line = "    modImplementation \"maven.modrinth:sodium:def456\"";
    let out = update_or_insert_dependency_mr(text, "sodium", line);
    assert_eq!(out, format!("dependencies {{\n{}\n}}\n", line));
}

#[test]
fn insert_into_block_adds_line_break() {
    let out = insert_into_dependencies_block("dependencies { a }", "b");
    assert_eq!(out, "dependencies { a \nb\n}");
}

#[test]
fn apply_cf_file_patches_script() {
    let (text, line) = apply_cf_file("", "Forge", "jei", 238222, 99).ok().unwrap();
    assert_eq!(line, "    implementation fg.deobf(\"curse.maven:jei-238222:99\")");
    let expected = format!(
        "repositories {{\n{}\n}}\n\n\ndependencies {{\n{}\n}}\n",
        CURSE_STANZA, line
    );
    assert_eq!(text, expected);
    let (again, _) = apply_cf_file(&text, "Forge", "jei", 238222, 100).ok().unwrap();
    assert_eq!(again, expected.replace(":99\"", ":100\""));
    assert!(apply_cf_file("", "bogus", "jei", 1, 2).is_err());
}

#[test]
fn apply_mr_version_patches_script() {
    let (text, line) = apply_mr_version("", "fabric", "sodium", "v1").ok().unwrap();
    assert_eq!(line, "    modImplementation \"maven.modrinth:sodium:v1\"");
    assert!(text.contains(&line));
    assert!(text.contains("https://api.modrinth.com/maven"));
    assert!(apply_mr_version("", "liteloader", "sodium", "v1").is_err());
}

#[test]
fn level_warnings() {
    assert_eq!(cf_level_warning(Some(2)), "\u{26a0} Beta Build used\n");
    assert_eq!(cf_level_warning(Some(3)), "\u{26a0} Alpha Build used\n");
    assert_eq!(cf_level_warning(Some(1)), "");
    assert_eq!(cf_level_warning(None), "");
    assert_eq!(mr_level_warning(Some("beta")), "\u{26a0} Beta Build used\n");
    assert_eq!(mr_level_warning(Some("release")), "");
}

#[test]
fn block_locator_gives_byte_offsets() {
    let text = "\u{e9}t\u{e9} {\n}\nfoo { \u{fc}x }";
    let (s, e) = find_top_level_block_range(text, "foo").unwrap();
    assert_eq!(&text[s..e], " \u{fc}x ");
}

#[test]
fn repository_header_and_url_once_after_two_insertions() {
    for text in ["", "plugins {\n    id 'java'\n}\n", "apply plugin: 'java'\n"] {
        let twice = ensure_curse_maven_repo(&ensure_curse_maven_repo(text));
        assert_eq!(twice.matches("repositories").count(), 1);
        assert_eq!(twice.matches("https://cursemaven.com").count(), 1);
        let twice = ensure_modrinth_maven_repo(&ensure_modrinth_maven_repo(text));
        assert_eq!(twice.matches("repositories").count(), 1);
        assert_eq!(twice.matches("https://api.modrinth.com/maven").count(), 1);
    }
}

#[test]
fn generated_lines_upsert_idempotently() {
    let script = "plugins {}\ndependencies {\n    implementation \"curse.maven:x-1:2\"\n}\n";
    for loader in ["forge", "Fabric", "neoforge"] {
        let line = generate_dep(loader, "jei", "238222", 4712345).ok().unwrap();
        let once = update_or_insert_dependency(script, "238222", &line);
        assert_eq!(update_or_insert_dependency(&once, "238222", &line), once);
        let line = generate_mr_dep(loader, "sodium", "mc1.20-0.5.3").ok().unwrap();
        let once = update_or_insert_dependency_mr(script, "sodium", &line);
        assert_eq!(update_or_insert_dependency_mr(&once, "sodium", &line), once);
    }
}
