use mod_dep_updater::cache::{cache_entry_fresh, safe_key_segment};
use mod_dep_updater::cf::{
    cf_cache_name, cf_loader_code_from_lowered, cf_mod_loader_code_from_name,
    cf_mod_loader_to_tag, extract_version, get_latest_cf_file, more_pages_wanted,
    select_cf_entry, strip_jar_given_lowered, strip_jar_suffix, CfLatestFileIndex,
};
use mod_dep_updater::mr::{
    get_latest_mr_version, mr_cache_name, mr_version_matches, select_mr_version, text_less,
    MrVersion,
};

fn cf_entry(gv: &str, file_id: u32, filename: &str, release_type: u8, loader: Option<u8>) -> CfLatestFileIndex {
    CfLatestFileIndex {
        game_version: gv.to_string(),
        file_id,
        filename: filename.to_string(),
        release_type,
        mod_loader: loader,
    }
}

fn mr_version(id: &str, number: &str, kind: &str, gv: &[&str], loaders: &[&str], date: &str) -> MrVersion {
    MrVersion {
        id: id.to_string(),
        version_number: number.to_string(),
        version_type: kind.to_string(),
        game_versions: gv.iter().map(|s| s.to_string()).collect(),
        loaders: loaders.iter().map(|s| s.to_string()).collect(),
        date_published: date.to_string(),
    }
}

#[test]
fn extract_version_first_dotted_token() {
    assert_eq!(extract_version("MyMod-3.2.1 for 1.20.jar"), Some("3.2.1".to_string()));
    assert_eq!(extract_version("v10.4"), Some("10.4".to_string()));
}

#[test]
fn extract_version_first_token_not_later_one() {
    assert_eq!(extract_version("MyMod-3.2.1-forge-1.20.jar"), Some("3.2.1".to_string()));
    assert_eq!(extract_version("build42-1.20.jar"), Some("1.20".to_string()));
}

#[test]
fn extract_version_keeps_plain_suffix() {
    assert_eq!(extract_version("jei-1.0+build.5 x"), Some("1.0+build.5".to_string()));
    assert_eq!(extract_version("mod-2.1-rc1 for x"), Some("2.1-rc1".to_string()));
}

#[test]
fn extract_version_skips_undotted_tokens() {
    assert_eq!(extract_version("MyMod-build42.jar"), None);
    assert_eq!(extract_version("b42 then 7.1"), Some("7.1".to_string()));
    assert_eq!(extract_version("42-beta.1"), Some("42-beta.1".to_string()));
    assert_eq!(extract_version(""), None);
}

#[test]
fn strip_jar() {
    assert_eq!(strip_jar_suffix("Mod-1.0.JAR"), "Mod-1.0");
    assert_eq!(strip_jar_suffix("Mod-1.0.zip"), "Mod-1.0.zip");
    assert_eq!(strip_jar_given_lowered("ab", ".jar"), "");
}

#[test]
fn cf_loader_codes() {
    assert_eq!(cf_mod_loader_to_tag(1), "Forge");
    assert_eq!(cf_mod_loader_to_tag(6), "NeoForge");
    assert_eq!(cf_mod_loader_to_tag(3), "LiteLoader");
    assert_eq!(cf_mod_loader_to_tag(7), "Rift");
    assert_eq!(cf_mod_loader_to_tag(9), "Unknown");
    assert_eq!(cf_mod_loader_code_from_name("Fabric"), Some(4));
    assert_eq!(cf_mod_loader_code_from_name("NEOFORGE"), Some(6));
    assert_eq!(cf_mod_loader_code_from_name("rift"), None);
    assert_eq!(cf_loader_code_from_lowered("Quilt"), None);
    assert_eq!(cf_loader_code_from_lowered("quilt"), Some(5));
}

#[test]
fn cache_names() {
    assert_eq!(cf_cache_name(123, "1.20.1", 4), "cf-files-123-1.20.1-4.bin");
    assert_eq!(cf_cache_name(0, "", 0), "cf-files-0-_-0.bin");
    assert_eq!(mr_cache_name("so dium/x"), "mr-versions-so_dium_x.bin");
    assert_eq!(safe_key_segment("1.20 pre/1é"), "1.20_pre_1_");
    assert_eq!(safe_key_segment(""), "_");
}

#[test]
fn cache_freshness() {
    assert!(cache_entry_fresh(1000, 400, 600));
    assert!(!cache_entry_fresh(1001, 400, 600));
    assert!(cache_entry_fresh(5, 10, 0));
}

#[test]
fn paging() {
    assert!(more_pages_wanted(50, 50, 100, 500));
    assert!(!more_pages_wanted(49, 50, 100, 500));
    assert!(!more_pages_wanted(50, 50, 500, 500));
}

#[test]
fn cf_resolver_prefers_release() {
    let indexes = vec![
        cf_entry("1.20", 10, "a-1.1.jar", 3, Some(4)),
        cf_entry("1.20", 5, "a-1.0.jar", 1, Some(4)),
    ];
    let (id, version, level) = get_latest_cf_file(&indexes, "1.20", "Fabric");
    assert_eq!(id, Some(5));
    assert_eq!(version, Some("1.0".to_string()));
    assert_eq!(level, Some(1));
}

#[test]
fn cf_resolver_filters_and_breaks_ties() {
    let indexes = vec![
        cf_entry("1.19", 50, "a-9.0.jar", 1, Some(1)),
        cf_entry("1.20", 20, "a-2.0.jar", 2, Some(1)),
        cf_entry("1.20", 30, "build30.jar", 2, Some(1)),
        cf_entry("1.20", 40, "a-4.0.jar", 2, Some(4)),
        cf_entry("1.20", 60, "a-6.0.jar", 2, None),
    ];
    assert_eq!(select_cf_entry(&indexes, "1.20", "Forge"), Some(2));
    let (id, version, level) = get_latest_cf_file(&indexes, "1.20", "forge");
    assert_eq!(id, Some(30));
    assert_eq!(version, Some("30".to_string()));
    assert_eq!(level, Some(2));
    assert_eq!(select_cf_entry(&indexes, "1.20", "Unknown"), Some(4));
    assert_eq!(get_latest_cf_file(&indexes, "1.21", "forge"), (None, None, None));
}

#[test]
fn mr_resolver_prefers_release() {
    let versions = vec![
        mr_version("a", "2.0", "alpha", &["1.20"], &["fabric"], "2024-05-01"),
        mr_version("r", "1.0", "release", &["1.20"], &["fabric"], "2024-01-01"),
    ];
    let (id, number, kind) = get_latest_mr_version(&versions, "1.20", "Fabric");
    assert_eq!(id, Some("r".to_string()));
    assert_eq!(number, Some("1.0".to_string()));
    assert_eq!(kind, Some("release".to_string()));
}

#[test]
fn mr_resolver_picks_latest_date() {
    let versions = vec![
        mr_version("b1", "1.1", "beta", &["1.20"], &["Forge"], "2024-02-01"),
        mr_version("b2", "1.2", "beta", &["1.19", "1.20"], &["forge"], "2024-03-01"),
        mr_version("b3", "1.3", "beta", &["1.20"], &["fabric"], "2024-04-01"),
        mr_version("b4", "1.2b", "beta", &["1.20"], &["forge"], "2024-03-01"),
        mr_version("x", "9", "nightly", &["1.20"], &["forge"], "2025-01-01"),
    ];
    let (id, _, kind) = get_latest_mr_version(&versions, "1.20", "forge");
    assert_eq!(id, Some("b2".to_string()));
    assert_eq!(kind, Some("beta".to_string()));
    assert_eq!(select_mr_version(&versions, "1.20", &vec![true, false, true, true, true]), Some(2));
    assert_eq!(select_mr_version(&versions, "1.20", &vec![]), None);
    assert_eq!(get_latest_mr_version(&versions, "1.18", "forge"), (None, None, None));
}

#[test]
fn mr_matching() {
    let v = mr_version("a", "1", "release", &["1.20"], &["Fabric"], "d");
    assert!(mr_version_matches(&v, "1.20", "FABRIC"));
    assert!(!mr_version_matches(&v, "1.20", "forge"));
    assert!(!mr_version_matches(&v, "1.19", "fabric"));
}

#[test]
fn text_order() {
    assert!(text_less("2024-01-01", "2024-02-01"));
    assert!(text_less("abc", "abcd"));
    assert!(!text_less("abc", "abc"));
    assert!(!text_less("b", "abc"));
}
