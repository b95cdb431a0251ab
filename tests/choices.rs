use mod_dep_updater::cf::{CfFileItem, CfLatestFileIndex};
use mod_dep_updater::choices::{cf_file_choices, cf_index_choices, mr_version_choices, VersionChoice};
use mod_dep_updater::mr::MrVersion;

fn file(id: u32, name: &str, date: &str, release_type: u8, gv: &[&str]) -> CfFileItem {
    CfFileItem {
        id,
        display_name: None,
        file_name: name.to_string(),
        file_date: date.to_string(),
        release_type,
        game_versions: gv.iter().map(|s| s.to_string()).collect(),
    }
}

fn entry(gv: &str, file_id: u32, filename: &str, release_type: u8, loader: Option<u8>) -> CfLatestFileIndex {
    CfLatestFileIndex {
        game_version: gv.to_string(),
        file_id,
        filename: filename.to_string(),
        release_type,
        mod_loader: loader,
    }
}

fn version(id: &str, number: &str, kind: &str, gv: &[&str], loaders: &[&str], date: &str) -> MrVersion {
    MrVersion {
        id: id.to_string(),
        version_number: number.to_string(),
        version_type: kind.to_string(),
        game_versions: gv.iter().map(|s| s.to_string()).collect(),
        loaders: loaders.iter().map(|s| s.to_string()).collect(),
        date_published: date.to_string(),
    }
}

fn triples(choices: &[VersionChoice]) -> Vec<(String, String, String)> {
    choices
        .iter()
        .map(|c| (c.id.clone(), c.label.clone(), c.kind.clone()))
        .collect()
}

fn t(id: &str, label: &str, kind: &str) -> (String, String, String) {
    (id.to_string(), label.to_string(), kind.to_string())
}

#[test]
fn file_choices_latest_first() {
    let files = vec![
        file(1, "a-1.0.jar", "2024-01-01", 1, &["1.20"]),
        file(2, "b.jar", "2024-03-01", 1, &["1.19"]),
        file(3, "c.JAR", "2024-02-01", 2, &["1.20", "1.19"]),
        file(4, "d.zip", "2024-02-01", 3, &["1.20"]),
    ];
    let out = cf_file_choices(&files, "1.20");
    assert_eq!(
        triples(&out),
        vec![
            t("3", "c (beta)", "beta"),
            t("4", "d.zip (alpha)", "alpha"),
            t("1", "a-1.0 (release)", "release"),
        ]
    );
    assert!(cf_file_choices(&files, "1.18").is_empty());
}

#[test]
fn index_choices_by_release_level() {
    let indexes = vec![
        entry("1.20", 10, "x-1.jar", 3, Some(4)),
        entry("1.20", 20, "f.jar", 1, Some(1)),
        entry("1.20", 30, "y.jar", 1, Some(4)),
        entry("1.19", 40, "w.jar", 1, Some(4)),
        entry("1.20", 50, "z.jar", 3, Some(4)),
    ];
    let out = cf_index_choices(&indexes, "1.20", "fabric");
    assert_eq!(
        triples(&out),
        vec![
            t("30", "y (release)", "release"),
            t("10", "x-1 (alpha)", "alpha"),
            t("50", "z (alpha)", "alpha"),
        ]
    );
    let out = cf_index_choices(&indexes, "1.20", "Forge");
    assert_eq!(triples(&out), vec![t("20", "f (release)", "release")]);
}

#[test]
fn modrinth_choices_latest_first() {
    let versions = vec![
        version("v1", "1.0", "release", &["1.20"], &["fabric"], "2024-01-01"),
        version("v2", "3.0", "release", &["1.20"], &["forge"], "2024-03-01"),
        version("v3", "2.0", "beta", &["1.20"], &["FABRIC"], "2024-02-01"),
        version("v4", "0.9", "alpha", &["1.19"], &["fabric"], "2024-04-01"),
    ];
    let out = mr_version_choices(&versions, "1.20", "Fabric");
    assert_eq!(
        triples(&out),
        vec![t("v3", "2.0 (beta)", "beta"), t("v1", "1.0 (release)", "release")]
    );
}
