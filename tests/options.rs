use mod_dep_updater::cf::CfLatestFileIndex;
use mod_dep_updater::mojang::VersionIndex;
use mod_dep_updater::mr::MrVersion;
use mod_dep_updater::options::{cf_project_options, mr_project_options, sorted_distinct};

fn strings(v: &[&str]) -> Vec<String> {
    v.iter().map(|s| s.to_string()).collect()
}

fn group(key: &str, values: &[&str]) -> (String, Vec<String>) {
    (key.to_string(), strings(values))
}

fn index(pairs: &[(&str, u16)]) -> Option<VersionIndex> {
    Some(VersionIndex { entries: pairs.iter().map(|(k, r)| (k.to_string(), *r)).collect() })
}

fn entry(gv: &str, loader: Option<u8>) -> CfLatestFileIndex {
    CfLatestFileIndex {
        game_version: gv.to_string(),
        file_id: 1,
        filename: "f.jar".to_string(),
        release_type: 1,
        mod_loader: loader,
    }
}

fn version(gv: &[&str], loaders: &[&str]) -> MrVersion {
    MrVersion {
        id: "id".to_string(),
        version_number: "1".to_string(),
        version_type: "release".to_string(),
        game_versions: strings(gv),
        loaders: strings(loaders),
        date_published: "d".to_string(),
    }
}

#[test]
fn distinct_texts_ascending() {
    assert_eq!(sorted_distinct(&strings(&["b", "a", "b", "B", ""])), strings(&["", "B", "a", "b"]));
    assert_eq!(sorted_distinct(&strings(&[])), strings(&[]));
}

#[test]
fn curseforge_options() {
    let indexes = vec![
        entry("1.20", Some(1)),
        entry("1.19", Some(4)),
        entry("1.20", Some(4)),
        entry("b1.7", Some(1)),
        entry("1.18", Some(2)),
        entry("1.21", None),
    ];
    let o = cf_project_options(&indexes, &None);
    assert_eq!(o.versions, strings(&["1.19", "1.20"]));
    assert_eq!(o.loaders, strings(&["Fabric", "Forge"]));
    assert_eq!(
        o.version_to_loaders,
        vec![group("1.19", &["Fabric"]), group("1.20", &["Fabric", "Forge"]), group("b1.7", &["Forge"])]
    );
    assert_eq!(
        o.loader_to_versions,
        vec![group("Fabric", &["1.19", "1.20"]), group("Forge", &["1.20", "b1.7"])]
    );
    let o = cf_project_options(&indexes, &index(&[("1.20", 0), ("1.19", 1)]));
    assert_eq!(o.versions, strings(&["1.20", "1.19"]));
    assert_eq!(
        o.loader_to_versions,
        vec![group("Fabric", &["1.20", "1.19"]), group("Forge", &["1.20", "b1.7"])]
    );
}

#[test]
fn curseforge_options_numeric_start() {
    let indexes = vec![entry("\u{2460}x", Some(1)), entry("x1", Some(1))];
    let o = cf_project_options(&indexes, &None);
    assert_eq!(o.versions, strings(&["\u{2460}x"]));
}

#[test]
fn modrinth_options() {
    let versions = vec![
        version(&["1.20", "1.19"], &["fabric", "quilt"]),
        version(&["1.20"], &["forge", "liteloader"]),
        version(&["1.18"], &[]),
    ];
    let o = mr_project_options(&versions, &None);
    assert_eq!(o.versions, strings(&["1.18", "1.19", "1.20"]));
    assert_eq!(o.loaders, strings(&["Fabric", "Forge", "Quilt", "liteloader"]));
    assert_eq!(
        o.version_to_loaders,
        vec![
            group("1.19", &["Fabric", "Quilt"]),
            group("1.20", &["Fabric", "Forge", "Quilt", "liteloader"]),
        ]
    );
    assert_eq!(
        o.loader_to_versions,
        vec![
            group("Fabric", &["1.19", "1.20"]),
            group("Forge", &["1.20"]),
            group("Quilt", &["1.19", "1.20"]),
            group("liteloader", &["1.20"]),
        ]
    );
    let o = mr_project_options(&versions, &index(&[("1.20", 0), ("1.19", 1), ("1.18", 2)]));
    assert_eq!(o.versions, strings(&["1.20", "1.19", "1.18"]));
    assert_eq!(o.loader_to_versions[0], group("Fabric", &["1.20", "1.19"]));
}
