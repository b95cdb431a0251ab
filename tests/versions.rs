use mod_dep_updater::mojang::{fuzzy_sort_key, order_mc_versions, order_mc_versions_cf, VersionIndex};
use mod_dep_updater::util::{
    backoff_ms, retry_delay_ms, data_url, loader_name_to_tag, loader_tag_from_lowered, mime_for_ext, mime_for_lowered,
    release_type_str, shorten,
};

fn strings(v: &[&str]) -> Vec<String> {
    v.iter().map(|s| s.to_string()).collect()
}

fn index(pairs: &[(&str, u16)]) -> VersionIndex {
    VersionIndex { entries: pairs.iter().map(|(k, r)| (k.to_string(), *r)).collect() }
}

#[test]
fn order_puts_unknown_last() {
    let ix = Some(index(&[("1.19", 0), ("1.20", 1)]));
    let out = order_mc_versions(&ix, strings(&["1.20", "1.21", "1.19"]));
    assert_eq!(out, strings(&["1.19", "1.20", "1.21"]));
}

#[test]
fn order_dedups_and_keeps_ties() {
    let ix = Some(index(&[("1.19", 0)]));
    let out = order_mc_versions(&ix, strings(&["b", "1.19", "a", "b", "1.19"]));
    assert_eq!(out, strings(&["1.19", "b", "a"]));
    let out = order_mc_versions(&None, strings(&["b", "a", "b"]));
    assert_eq!(out, strings(&["b", "a"]));
}

#[test]
fn fuzzy_order_of_suffixes() {
    let ix = Some(index(&[("1.20", 3)]));
    let out = order_mc_versions_cf(&ix, strings(&["1.20-rc1", "1.20-rc2", "1.20"]));
    assert_eq!(out, strings(&["1.20-rc2", "1.20-rc1", "1.20"]));
}

#[test]
fn fuzzy_order_kinds_and_bases() {
    let ix = Some(index(&[("1.19", 0), ("1.20", 1)]));
    let out = order_mc_versions_cf(
        &ix,
        strings(&["1.20", "1.20 Snapshot", "1.20-pre1", "1.20-RC1", "Fabric", "1.19", "1.20"]),
    );
    assert_eq!(out, strings(&["1.19", "1.20-RC1", "1.20-pre1", "1.20 Snapshot", "1.20", "Fabric"]));
    let input = strings(&["b", "a", "b"]);
    assert_eq!(order_mc_versions_cf(&None, input.clone()), input);
}

#[test]
fn fuzzy_keys() {
    let ix = index(&[("1.20", 2)]);
    assert_eq!(fuzzy_sort_key(&ix, "1.20", "1.20"), 2 * 16777216 + 4 * 65536);
    assert_eq!(fuzzy_sort_key(&ix, "1.20-rc3", "1.20-rc3"), 2 * 16777216 + 65536 + 65532);
    assert_eq!(fuzzy_sort_key(&ix, "1.20-pre99999", "1.20-pre99999"), 2 * 16777216 + 2 * 65536 + 65535);
    assert_eq!(fuzzy_sort_key(&ix, "1", "1"), 65535 * 16777216 + 4 * 65536);
    assert_eq!(fuzzy_sort_key(&ix, "x", "snapshot"), 65535 * 16777216 + 3 * 65536);
}

#[test]
fn index_from_manifest() {
    let ix = VersionIndex::from_manifest(&strings(&["1.21", "1.20", "1.21"]));
    assert_eq!(ix.rank("1.21"), Some(2));
    assert_eq!(ix.rank("1.20"), Some(1));
    assert_eq!(ix.rank("1.19"), None);
}

#[test]
fn loader_tags() {
    assert_eq!(loader_name_to_tag("FABRIC"), "Fabric");
    assert_eq!(loader_name_to_tag("neoforge"), "NeoForge");
    assert_eq!(loader_name_to_tag("liteloader"), "Liteloader");
    assert_eq!(loader_name_to_tag(""), "");
    assert_eq!(loader_tag_from_lowered("rift"), "Rift");
}

#[test]
fn release_levels() {
    assert_eq!(release_type_str(1), "release");
    assert_eq!(release_type_str(2), "beta");
    assert_eq!(release_type_str(3), "alpha");
    assert_eq!(release_type_str(0), "unknown");
}

#[test]
fn mime_types_and_data_urls() {
    assert_eq!(mime_for_ext("PNG"), "image/png");
    assert_eq!(mime_for_ext("jpeg"), "image/jpeg");
    assert_eq!(mime_for_ext("webp"), "image/webp");
    assert_eq!(mime_for_ext("gif"), "application/octet-stream");
    assert_eq!(mime_for_lowered("JPG"), "application/octet-stream");
    assert_eq!(data_url(&vec![104, 105], "png"), "data:image/png;base64,aGk=");
}

#[test]
fn shorten_long_text() {
    assert_eq!(shorten("abcdef", 3), "abc...");
    assert_eq!(shorten("abc", 3), "abc");
    assert_eq!(shorten("", 0), "");
}

#[test]
fn retry_backoff() {
    assert_eq!(backoff_ms(200, 0), 200);
    assert_eq!(backoff_ms(150, 2), 600);
    assert_eq!(retry_delay_ms(0, 2, 200), Some(200));
    assert_eq!(retry_delay_ms(1, 2, 200), Some(400));
    assert_eq!(retry_delay_ms(2, 2, 200), None);
    assert_eq!(retry_delay_ms(0, 0, 200), None);
}

#[test]
fn data_url_groups_and_padding() {
    assert_eq!(data_url(&vec![255], "png"), "data:image/png;base64,/w==");
    assert_eq!(data_url(&vec![0, 0, 0, 251], "webp"), "data:image/webp;base64,AAAA+w==");
    assert_eq!(data_url(&vec![], "bin"), "data:application/octet-stream;base64,");
}
