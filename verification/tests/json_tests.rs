use manifest_merge::aggregate::{aggregate, FolderInput};
use manifest_merge::loader::parse_manifest;
use manifest_merge::writer::write_manifest;

fn folder(path: &str, content: &str) -> FolderInput {
    FolderInput { path: String::from(path), content: Some(String::from(content)) }
}

fn sorted_names(assets: &Vec<manifest_merge::asset::Asset>) -> Vec<String> {
    let mut v: Vec<String> = assets.iter().map(|a| a.name.clone()).collect();
    v.sort();
    v
}

#[test]
fn loader_accepts_external_and_internal_names() {
    let ext = "{ \"m_GameObject\": { \"m_PathID\": 7, \"m_FileID\": 1 }, \"m_Enabled\": 1, \"m_Name\": \"n\", \"categories\": [], \"rawAssets\": [] }";
    let own = "{ \"game_object\": { \"path_id\": 7, \"file_id\": 1 }, \"enabled\": 1, \"name\": \"n\", \"categories\": [], \"raw_assets\": [] }";
    let m1 = parse_manifest(ext).unwrap();
    let m2 = parse_manifest(own).unwrap();
    assert_eq!(m1.game_object.path_id, 7);
    assert_eq!(m2.game_object.path_id, 7);
    assert_eq!(m1.name, "n");
    assert_eq!(m2.name, "n");
}

#[test]
fn loader_tolerates_omitted_metadata_and_unknown_members() {
    let text = "{ \"whatever\": { \"deep\": [1, 2, {\"k\": null}] }, \"categories\": [ { \"name\": \"Master\", \"assets\": [ { \"name\": \"a\", \"hash\": \"h\", \"size\": 1 } ] } ], \"rawAssets\": [] }";
    let m = parse_manifest(text).unwrap();
    assert_eq!(m.game_object.path_id, 0);
    assert_eq!(m.enabled, 0);
    assert_eq!(m.name, "");
    assert_eq!(m.categories.len(), 1);
    assert_eq!(m.categories[0].assets[0].name, "a");
    assert!(m.categories[0].encrypted_assets.is_empty());
}

#[test]
fn loader_requires_categories_and_raw_assets() {
    assert!(parse_manifest("{ \"rawAssets\": [] }").is_none());
    assert!(parse_manifest("{ \"categories\": [] }").is_none());
    assert!(parse_manifest("{ \"categories\": [], \"rawAssets\": [] }").is_some());
}

#[test]
fn loader_rejects_malformed_documents() {
    assert!(parse_manifest("").is_none());
    assert!(parse_manifest("[1, 2]").is_none());
    assert!(parse_manifest("{ \"categories\": [], \"rawAssets\": [] } x").is_none());
    assert!(parse_manifest("{ \"categories\": 3, \"rawAssets\": [] }").is_none());
    assert!(
        parse_manifest(
            "{ \"categories\": [ { \"name\": \"Master\" } ], \"rawAssets\": [] }"
        )
        .is_none()
    );
}

#[test]
fn loader_handles_escapes_and_signed_sizes() {
    let text = "{ \"categories\": [ { \"name\": \"Master\", \"assets\": [ { \"name\": \"a\\\\b\\\"c\\n\", \"hash\": \"h\\t\", \"size\": -12 } ] } ], \"rawAssets\": [] }";
    let m = parse_manifest(text).unwrap();
    assert_eq!(m.categories[0].assets[0].name, "a\\b\"c\n");
    assert_eq!(m.categories[0].assets[0].hash, "h\t");
    assert_eq!(m.categories[0].assets[0].size, -12);
}

#[test]
fn loader_bounds_numbers_to_sixty_four_bits() {
    let ok = "{ \"categories\": [], \"rawAssets\": [ { \"name\": \"a\", \"hash\": \"h\", \"size\": 9223372036854775807 } ] }";
    let over = "{ \"categories\": [], \"rawAssets\": [ { \"name\": \"a\", \"hash\": \"h\", \"size\": 9223372036854775808 } ] }";
    let min = "{ \"categories\": [], \"rawAssets\": [ { \"name\": \"a\", \"hash\": \"h\", \"size\": -9223372036854775808 } ] }";
    assert_eq!(parse_manifest(ok).unwrap().raw_assets[0].size, i64::MAX);
    assert!(parse_manifest(over).is_none());
    assert_eq!(parse_manifest(min).unwrap().raw_assets[0].size, i64::MIN);
}

#[test]
fn writer_emits_the_exact_empty_document() {
    let m = aggregate(Vec::new()).unwrap();
    let text = write_manifest(&m);
    let expected = "{\n  \"m_GameObject\": { \"m_PathID\": 0, \"m_FileID\": 0 },\n  \"m_Enabled\": 1,\n  \"m_Script\": { \"m_PathID\": 3126599977334250442, \"m_FileID\": 0 },\n  \"m_Name\": \"manifest\",\n  \"categories\": [\n    {\n      \"name\": \"Master\",\n      \"assets\": [],\n      \"encryptedAssets\": []\n    },\n    {\n      \"name\": \"Others\",\n      \"assets\": [],\n      \"encryptedAssets\": []\n    }\n  ],\n  \"rawAssets\": []\n}";
    assert_eq!(text, expected);
}

#[test]
fn writer_escapes_what_the_loader_unescapes() {
    let text = "{ \"categories\": [ { \"name\": \"Master\", \"assets\": [ { \"name\": \"a\\\\b\\\"c\", \"hash\": \"h\\n\", \"size\": -5 } ] } ], \"rawAssets\": [] }";
    let m = aggregate(vec![folder("root/a/m.json", text)]).unwrap();
    let written = write_manifest(&m);
    let back = parse_manifest(&written).unwrap();
    assert_eq!(back.categories[0].assets[0].name, "a\\b\"c");
    assert_eq!(back.categories[0].assets[0].hash, "h\n");
    assert_eq!(back.categories[0].assets[0].size, -5);
}

#[test]
fn round_trip_preserves_names_and_payloads() {
    let a = folder(
        "root/a/m.json",
        "{ \"categories\": [ { \"name\": \"Master\", \"assets\": [ { \"name\": \"x\", \"hash\": \"h1\", \"size\": 10 }, { \"name\": \"y\", \"hash\": \"h2\", \"size\": 20 } ] }, { \"name\": \"Others\", \"assets\": [ { \"name\": \"z\", \"hash\": \"h3\", \"size\": 30 } ] } ], \"rawAssets\": [ { \"name\": \"r\", \"hash\": \"h4\", \"size\": 40 } ] }",
    );
    let m = aggregate(vec![a]).unwrap();
    let written = write_manifest(&m);
    let back = parse_manifest(&written).unwrap();
    assert_eq!(back.categories.len(), m.categories.len());
    for k in 0..m.categories.len() {
        assert_eq!(back.categories[k].name, m.categories[k].name);
        assert_eq!(sorted_names(&back.categories[k].assets), sorted_names(&m.categories[k].assets));
    }
    assert_eq!(sorted_names(&back.raw_assets), sorted_names(&m.raw_assets));
    assert_eq!(back.raw_assets[0].hash, "h4");
    assert_eq!(back.raw_assets[0].size, 40);
}

#[test]
fn loader_handles_unicode_escapes() {
    let text = "{ \"categories\": [], \"rawAssets\": [ { \"name\": \"\\u0041\\u00e9\\u4e2d\", \"hash\": \"\\uD83D\\uDE00\", \"size\": 1 } ] }";
    let m = parse_manifest(text).unwrap();
    assert_eq!(m.raw_assets[0].name, "A\u{e9}\u{4e2d}");
    assert_eq!(m.raw_assets[0].hash, "\u{1F600}");
}

#[test]
fn loader_rejects_bad_unicode_escapes() {
    // a lone high surrogate, a lone low surrogate, and short hex
    assert!(parse_manifest("{ \"categories\": [], \"rawAssets\": [], \"x\": \"\\uD83D\" }").is_none());
    assert!(parse_manifest("{ \"categories\": [], \"rawAssets\": [], \"x\": \"\\uDE00\" }").is_none());
    assert!(parse_manifest("{ \"categories\": [], \"rawAssets\": [], \"x\": \"\\u12\" }").is_none());
}

#[test]
fn loader_tolerates_non_integer_numbers_in_ignored_members() {
    let text = "{ \"version\": 1.5, \"weights\": [ 2e10, -3.25E-2, 99999999999999999999 ], \"categories\": [], \"rawAssets\": [] }";
    let m = parse_manifest(text).unwrap();
    assert_eq!(m.categories.len(), 0);
    assert!(m.raw_assets.is_empty());
}

#[test]
fn loader_rejects_non_integer_numbers_where_an_integer_is_needed() {
    let frac = "{ \"categories\": [], \"rawAssets\": [ { \"name\": \"a\", \"hash\": \"h\", \"size\": 1.5 } ] }";
    let exp = "{ \"categories\": [], \"rawAssets\": [ { \"name\": \"a\", \"hash\": \"h\", \"size\": 1e3 } ] }";
    let huge = "{ \"m_Enabled\": 99999999999999999999, \"categories\": [], \"rawAssets\": [] }";
    assert!(parse_manifest(frac).is_none());
    assert!(parse_manifest(exp).is_none());
    assert!(parse_manifest(huge).is_none());
}

#[test]
fn loader_rejects_malformed_numbers() {
    assert!(parse_manifest("{ \"x\": 1., \"categories\": [], \"rawAssets\": [] }").is_none());
    assert!(parse_manifest("{ \"x\": 1e, \"categories\": [], \"rawAssets\": [] }").is_none());
    assert!(parse_manifest("{ \"x\": 1e+, \"categories\": [], \"rawAssets\": [] }").is_none());
}
