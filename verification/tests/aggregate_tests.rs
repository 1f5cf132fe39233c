use manifest_merge::aggregate::{aggregate, AggregateError, FolderInput};
use manifest_merge::manifest::Manifest;

fn folder(path: &str, content: &str) -> FolderInput {
    FolderInput { path: String::from(path), content: Some(String::from(content)) }
}

fn asset_json(name: &str, hash: &str, size: i64) -> String {
    format!("{{ \"name\": \"{}\", \"hash\": \"{}\", \"size\": {} }}", name, hash, size)
}

fn manifest_json(master_assets: &[String], others_assets: &[String], raw: &[String]) -> String {
    format!(
        "{{ \"m_GameObject\": {{ \"m_PathID\": 0, \"m_FileID\": 0 }}, \"m_Enabled\": 1, \"m_Script\": {{ \"m_PathID\": 3, \"m_FileID\": 0 }}, \"m_Name\": \"manifest\", \"categories\": [ {{ \"name\": \"Master\", \"assets\": [{}], \"encryptedAssets\": [] }}, {{ \"name\": \"Others\", \"assets\": [{}], \"encryptedAssets\": [] }} ], \"rawAssets\": [{}] }}",
        master_assets.join(", "),
        others_assets.join(", "),
        raw.join(", ")
    )
}

fn names_of(assets: &Vec<manifest_merge::asset::Asset>) -> Vec<String> {
    let mut v: Vec<String> = assets.iter().map(|a| a.name.clone()).collect();
    v.sort();
    v
}

#[test]
fn first_write_wins_across_folders() {
    // Folder A carries x with h1/10, folder B carries x with h2/20: the
    // first-seen payload is kept and the later duplicate is discarded.
    let a = folder("root/a/m.json", &manifest_json(&[asset_json("x", "h1", 10)], &[], &[]));
    let b = folder("root/b/m.json", &manifest_json(&[asset_json("x", "h2", 20)], &[], &[]));
    let m = aggregate(vec![a, b]).unwrap();
    assert_eq!(m.categories.len(), 2);
    assert_eq!(m.categories[0].name, "Master");
    assert_eq!(m.categories[1].name, "Others");
    assert_eq!(m.categories[0].assets.len(), 1);
    assert_eq!(m.categories[0].assets[0].name, "x");
    assert_eq!(m.categories[0].assets[0].hash, "h1");
    assert_eq!(m.categories[0].assets[0].size, 10);
    assert_eq!(m.categories[1].assets.len(), 0);
}

#[test]
fn result_always_has_fixed_categories() {
    let m = aggregate(Vec::new()).unwrap();
    assert_eq!(m.categories.len(), 2);
    assert_eq!(m.categories[0].name, "Master");
    assert_eq!(m.categories[1].name, "Others");
    assert!(m.categories[0].assets.is_empty());
    assert!(m.categories[1].assets.is_empty());
    assert!(m.raw_assets.is_empty());
    assert_eq!(m.name, "manifest");
    assert_eq!(m.enabled, 1);
    assert_eq!(m.script.path_id, 3126599977334250442);
}

#[test]
fn merging_same_folder_twice_is_idempotent_on_names() {
    let text = manifest_json(
        &[asset_json("x", "h1", 10), asset_json("y", "h2", 20)],
        &[asset_json("z", "h3", 30)],
        &[asset_json("r", "h4", 40)],
    );
    let once = aggregate(vec![folder("root/a/m.json", &text)]).unwrap();
    let twice = aggregate(vec![
        folder("root/a/m.json", &text),
        folder("root/a/m.json", &text),
    ])
    .unwrap();
    for k in 0..2 {
        assert_eq!(names_of(&once.categories[k].assets), names_of(&twice.categories[k].assets));
    }
    assert_eq!(names_of(&once.raw_assets), names_of(&twice.raw_assets));
}

#[test]
fn unknown_category_is_schema_mismatch() {
    let text = "{ \"categories\": [ { \"name\": \"Bonus\", \"assets\": [] } ], \"rawAssets\": [] }";
    let r = aggregate(vec![folder("root/a/m.json", text)]);
    match r {
        Err(AggregateError::SchemaMismatch { path, category }) => {
            assert_eq!(path, "root/a/m.json");
            assert_eq!(category, "Bonus");
        }
        _ => panic!("expected a schema mismatch"),
    }
}

#[test]
fn missing_file_is_io_error() {
    let missing = FolderInput { path: String::from("root/bad/m.json"), content: None };
    let r = aggregate(vec![missing]);
    match r {
        Err(AggregateError::IOError { path }) => assert_eq!(path, "root/bad/m.json"),
        _ => panic!("expected an io error"),
    }
}

#[test]
fn malformed_json_is_parse_error() {
    let r = aggregate(vec![folder("root/a/m.json", "{ not json")]);
    match r {
        Err(AggregateError::ParseError { path }) => assert_eq!(path, "root/a/m.json"),
        _ => panic!("expected a parse error"),
    }
}

#[test]
fn first_failure_ends_the_run() {
    // The second folder is unreadable; the third would mismatch, but the
    // run ends at the second.
    let good = folder("root/a/m.json", &manifest_json(&[], &[], &[]));
    let missing = FolderInput { path: String::from("root/b/m.json"), content: None };
    let bad = folder(
        "root/c/m.json",
        "{ \"categories\": [ { \"name\": \"Bonus\", \"assets\": [] } ], \"rawAssets\": [] }",
    );
    match aggregate(vec![good, missing, bad]) {
        Err(AggregateError::IOError { path }) => assert_eq!(path, "root/b/m.json"),
        _ => panic!("expected the io error of the second folder"),
    }
}

#[test]
fn duplicate_names_within_one_file_are_deduplicated() {
    let text = manifest_json(
        &[asset_json("x", "h1", 10), asset_json("x", "h2", 20)],
        &[],
        &[],
    );
    let m = aggregate(vec![folder("root/a/m.json", &text)]).unwrap();
    assert_eq!(m.categories[0].assets.len(), 1);
    assert_eq!(m.categories[0].assets[0].hash, "h1");
}

#[test]
fn raw_assets_accumulate_across_folders() {
    let a = folder("root/a/m.json", &manifest_json(&[], &[], &[asset_json("r1", "h1", 1)]));
    let b = folder(
        "root/b/m.json",
        &manifest_json(&[], &[], &[asset_json("r2", "h2", 2), asset_json("r1", "h9", 9)]),
    );
    let m = aggregate(vec![a, b]).unwrap();
    assert_eq!(names_of(&m.raw_assets), vec![String::from("r1"), String::from("r2")]);
    let r1 = m.raw_assets.iter().find(|a| a.name == "r1").unwrap();
    assert_eq!(r1.hash, "h1");
    assert_eq!(r1.size, 1);
}

#[test]
fn constructors_give_the_documented_values() {
    let c = manifest_merge::manifest::AssetCategory::new("Master");
    assert_eq!(c.name, "Master");
    assert!(c.assets.is_empty());
    assert!(c.encrypted_assets.is_empty());
    let m = Manifest::new();
    assert_eq!(m.game_object.path_id, 0);
    assert_eq!(m.game_object.file_id, 0);
    assert_eq!(m.enabled, 1);
    assert_eq!(m.script.path_id, 3126599977334250442);
    assert_eq!(m.script.file_id, 0);
    assert_eq!(m.name, "manifest");
    assert_eq!(m.categories.len(), 2);
    assert_eq!(m.categories[0].name, "Master");
    assert_eq!(m.categories[1].name, "Others");
}

#[test]
fn folder_order_never_decides_which_names_are_present() {
    let a = folder(
        "root/a/m.json",
        &manifest_json(&[asset_json("x", "h1", 10)], &[], &[asset_json("r", "h3", 3)]),
    );
    let b = folder(
        "root/b/m.json",
        &manifest_json(&[asset_json("x", "h2", 20), asset_json("y", "h4", 4)], &[], &[]),
    );
    let a2 = folder(
        "root/a/m.json",
        &manifest_json(&[asset_json("x", "h1", 10)], &[], &[asset_json("r", "h3", 3)]),
    );
    let b2 = folder(
        "root/b/m.json",
        &manifest_json(&[asset_json("x", "h2", 20), asset_json("y", "h4", 4)], &[], &[]),
    );
    let ab = aggregate(vec![a, b]).unwrap();
    let ba = aggregate(vec![b2, a2]).unwrap();
    for k in 0..2 {
        assert_eq!(names_of(&ab.categories[k].assets), names_of(&ba.categories[k].assets));
    }
    assert_eq!(names_of(&ab.raw_assets), names_of(&ba.raw_assets));
    // the payloads, by contrast, follow the order
    assert_eq!(ab.categories[0].assets.iter().find(|x| x.name == "x").unwrap().hash, "h1");
    assert_eq!(ba.categories[0].assets.iter().find(|x| x.name == "x").unwrap().hash, "h2");
}
