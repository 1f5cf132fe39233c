//! Turning a parsed JSON document into a [`Manifest`]: the external
//! field names of the on-disk schema are accepted alongside the internal
//! ones, fields not needed for aggregation may be omitted, unknown
//! members are ignored, and every asset bucket is deduplicated by name,
//! first occurrence winning.

use vstd::prelude::*;
use crate::asset::{Asset, AssetView, fww_merge, views_of};
use crate::json::{
    JsonValue,
    JsonView,
    json_view,
    json_views,
    member_views,
    sp_document,
    parse_document,
};
use crate::manifest::{AssetCategory, CategoryView, Manifest, ManifestView, UnityHeader,
    UnityHeaderView};

verus! {

/// The value under the first member named `key`, if any.
pub open spec fn jv_lookup(ms: Seq<(Seq<char>, JsonView)>, key: Seq<char>) -> Option<JsonView>
    decreases ms.len(),
{
    if ms.len() == 0 {
        None
    } else if ms[0].0 == key {
        Some(ms[0].1)
    } else {
        jv_lookup(ms.drop_first(), key)
    }
}

/// A member under its external name, or failing that its internal one.
pub open spec fn jv_field(ms: Seq<(Seq<char>, JsonView)>, ext: Seq<char>, own: Seq<char>) -> Option<
    JsonView,
> {
    match jv_lookup(ms, ext) {
        Some(v) => Some(v),
        None => jv_lookup(ms, own),
    }
}

/// An optional integer member within the given bounds; 0 when absent.
pub open spec fn sp_num_field(
    ms: Seq<(Seq<char>, JsonView)>,
    ext: Seq<char>,
    own: Seq<char>,
    lo: int,
    hi: int,
) -> Option<int> {
    match jv_field(ms, ext, own) {
        None => Some(0),
        Some(JsonView::Num(n)) => if lo <= n <= hi {
            Some(n)
        } else {
            None
        },
        Some(_) => None,
    }
}

/// One asset from its object: `name`, `hash` and `size` are required.
pub open spec fn sp_asset_of(v: JsonView) -> Option<AssetView> {
    match v {
        JsonView::Obj(ms) => match (jv_lookup(ms, "name"@), jv_lookup(ms, "hash"@), jv_lookup(
            ms,
            "size"@,
        )) {
            (Some(JsonView::Str(n)), Some(JsonView::Str(h)), Some(JsonView::Num(sz))) => Some(
                AssetView { name: n, hash: h, size: sz },
            ),
            _ => None,
        },
        _ => None,
    }
}

/// Every element as an asset, in order, duplicates still included.
pub open spec fn sp_assets_of(items: Seq<JsonView>) -> Option<Seq<AssetView>>
    decreases items.len(),
{
    if items.len() == 0 {
        Some(Seq::<AssetView>::empty())
    } else {
        match sp_asset_of(items[0]) {
            None => None,
            Some(a) => match sp_assets_of(items.drop_first()) {
                None => None,
                Some(rest) => Some(seq![a] + rest),
            },
        }
    }
}

/// An asset bucket from its array: parsed in order and deduplicated by
/// name, first occurrence winning.
pub open spec fn sp_asset_list(v: JsonView) -> Option<Seq<AssetView>> {
    match v {
        JsonView::Arr(items) => match sp_assets_of(items) {
            None => None,
            Some(raw) => Some(fww_merge(Seq::<AssetView>::empty(), raw)),
        },
        _ => None,
    }
}

/// One category from its object: `name` and `assets` are required, the
/// encrypted bucket may be absent.
pub open spec fn sp_category_of(v: JsonView) -> Option<CategoryView> {
    match v {
        JsonView::Obj(ms) => match jv_lookup(ms, "name"@) {
            Some(JsonView::Str(name)) => match jv_lookup(ms, "assets"@) {
                Some(av) => match sp_asset_list(av) {
                    None => None,
                    Some(assets) => match jv_field(ms, "encryptedAssets"@, "encrypted_assets"@) {
                        None => Some(
                            CategoryView {
                                name,
                                assets,
                                encrypted_assets: Seq::<AssetView>::empty(),
                            },
                        ),
                        Some(ev) => match sp_asset_list(ev) {
                            None => None,
                            Some(enc) => Some(
                                CategoryView { name, assets, encrypted_assets: enc },
                            ),
                        },
                    },
                },
                None => None,
            },
            _ => None,
        },
        _ => None,
    }
}

/// Every element as a category, in order.
pub open spec fn sp_categories_of(items: Seq<JsonView>) -> Option<Seq<CategoryView>>
    decreases items.len(),
{
    if items.len() == 0 {
        Some(Seq::<CategoryView>::empty())
    } else {
        match sp_category_of(items[0]) {
            None => None,
            Some(c) => match sp_categories_of(items.drop_first()) {
                None => None,
                Some(rest) => Some(seq![c] + rest),
            },
        }
    }
}

/// A reference header from its object, or all zero when absent.
pub open spec fn sp_header_of(v: Option<JsonView>) -> Option<UnityHeaderView> {
    match v {
        None => Some(UnityHeaderView { path_id: 0, file_id: 0 }),
        Some(JsonView::Obj(ms)) => match (sp_num_field(
            ms,
            "m_PathID"@,
            "path_id"@,
            i64::MIN as int,
            i64::MAX as int,
        ), sp_num_field(ms, "m_FileID"@, "file_id"@, i32::MIN as int, i32::MAX as int)) {
            (Some(p), Some(f)) => Some(UnityHeaderView { path_id: p, file_id: f }),
            _ => None,
        },
        Some(_) => None,
    }
}

/// A whole manifest from its object: `categories` and the raw asset
/// bucket are required, the header metadata may be omitted.
pub open spec fn sp_manifest_of(v: JsonView) -> Option<ManifestView> {
    match v {
        JsonView::Obj(ms) => match sp_header_of(jv_field(ms, "m_GameObject"@, "game_object"@)) {
            None => None,
            Some(go) => match sp_num_field(
                ms,
                "m_Enabled"@,
                "enabled"@,
                i32::MIN as int,
                i32::MAX as int,
            ) {
                None => None,
                Some(en) => match sp_header_of(jv_field(ms, "m_Script"@, "script"@)) {
                    None => None,
                    Some(sc) => match (match jv_field(ms, "m_Name"@, "name"@) {
                        None => Some(Seq::<char>::empty()),
                        Some(JsonView::Str(s)) => Some(s),
                        Some(_) => None,
                    }) {
                        None => None,
                        Some(nm) => match jv_lookup(ms, "categories"@) {
                            Some(JsonView::Arr(cat_items)) => match sp_categories_of(cat_items) {
                                None => None,
                                Some(cats) => match jv_field(ms, "rawAssets"@, "raw_assets"@) {
                                    None => None,
                                    Some(rv) => match sp_asset_list(rv) {
                                        None => None,
                                        Some(raw) => Some(
                                            ManifestView {
                                                game_object: go,
                                                enabled: en,
                                                script: sc,
                                                name: nm,
                                                categories: cats,
                                                raw_assets: raw,
                                            },
                                        ),
                                    },
                                },
                            },
                            _ => None,
                        },
                    },
                },
            },
        },
        _ => None,
    }
}

/// What loading a manifest document from its text yields, if anything.
pub open spec fn sp_load_manifest(text: Seq<char>) -> Option<ManifestView> {
    match sp_document(text) {
        None => None,
        Some(v) => sp_manifest_of(v),
    }
}

/// The value under the first member named `key`, by linear search.
#[verifier::loop_isolation(false)]
fn jv_get<'a>(ms: &'a Vec<(String, JsonValue)>, key: &String) -> (r: Option<&'a JsonValue>)
    ensures
        match r {
            None => jv_lookup(member_views(ms@), key@) is None,
            Some(v) => jv_lookup(member_views(ms@), key@) == Some(json_view(*v)),
        },
{
    let ghost mv = member_views(ms@);
    proof {
        assert(mv.skip(0) =~= mv);
    }
    let mut k: usize = 0;
    while k < ms.len()
        invariant
            0 <= k <= ms@.len(),
            jv_lookup(mv, key@) == jv_lookup(mv.skip(k as int), key@),
        decreases ms@.len() - k,
    {
        proof {
            assert(mv.skip(k as int)[0] == (ms@[k as int].0@, json_view(ms@[k as int].1)));
            assert(mv.skip(k as int).drop_first() =~= mv.skip(k as int + 1));
        }
        let pair = &ms[k];
        if pair.0 == *key {
            return Some(&pair.1);
        }
        k += 1;
    }
    proof {
        assert(mv.skip(ms@.len() as int) =~= Seq::<(Seq<char>, JsonView)>::empty());
    }
    None
}

/// A member under its external name, or failing that its internal one.
fn jv_get_field<'a>(ms: &'a Vec<(String, JsonValue)>, ext: &String, own: &String) -> (r: Option<
    &'a JsonValue,
>)
    ensures
        match r {
            None => jv_field(member_views(ms@), ext@, own@) is None,
            Some(v) => jv_field(member_views(ms@), ext@, own@) == Some(json_view(*v)),
        },
{
    match jv_get(ms, ext) {
        Some(v) => Some(v),
        None => jv_get(ms, own),
    }
}

/// Deduplicates a parsed bucket by name, first occurrence winning.
fn dedup_assets(raw: Vec<Asset>) -> (r: Vec<Asset>)
    ensures
        views_of(r@) == fww_merge(Seq::<AssetView>::empty(), views_of(raw@)),
{
    let mut out: Vec<Asset> = Vec::new();
    proof {
        assert(views_of(out@) =~= Seq::<AssetView>::empty());
    }
    crate::asset::merge_assets(&mut out, raw);
    out
}

/// One asset from its object.
fn asset_of(v: &JsonValue) -> (r: Option<Asset>)
    ensures
        match r {
            None => sp_asset_of(json_view(*v)) is None,
            Some(a) => sp_asset_of(json_view(*v)) == Some(a@),
        },
{
    match v {
        JsonValue::Obj(ms) => {
            proof {
                crate::json::lemma_view_obj(*ms);
            }
            let n = jv_get(ms, &String::from_str("name"));
            let h = jv_get(ms, &String::from_str("hash"));
            let sz = jv_get(ms, &String::from_str("size"));
            match (n, h, sz) {
                (
                    Some(JsonValue::Str(name)),
                    Some(JsonValue::Str(hash)),
                    Some(JsonValue::Num(size)),
                ) => Some(Asset { name: name.clone(), hash: hash.clone(), size: *size }),
                _ => None,
            }
        },
        _ => None,
    }
}

/// An asset bucket from its array, deduplicated.
#[verifier::loop_isolation(false)]
fn asset_list_of(v: &JsonValue) -> (r: Option<Vec<Asset>>)
    ensures
        match r {
            None => sp_asset_list(json_view(*v)) is None,
            Some(assets) => sp_asset_list(json_view(*v)) == Some(views_of(assets@)),
        },
{
    match v {
        JsonValue::Arr(items) => {
            proof {
                crate::json::lemma_view_arr(*items);
            }
            let ghost jvs = json_views(items@);
            let mut raw: Vec<Asset> = Vec::new();
            proof {
                assert(jvs.skip(0) =~= jvs);
                assert(views_of(raw@) =~= Seq::<AssetView>::empty());
                match sp_assets_of(jvs) {
                    None => {},
                    Some(rest) => {
                        assert(views_of(raw@) + rest =~= rest);
                    },
                }
            }
            let mut k: usize = 0;
            while k < items.len()
                invariant
                    0 <= k <= items@.len(),
                    sp_assets_of(jvs) == (match sp_assets_of(jvs.skip(k as int)) {
                        None => None::<Seq<AssetView>>,
                        Some(rest) => Some(views_of(raw@) + rest),
                    }),
                decreases items@.len() - k,
            {
                proof {
                    assert(jvs.skip(k as int)[0] == json_view(items@[k as int]));
                    assert(jvs.skip(k as int).drop_first() =~= jvs.skip(k as int + 1));
                }
                let ghost raw0 = views_of(raw@);
                match asset_of(&items[k]) {
                    None => {
                        return None;
                    },
                    Some(a) => {
                        raw.push(a);
                        proof {
                            assert(views_of(raw@) =~= raw0.push(a@));
                            match sp_assets_of(jvs.skip(k as int + 1)) {
                                None => {},
                                Some(rest) => {
                                    assert(raw0 + (seq![a@] + rest) =~= views_of(raw@) + rest);
                                },
                            }
                        }
                    },
                }
                k += 1;
            }
            proof {
                assert(jvs.skip(items@.len() as int) =~= Seq::<JsonView>::empty());
                match sp_assets_of(jvs) {
                    None => {
                        assert(false);
                    },
                    Some(all) => {
                        assert(views_of(raw@) + Seq::<AssetView>::empty() =~= views_of(raw@));
                        assert(all == views_of(raw@));
                    },
                }
            }
            Some(dedup_assets(raw))
        },
        _ => None,
    }
}

/// One category from its object.
fn category_of(v: &JsonValue) -> (r: Option<AssetCategory>)
    ensures
        match r {
            None => sp_category_of(json_view(*v)) is None,
            Some(c) => sp_category_of(json_view(*v)) == Some(c@),
        },
{
    match v {
        JsonValue::Obj(ms) => {
            proof {
                crate::json::lemma_view_obj(*ms);
            }
            let name = match jv_get(ms, &String::from_str("name")) {
                Some(JsonValue::Str(n)) => n.clone(),
                _ => {
                    return None;
                },
            };
            let assets = match jv_get(ms, &String::from_str("assets")) {
                Some(av) => match asset_list_of(av) {
                    Some(assets) => assets,
                    None => {
                        return None;
                    },
                },
                None => {
                    return None;
                },
            };
            let encrypted_assets = match jv_get_field(
                ms,
                &String::from_str("encryptedAssets"),
                &String::from_str("encrypted_assets"),
            ) {
                None => Vec::new(),
                Some(ev) => match asset_list_of(ev) {
                    Some(enc) => enc,
                    None => {
                        return None;
                    },
                },
            };
            proof {
                assert(views_of(Seq::<Asset>::empty()) =~= Seq::<AssetView>::empty());
            }
            Some(AssetCategory { name, assets, encrypted_assets })
        },
        _ => None,
    }
}

/// A reference header from its object, or all zero when absent.
fn header_of(v: Option<&JsonValue>) -> (r: Option<UnityHeader>)
    ensures
        ({
            let sv = match v {
                None => None::<JsonView>,
                Some(jv) => Some(json_view(*jv)),
            };
            match r {
                None => sp_header_of(sv) is None,
                Some(h) => sp_header_of(sv) == Some(h@),
            }
        }),
{
    match v {
        None => Some(UnityHeader { path_id: 0, file_id: 0 }),
        Some(JsonValue::Obj(ms)) => {
            proof {
                crate::json::lemma_view_obj(*ms);
            }
            let path_id = match jv_get_field(
                ms,
                &String::from_str("m_PathID"),
                &String::from_str("path_id"),
            ) {
                None => 0i64,
                Some(JsonValue::Num(n)) => *n,
                Some(_) => {
                    return None;
                },
            };
            let file_id = match jv_get_field(
                ms,
                &String::from_str("m_FileID"),
                &String::from_str("file_id"),
            ) {
                None => 0i32,
                Some(JsonValue::Num(n)) => {
                    if *n < i32::MIN as i64 || *n > i32::MAX as i64 {
                        return None;
                    }
                    *n as i32
                },
                Some(_) => {
                    return None;
                },
            };
            Some(UnityHeader { path_id, file_id })
        },
        Some(_) => None,
    }
}

/// A whole manifest from its parsed document.
#[verifier::loop_isolation(false)]
fn manifest_of(v: &JsonValue) -> (r: Option<Manifest>)
    ensures
        match r {
            None => sp_manifest_of(json_view(*v)) is None,
            Some(m) => sp_manifest_of(json_view(*v)) == Some(m@),
        },
{
    match v {
        JsonValue::Obj(ms) => {
            proof {
                crate::json::lemma_view_obj(*ms);
            }
            let game_object = match header_of(
                jv_get_field(ms, &String::from_str("m_GameObject"), &String::from_str(
                    "game_object",
                )),
            ) {
                Some(h) => h,
                None => {
                    return None;
                },
            };
            let enabled = match jv_get_field(
                ms,
                &String::from_str("m_Enabled"),
                &String::from_str("enabled"),
            ) {
                None => 0i32,
                Some(JsonValue::Num(n)) => {
                    if *n < i32::MIN as i64 || *n > i32::MAX as i64 {
                        return None;
                    }
                    *n as i32
                },
                Some(_) => {
                    return None;
                },
            };
            let script = match header_of(
                jv_get_field(ms, &String::from_str("m_Script"), &String::from_str("script")),
            ) {
                Some(h) => h,
                None => {
                    return None;
                },
            };
            let name = match jv_get_field(ms, &String::from_str("m_Name"), &String::from_str(
                "name",
            )) {
                None => String::new(),
                Some(JsonValue::Str(s)) => s.clone(),
                Some(_) => {
                    return None;
                },
            };
            let categories = match jv_get(ms, &String::from_str("categories")) {
                Some(JsonValue::Arr(cat_items)) => {
                    proof {
                        crate::json::lemma_view_arr(*cat_items);
                    }
                    let ghost jvs = json_views(cat_items@);
                    let mut cats: Vec<AssetCategory> = Vec::new();
                    proof {
                        assert(jvs.skip(0) =~= jvs);
                        assert(cats@.map_values(|c: AssetCategory| c@) =~= Seq::<
                            CategoryView,
                        >::empty());
                        match sp_categories_of(jvs) {
                            None => {},
                            Some(rest) => {
                                assert(cats@.map_values(|c: AssetCategory| c@) + rest =~= rest);
                            },
                        }
                    }
                    let mut k: usize = 0;
                    while k < cat_items.len()
                        invariant
                            0 <= k <= cat_items@.len(),
                            sp_categories_of(jvs) == (match sp_categories_of(
                                jvs.skip(k as int),
                            ) {
                                None => None::<Seq<CategoryView>>,
                                Some(rest) => Some(
                                    cats@.map_values(|c: AssetCategory| c@) + rest,
                                ),
                            }),
                        decreases cat_items@.len() - k,
                    {
                        proof {
                            assert(jvs.skip(k as int)[0] == json_view(cat_items@[k as int]));
                            assert(jvs.skip(k as int).drop_first() =~= jvs.skip(k as int + 1));
                        }
                        let ghost cats0 = cats@.map_values(|c: AssetCategory| c@);
                        match category_of(&cat_items[k]) {
                            None => {
                                return None;
                            },
                            Some(c) => {
                                cats.push(c);
                                proof {
                                    assert(cats@.map_values(|cc: AssetCategory| cc@) =~= cats0.push(
                                        c@,
                                    ));
                                    match sp_categories_of(jvs.skip(k as int + 1)) {
                                        None => {},
                                        Some(rest) => {
                                            assert(cats0 + (seq![c@] + rest) =~= cats0.push(c@)
                                                + rest);
                                        },
                                    }
                                }
                            },
                        }
                        k += 1;
                    }
                    proof {
                        assert(jvs.skip(cat_items@.len() as int) =~= Seq::<JsonView>::empty());
                        match sp_categories_of(jvs) {
                            None => {
                                assert(false);
                            },
                            Some(all) => {
                                assert(cats@.map_values(|c: AssetCategory| c@) + Seq::<
                                    CategoryView,
                                >::empty() =~= cats@.map_values(|c: AssetCategory| c@));
                                assert(all == cats@.map_values(|c: AssetCategory| c@));
                            },
                        }
                    }
                    cats
                },
                _ => {
                    return None;
                },
            };
            let raw_assets = match jv_get_field(ms, &String::from_str("rawAssets"), &String::from_str(
                "raw_assets",
            )) {
                None => {
                    return None;
                },
                Some(rv) => match asset_list_of(rv) {
                    Some(raw) => raw,
                    None => {
                        return None;
                    },
                },
            };
            Some(Manifest { game_object, enabled, script, name, categories, raw_assets })
        },
        _ => None,
    }
}

/// Loads one manifest document from its text; `None` is a parse failure,
/// be it malformed JSON or a document that does not fit the schema.
pub fn parse_manifest(text: &str) -> (r: Option<Manifest>)
    ensures
        match r {
            None => sp_load_manifest(text@) is None,
            Some(m) => sp_load_manifest(text@) == Some(m@),
        },
{
    match parse_document(text) {
        None => None,
        Some(v) => manifest_of(&v),
    }
}

} // verus!
