//! The manifest document model: categories of assets under a fixed
//! two-entry schema, plus a flat set of raw assets and constant header
//! metadata carried for output compatibility.

use vstd::prelude::*;
use crate::asset::{Asset, AssetView, unique_names, views_of};

verus! {

/// An embedded object-reference header; constant metadata in produced
/// results.
pub struct UnityHeader {
    pub path_id: i64,
    pub file_id: i32,
}

/// Mathematical image of a [`UnityHeader`].
#[verifier::ext_equal]
pub ghost struct UnityHeaderView {
    pub path_id: int,
    pub file_id: int,
}

impl View for UnityHeader {
    type V = UnityHeaderView;

    open spec fn view(&self) -> UnityHeaderView {
        UnityHeaderView { path_id: self.path_id as int, file_id: self.file_id as int }
    }
}

/// A named bucket of assets. `encrypted_assets` is parsed from input for
/// forward schema compatibility but never merged into a result.
pub struct AssetCategory {
    pub name: String,
    pub assets: Vec<Asset>,
    pub encrypted_assets: Vec<Asset>,
}

/// Mathematical image of an [`AssetCategory`].
#[verifier::ext_equal]
pub ghost struct CategoryView {
    pub name: Seq<char>,
    pub assets: Seq<AssetView>,
    pub encrypted_assets: Seq<AssetView>,
}

impl View for AssetCategory {
    type V = CategoryView;

    open spec fn view(&self) -> CategoryView {
        CategoryView {
            name: self.name@,
            assets: views_of(self.assets@),
            encrypted_assets: views_of(self.encrypted_assets@),
        }
    }
}

impl CategoryView {
    /// No two assets in the bucket share a name.
    pub open spec fn wf(self) -> bool {
        unique_names(self.assets)
    }
}

impl AssetCategory {
    /// An empty category under the given name.
    pub fn new(name: &str) -> (r: AssetCategory)
        ensures
            r@ == (CategoryView {
                name: name@,
                assets: Seq::<AssetView>::empty(),
                encrypted_assets: Seq::<AssetView>::empty(),
            }),
    {
        let r = AssetCategory {
            name: name.to_owned(),
            assets: Vec::new(),
            encrypted_assets: Vec::new(),
        };
        proof {
            assert(views_of(r.assets@) =~= Seq::<AssetView>::empty());
            assert(views_of(r.encrypted_assets@) =~= Seq::<AssetView>::empty());
        }
        r
    }
}

/// The top-level manifest document.
pub struct Manifest {
    pub game_object: UnityHeader,
    pub enabled: i32,
    pub script: UnityHeader,
    pub name: String,
    pub categories: Vec<AssetCategory>,
    pub raw_assets: Vec<Asset>,
}

/// Mathematical image of a [`Manifest`].
#[verifier::ext_equal]
pub ghost struct ManifestView {
    pub game_object: UnityHeaderView,
    pub enabled: int,
    pub script: UnityHeaderView,
    pub name: Seq<char>,
    pub categories: Seq<CategoryView>,
    pub raw_assets: Seq<AssetView>,
}

impl View for Manifest {
    type V = ManifestView;

    open spec fn view(&self) -> ManifestView {
        ManifestView {
            game_object: self.game_object@,
            enabled: self.enabled as int,
            script: self.script@,
            name: self.name@,
            categories: self.categories@.map_values(|c: AssetCategory| c@),
            raw_assets: views_of(self.raw_assets@),
        }
    }
}

impl ManifestView {
    /// Within the manifest, no two assets of any one bucket share a name,
    /// and no two categories share a name.
    pub open spec fn wf(self) -> bool {
        &&& forall|i: int| 0 <= i < self.categories.len() ==> (#[trigger] self.categories[i]).wf()
        &&& forall|i: int, j: int|
            0 <= i < j < self.categories.len() ==> self.categories[i].name
                != self.categories[j].name
        &&& unique_names(self.raw_assets)
    }

    /// The fixed category schema of every aggregation result: exactly
    /// "Master" then "Others".
    pub open spec fn has_result_schema(self) -> bool {
        &&& self.categories.len() == 2
        &&& self.categories[0].name == "Master"@
        &&& self.categories[1].name == "Others"@
    }
}

/// The fresh accumulator value: constant header metadata, the two
/// predefined empty categories in order, and no raw assets.
pub open spec fn initial_manifest() -> ManifestView {
    ManifestView {
        game_object: UnityHeaderView { path_id: 0, file_id: 0 },
        enabled: 1,
        script: UnityHeaderView { path_id: 3126599977334250442, file_id: 0 },
        name: "manifest"@,
        categories: seq![
            CategoryView {
                name: "Master"@,
                assets: Seq::<AssetView>::empty(),
                encrypted_assets: Seq::<AssetView>::empty(),
            },
            CategoryView {
                name: "Others"@,
                assets: Seq::<AssetView>::empty(),
                encrypted_assets: Seq::<AssetView>::empty(),
            },
        ],
        raw_assets: Seq::<AssetView>::empty(),
    }
}

impl Manifest {
    /// A fresh accumulator: constant header metadata, the two predefined
    /// empty categories in order, and no raw assets.
    pub fn new() -> (r: Manifest)
        ensures
            r@ == initial_manifest(),
            r@.game_object == (UnityHeaderView { path_id: 0, file_id: 0 }),
            r@.enabled == 1,
            r@.script == (UnityHeaderView { path_id: 3126599977334250442, file_id: 0 }),
            r@.name == "manifest"@,
            r@.categories.len() == 2,
            r@.categories[0] == (CategoryView {
                name: "Master"@,
                assets: Seq::<AssetView>::empty(),
                encrypted_assets: Seq::<AssetView>::empty(),
            }),
            r@.categories[1] == (CategoryView {
                name: "Others"@,
                assets: Seq::<AssetView>::empty(),
                encrypted_assets: Seq::<AssetView>::empty(),
            }),
            r@.raw_assets == Seq::<AssetView>::empty(),
            r@.wf(),
            r@.has_result_schema(),
    {
        let mut categories: Vec<AssetCategory> = Vec::new();
        categories.push(AssetCategory::new("Master"));
        categories.push(AssetCategory::new("Others"));
        let r = Manifest {
            game_object: UnityHeader { path_id: 0, file_id: 0 },
            enabled: 1,
            script: UnityHeader { path_id: 3126599977334250442, file_id: 0 },
            name: String::from_str("manifest"),
            categories,
            raw_assets: Vec::new(),
        };
        proof {
            assert(views_of(r.raw_assets@) =~= Seq::<AssetView>::empty());
            assert(r@.categories =~= seq![r.categories@[0]@, r.categories@[1]@]);
            reveal_strlit("Master");
            reveal_strlit("Others");
            assert(r@.categories[0].wf());
            assert(r@.categories[1].wf());
            assert(r@ =~= initial_manifest());
            assert(r@.categories[0].name != r@.categories[1].name) by {
                assert(r@.categories[0].name[0] == 'M');
                assert(r@.categories[1].name[0] == 'O');
            }
            assert(r@.wf());
        }
        r
    }
}

} // verus!
