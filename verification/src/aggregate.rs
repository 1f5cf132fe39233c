//! Folding loaded manifests into a running accumulator: category lookup
//! against the fixed schema, first-write-wins asset merging, and the
//! aggregation over a sequence of per-folder inputs.

use vstd::prelude::*;
use crate::asset::{fww_merge, lemma_fww_merge_names, name_set, views_of};
use crate::loader::sp_load_manifest;
use crate::manifest::{AssetCategory, CategoryView, Manifest, ManifestView, initial_manifest};

verus! {

/// The first index at or after `i` of a category named `n`, or -1.
pub open spec fn find_cat_from(cats: Seq<CategoryView>, n: Seq<char>, i: int) -> int
    decreases cats.len() - i,
{
    if i >= cats.len() {
        -1
    } else if cats[i].name == n {
        i
    } else {
        find_cat_from(cats, n, i + 1)
    }
}

/// Folds one loaded category into the accumulator: its assets are merged,
/// first-write-wins, into the accumulator category of the same name; its
/// encrypted assets are dropped; an unmatched name is a schema error.
pub open spec fn spec_merge_category(acc: ManifestView, c: CategoryView) -> Result<
    ManifestView,
    Seq<char>,
> {
    let j = find_cat_from(acc.categories, c.name, 0);
    if j < 0 {
        Err(c.name)
    } else {
        let merged = CategoryView {
            name: acc.categories[j].name,
            assets: fww_merge(acc.categories[j].assets, c.assets),
            encrypted_assets: acc.categories[j].encrypted_assets,
        };
        Ok(ManifestView { categories: acc.categories.update(j, merged), ..acc })
    }
}

/// Folds a sequence of loaded categories, in order, stopping at the first
/// schema error.
pub open spec fn spec_merge_categories(acc: ManifestView, cs: Seq<CategoryView>) -> Result<
    ManifestView,
    Seq<char>,
>
    decreases cs.len(),
{
    if cs.len() == 0 {
        Ok(acc)
    } else {
        match spec_merge_category(acc, cs[0]) {
            Err(n) => Err(n),
            Ok(m) => spec_merge_categories(m, cs.drop_first()),
        }
    }
}

/// Folds one whole loaded manifest into the accumulator: every category,
/// then the raw assets, both first-write-wins. The error is the first
/// loaded category name that is not in the accumulator's schema.
pub open spec fn spec_merge_manifest(acc: ManifestView, inc: ManifestView) -> Result<
    ManifestView,
    Seq<char>,
> {
    match spec_merge_categories(acc, inc.categories) {
        Err(n) => Err(n),
        Ok(m) => Ok(ManifestView { raw_assets: fww_merge(m.raw_assets, inc.raw_assets), ..m }),
    }
}

/// Merging touches only the asset buckets: header metadata, the category
/// names and their order, and the dead encrypted buckets all survive.
pub proof fn lemma_merge_categories_frame(acc: ManifestView, cs: Seq<CategoryView>)
    ensures
        spec_merge_categories(acc, cs) matches Ok(m) ==> {
            &&& m.game_object == acc.game_object
            &&& m.enabled == acc.enabled
            &&& m.script == acc.script
            &&& m.name == acc.name
            &&& m.raw_assets == acc.raw_assets
            &&& m.categories.len() == acc.categories.len()
            &&& forall|i: int|
                0 <= i < acc.categories.len() ==> (#[trigger] m.categories[i]).name
                    == acc.categories[i].name && m.categories[i].encrypted_assets
                    == acc.categories[i].encrypted_assets
        },
    decreases cs.len(),
{
    if cs.len() > 0 {
        match spec_merge_category(acc, cs[0]) {
            Err(_) => {},
            Ok(m1) => {
                lemma_find_cat_in_range(acc.categories, cs[0].name, 0);
                lemma_merge_categories_frame(m1, cs.drop_first());
            },
        }
    }
}

/// As [`lemma_merge_categories_frame`], for a whole manifest merge.
pub proof fn lemma_merge_manifest_frame(acc: ManifestView, inc: ManifestView)
    ensures
        spec_merge_manifest(acc, inc) matches Ok(m) ==> {
            &&& m.game_object == acc.game_object
            &&& m.enabled == acc.enabled
            &&& m.script == acc.script
            &&& m.name == acc.name
            &&& m.categories.len() == acc.categories.len()
            &&& forall|i: int|
                0 <= i < acc.categories.len() ==> (#[trigger] m.categories[i]).name
                    == acc.categories[i].name && m.categories[i].encrypted_assets
                    == acc.categories[i].encrypted_assets
        },
{
    lemma_merge_categories_frame(acc, inc.categories);
}

/// Merging preserves the manifest invariant: no duplicate names appear in
/// any bucket, whatever the incoming manifest holds.
pub proof fn lemma_merge_manifest_wf(acc: ManifestView, inc: ManifestView)
    requires
        acc.wf(),
    ensures
        spec_merge_manifest(acc, inc) matches Ok(m) ==> m.wf(),
{
    lemma_merge_categories_wf(acc, inc.categories);
    match spec_merge_categories(acc, inc.categories) {
        Err(_) => {},
        Ok(m1) => {
            crate::asset::lemma_fww_merge_unique(m1.raw_assets, inc.raw_assets);
        },
    }
}

proof fn lemma_merge_categories_wf(acc: ManifestView, cs: Seq<CategoryView>)
    requires
        acc.wf(),
    ensures
        spec_merge_categories(acc, cs) matches Ok(m) ==> m.wf(),
    decreases cs.len(),
{
    if cs.len() > 0 {
        match spec_merge_category(acc, cs[0]) {
            Err(_) => {},
            Ok(m1) => {
                let j = find_cat_from(acc.categories, cs[0].name, 0);
                lemma_find_cat_in_range(acc.categories, cs[0].name, 0);
                crate::asset::lemma_fww_merge_unique(acc.categories[j].assets, cs[0].assets);
                assert(m1.wf());
                lemma_merge_categories_wf(m1, cs.drop_first());
            },
        }
    }
}

/// A found index lies within the category list and bears the sought name.
pub proof fn lemma_find_cat_in_range(cats: Seq<CategoryView>, n: Seq<char>, i: int)
    requires
        0 <= i,
    ensures
        find_cat_from(cats, n, i) >= 0 ==> i <= find_cat_from(cats, n, i) < cats.len()
            && cats[find_cat_from(cats, n, i)].name == n,
    decreases cats.len() - i,
{
    if i < cats.len() && cats[i].name != n {
        lemma_find_cat_in_range(cats, n, i + 1);
    }
}

/// The first category of `cats` named `n`, by linear search.
fn find_category(cats: &Vec<AssetCategory>, name: &String) -> (r: Option<usize>)
    ensures
        ({
            let cv = cats@.map_values(|c: AssetCategory| c@);
            let j = find_cat_from(cv, name@, 0);
            match r {
                Some(i) => j == i,
                None => j < 0,
            }
        }),
{
    let ghost cv = cats@.map_values(|c: AssetCategory| c@);
    let mut i: usize = 0;
    while i < cats.len()
        invariant
            0 <= i <= cats@.len(),
            cv == cats@.map_values(|c: AssetCategory| c@),
            find_cat_from(cv, name@, 0) == find_cat_from(cv, name@, i as int),
        decreases cats@.len() - i,
    {
        if cats[i].name == *name {
            assert(cv[i as int].name == name@);
            return Some(i);
        }
        assert(cv[i as int].name != name@);
        i += 1;
    }
    None
}

/// Folds one loaded manifest into the accumulator, as the specification
/// functions above describe, consuming both; the error carries the first
/// loaded category name outside the accumulator's schema.
#[verifier::loop_isolation(false)]
pub fn merge_manifest(acc: Manifest, inc: Manifest) -> (r: Result<Manifest, String>)
    ensures
        match r {
            Ok(m) => spec_merge_manifest(acc@, inc@) == Ok::<ManifestView, Seq<char>>(m@),
            Err(n) => spec_merge_manifest(acc@, inc@) == Err::<ManifestView, Seq<char>>(n@),
        },
{
    let ghost acc0 = acc@;
    let ghost inc_cats0 = inc.categories@.map_values(|c: AssetCategory| c@);
    let ghost inc_raw0 = views_of(inc.raw_assets@);
    proof {
        assert(inc@.categories =~= inc_cats0);
        assert(inc@.raw_assets =~= inc_raw0);
    }
    let mut acc = acc;
    let Manifest { categories: inc_categories, raw_assets: inc_raw, .. } = inc;
    let mut cats = inc_categories;
    while cats.len() > 0
        invariant
            inc@.categories == inc_cats0,
            inc@.raw_assets == inc_raw0,
            spec_merge_categories(acc0, inc_cats0) == spec_merge_categories(
                acc@,
                cats@.map_values(|c: AssetCategory| c@),
            ),
        decreases cats@.len(),
    {
        let ghost before = cats@.map_values(|c: AssetCategory| c@);
        let c = cats.remove(0);
        proof {
            assert(cats@.map_values(|cc: AssetCategory| cc@) =~= before.drop_first());
            assert(before[0] == c@);
        }
        match find_category(&acc.categories, &c.name) {
            None => {
                proof {
                    assert(spec_merge_category(acc@, c@) == Err::<ManifestView, Seq<char>>(c@.name));
                    assert(spec_merge_categories(acc@, before) == Err::<ManifestView, Seq<char>>(
                        c@.name,
                    ));
                    assert(inc@.categories =~= inc_cats0);
                }
                return Err(c.name);
            },
            Some(j) => {
                proof {
                    lemma_find_cat_in_range(
                        acc.categories@.map_values(|cc: AssetCategory| cc@),
                        c@.name,
                        0,
                    );
                }
                let ghost acc_before = acc@;
                let mut target = acc.categories.remove(j);
                crate::asset::merge_assets(&mut target.assets, c.assets);
                acc.categories.insert(j, target);
                proof {
                    let merged = CategoryView {
                        name: acc_before.categories[j as int].name,
                        assets: fww_merge(acc_before.categories[j as int].assets, c@.assets),
                        encrypted_assets: acc_before.categories[j as int].encrypted_assets,
                    };
                    assert(acc@.categories =~= acc_before.categories.update(j as int, merged));
                    assert(acc@ == spec_merge_category(acc_before, c@)->Ok_0);
                }
            },
        }
    }
    let mut result = acc;
    let ghost mid = result@;
    crate::asset::merge_assets(&mut result.raw_assets, inc_raw);
    proof {
        assert(inc@.categories =~= inc_cats0);
        assert(inc@.raw_assets =~= inc_raw0);
        assert(result@ == (ManifestView { raw_assets: fww_merge(mid.raw_assets, inc_raw0), ..mid }));
    }
    Ok(result)
}


/// What ends an aggregation run: a folder whose manifest file could not
/// be read, one whose text could not be loaded, or a loaded category
/// name outside the fixed schema. Each carries the offending path.
#[derive(Debug)]
pub enum AggregateError {
    IOError { path: String },
    ParseError { path: String },
    SchemaMismatch { path: String, category: String },
}

/// Mathematical image of an [`AggregateError`].
#[verifier::ext_equal]
pub ghost enum AggregateErrorView {
    IOError { path: Seq<char> },
    ParseError { path: Seq<char> },
    SchemaMismatch { path: Seq<char>, category: Seq<char> },
}

impl View for AggregateError {
    type V = AggregateErrorView;

    open spec fn view(&self) -> AggregateErrorView {
        match self {
            AggregateError::IOError { path } => AggregateErrorView::IOError { path: path@ },
            AggregateError::ParseError { path } => AggregateErrorView::ParseError { path: path@ },
            AggregateError::SchemaMismatch { path, category } => AggregateErrorView::SchemaMismatch {
                path: path@,
                category: category@,
            },
        }
    }
}

/// One folder's manifest file, as handed in by the caller: the path it
/// was (to be) read from, and its text, or nothing where reading failed.
pub struct FolderInput {
    pub path: String,
    pub content: Option<String>,
}

/// Mathematical image of a [`FolderInput`].
#[verifier::ext_equal]
pub ghost struct FolderInputView {
    pub path: Seq<char>,
    pub content: Option<Seq<char>>,
}

impl View for FolderInput {
    type V = FolderInputView;

    open spec fn view(&self) -> FolderInputView {
        FolderInputView {
            path: self.path@,
            content: match self.content {
                None => None,
                Some(s) => Some(s@),
            },
        }
    }
}

/// Folding every folder, in order, into a fresh accumulator: the first
/// unreadable file, unloadable document or schema mismatch ends the run
/// with the matching error.
pub open spec fn spec_aggregate_from(acc: ManifestView, inputs: Seq<FolderInputView>) -> Result<
    ManifestView,
    AggregateErrorView,
>
    decreases inputs.len(),
{
    if inputs.len() == 0 {
        Ok(acc)
    } else {
        let f = inputs[0];
        match f.content {
            None => Err(AggregateErrorView::IOError { path: f.path }),
            Some(text) => match sp_load_manifest(text) {
                None => Err(AggregateErrorView::ParseError { path: f.path }),
                Some(m) => match spec_merge_manifest(acc, m) {
                    Err(n) => Err(
                        AggregateErrorView::SchemaMismatch { path: f.path, category: n },
                    ),
                    Ok(acc2) => spec_aggregate_from(acc2, inputs.drop_first()),
                },
            },
        }
    }
}

/// The whole aggregation, from the fresh accumulator.
pub open spec fn spec_aggregate(inputs: Seq<FolderInputView>) -> Result<
    ManifestView,
    AggregateErrorView,
> {
    spec_aggregate_from(initial_manifest(), inputs)
}

/// Aggregates the given per-folder manifest files, in order. A returned
/// manifest always carries exactly the two predefined categories, in
/// order, and no bucket of it holds two assets of one name.
#[verifier::loop_isolation(false)]
pub fn aggregate(inputs: Vec<FolderInput>) -> (r: Result<Manifest, AggregateError>)
    ensures
        match r {
            Ok(m) => spec_aggregate(inputs@.map_values(|f: FolderInput| f@)) == Ok::<
                ManifestView,
                AggregateErrorView,
            >(m@) && m@.wf() && m@.has_result_schema(),
            Err(e) => spec_aggregate(inputs@.map_values(|f: FolderInput| f@)) == Err::<
                ManifestView,
                AggregateErrorView,
            >(e@),
        },
{
    let ghost ivs = inputs@.map_values(|f: FolderInput| f@);
    let mut acc = Manifest::new();
    let mut rest = inputs;
    proof {
        assert(rest@.map_values(|f: FolderInput| f@) =~= ivs);
    }
    while rest.len() > 0
        invariant
            acc@.wf(),
            acc@.has_result_schema(),
            spec_aggregate(ivs) == spec_aggregate_from(
                acc@,
                rest@.map_values(|f: FolderInput| f@),
            ),
        decreases rest@.len(),
    {
        let ghost before = rest@.map_values(|f: FolderInput| f@);
        let f = rest.remove(0);
        proof {
            assert(rest@.map_values(|ff: FolderInput| ff@) =~= before.drop_first());
            assert(before[0] == f@);
        }
        let FolderInput { path, content } = f;
        match content {
            None => {
                return Err(AggregateError::IOError { path });
            },
            Some(text) => {
                match crate::loader::parse_manifest(text.as_str()) {
                    None => {
                        return Err(AggregateError::ParseError { path });
                    },
                    Some(m) => {
                        let ghost acc_prev = acc@;
                        let ghost mv = m@;
                        match merge_manifest(acc, m) {
                            Err(n) => {
                                return Err(
                                    AggregateError::SchemaMismatch { path, category: n },
                                );
                            },
                            Ok(next) => {
                                proof {
                                    lemma_merge_manifest_wf(acc_prev, mv);
                                    lemma_merge_manifest_frame(acc_prev, mv);
                                }
                                acc = next;
                            },
                        }
                    },
                }
            },
        }
    }
    proof {
        assert(rest@.map_values(|f: FolderInput| f@) =~= Seq::<FolderInputView>::empty());
    }
    Ok(acc)
}


/// The names contributed to the category named `target` by a list of
/// loaded categories, in the aggregate.
pub open spec fn cats_names_into(cs: Seq<CategoryView>, target: Seq<char>) -> Set<Seq<char>>
    decreases cs.len(),
{
    if cs.len() == 0 {
        Set::<Seq<char>>::empty()
    } else {
        (if cs[0].name == target {
            name_set(cs[0].assets)
        } else {
            Set::<Seq<char>>::empty()
        }).union(cats_names_into(cs.drop_first(), target))
    }
}

/// After a category fold, each bucket holds exactly its old names and
/// those of the same-named loaded categories: payloads never decide
/// which names are present.
pub proof fn lemma_merge_categories_names(acc: ManifestView, cs: Seq<CategoryView>)
    requires
        forall|i: int, j: int|
            0 <= i < j < acc.categories.len() ==> acc.categories[i].name
                != acc.categories[j].name,
    ensures
        spec_merge_categories(acc, cs) matches Ok(m) ==> forall|i: int|
            0 <= i < acc.categories.len() ==> name_set(#[trigger] m.categories[i].assets)
                == name_set(acc.categories[i].assets).union(
                cats_names_into(cs, acc.categories[i].name),
            ),
    decreases cs.len(),
{
    if cs.len() > 0 {
        match spec_merge_category(acc, cs[0]) {
            Err(_) => {},
            Ok(m1) => {
                let j = find_cat_from(acc.categories, cs[0].name, 0);
                lemma_find_cat_in_range(acc.categories, cs[0].name, 0);
                lemma_merge_categories_names(m1, cs.drop_first());
                lemma_fww_merge_names(acc.categories[j].assets, cs[0].assets);
                match spec_merge_categories(m1, cs.drop_first()) {
                    Err(_) => {},
                    Ok(m) => {
                        assert forall|i: int| 0 <= i < acc.categories.len() implies name_set(
                            #[trigger] m.categories[i].assets,
                        ) == name_set(acc.categories[i].assets).union(
                            cats_names_into(cs, acc.categories[i].name),
                        ) by {
                            assert(m1.categories[i].name == acc.categories[i].name);
                            assert(name_set(m.categories[i].assets) == name_set(
                                m1.categories[i].assets,
                            ).union(cats_names_into(cs.drop_first(), m1.categories[i].name)));
                            if i == j {
                                assert(name_set(m1.categories[i].assets) =~= name_set(
                                    acc.categories[i].assets,
                                ).union(name_set(cs[0].assets)));
                                assert(name_set(acc.categories[i].assets).union(
                                    name_set(cs[0].assets),
                                ).union(cats_names_into(cs.drop_first(), acc.categories[i].name))
                                    =~= name_set(acc.categories[i].assets).union(
                                    cats_names_into(cs, acc.categories[i].name),
                                ));
                            } else {
                                assert(m1.categories[i] == acc.categories[i]);
                                assert(cs[0].name != acc.categories[i].name);
                                assert(name_set(acc.categories[i].assets).union(
                                    cats_names_into(cs.drop_first(), acc.categories[i].name),
                                ) =~= name_set(acc.categories[i].assets).union(
                                    cats_names_into(cs, acc.categories[i].name),
                                ));
                            }
                        }
                    },
                }
            },
        }
    }
}

proof fn lemma_find_cat_same_names(cs1: Seq<CategoryView>, cs2: Seq<CategoryView>, n: Seq<char>, i: int)
    requires
        0 <= i,
        cs1.len() == cs2.len(),
        forall|k: int| 0 <= k < cs1.len() ==> cs1[k].name == cs2[k].name,
    ensures
        find_cat_from(cs1, n, i) == find_cat_from(cs2, n, i),
    decreases cs1.len() - i,
{
    if i < cs1.len() {
        lemma_find_cat_same_names(cs1, cs2, n, i + 1);
    }
}

/// Whether a category fold succeeds depends only on the accumulator's
/// category names.
proof fn lemma_merge_categories_same_ok(acc1: ManifestView, acc2: ManifestView, cs: Seq<CategoryView>)
    requires
        acc1.categories.len() == acc2.categories.len(),
        forall|k: int| 0 <= k < acc1.categories.len() ==> acc1.categories[k].name == acc2.categories[k].name,
        spec_merge_categories(acc1, cs) is Ok,
    ensures
        spec_merge_categories(acc2, cs) is Ok,
    decreases cs.len(),
{
    if cs.len() > 0 {
        lemma_find_cat_same_names(acc1.categories, acc2.categories, cs[0].name, 0);
        lemma_find_cat_in_range(acc1.categories, cs[0].name, 0);
        lemma_find_cat_in_range(acc2.categories, cs[0].name, 0);
        match (spec_merge_category(acc1, cs[0]), spec_merge_category(acc2, cs[0])) {
            (Ok(m1), Ok(m2)) => {
                lemma_merge_categories_same_ok(m1, m2, cs.drop_first());
            },
            _ => {},
        }
    }
}

/// Merging one loaded manifest twice yields the same asset-name sets,
/// per category and for the raw bucket, as merging it once: the merge is
/// idempotent on names, though payloads decide nothing either way.
pub proof fn lemma_merge_idempotent_names(acc: ManifestView, m: ManifestView)
    requires
        acc.wf(),
        spec_merge_manifest(acc, m) is Ok,
    ensures
        spec_merge_manifest(spec_merge_manifest(acc, m)->Ok_0, m) is Ok,
        ({
            let m1 = spec_merge_manifest(acc, m)->Ok_0;
            let m2 = spec_merge_manifest(m1, m)->Ok_0;
            &&& m2.categories.len() == m1.categories.len()
            &&& forall|i: int|
                0 <= i < m1.categories.len() ==> name_set(#[trigger] m2.categories[i].assets)
                    == name_set(m1.categories[i].assets)
            &&& name_set(m2.raw_assets) == name_set(m1.raw_assets)
        }),
{
    let mc1 = spec_merge_categories(acc, m.categories)->Ok_0;
    let m1 = spec_merge_manifest(acc, m)->Ok_0;
    lemma_merge_categories_frame(acc, m.categories);
    lemma_merge_manifest_frame(acc, m);
    lemma_merge_manifest_wf(acc, m);
    lemma_merge_categories_names(acc, m.categories);
    assert(m1.categories == mc1.categories);
    assert(m1.raw_assets == fww_merge(mc1.raw_assets, m.raw_assets));
    assert(mc1.raw_assets == acc.raw_assets);
    lemma_merge_categories_same_ok(acc, m1, m.categories);
    let mc2 = spec_merge_categories(m1, m.categories)->Ok_0;
    let m2 = spec_merge_manifest(m1, m)->Ok_0;
    lemma_merge_categories_frame(m1, m.categories);
    lemma_merge_manifest_frame(m1, m);
    lemma_merge_categories_names(m1, m.categories);
    lemma_fww_merge_names(acc.raw_assets, m.raw_assets);
    lemma_fww_merge_names(m1.raw_assets, m.raw_assets);
    assert forall|i: int| 0 <= i < m1.categories.len() implies name_set(
        #[trigger] m2.categories[i].assets,
    ) == name_set(m1.categories[i].assets) by {
        assert(name_set(m1.categories[i].assets) == name_set(acc.categories[i].assets).union(
            cats_names_into(m.categories, acc.categories[i].name),
        ));
        assert(name_set(m2.categories[i].assets) == name_set(m1.categories[i].assets).union(
            cats_names_into(m.categories, m1.categories[i].name),
        ));
        assert(m1.categories[i].name == acc.categories[i].name);
        assert(name_set(acc.categories[i].assets).union(
            cats_names_into(m.categories, acc.categories[i].name),
        ).union(cats_names_into(m.categories, acc.categories[i].name)) =~= name_set(
            acc.categories[i].assets,
        ).union(cats_names_into(m.categories, acc.categories[i].name)));
    }
    assert(name_set(m2.raw_assets) =~= name_set(m1.raw_assets));
}

proof fn lemma_aggregate_from_duplicate(
    acc: ManifestView,
    inputs: Seq<FolderInputView>,
    f: FolderInputView,
)
    requires
        acc.wf(),
        spec_aggregate_from(acc, inputs.push(f)) is Ok,
    ensures
        spec_aggregate_from(acc, inputs.push(f).push(f)) is Ok,
        ({
            let m1 = spec_aggregate_from(acc, inputs.push(f))->Ok_0;
            let m2 = spec_aggregate_from(acc, inputs.push(f).push(f))->Ok_0;
            &&& m2.categories.len() == m1.categories.len()
            &&& forall|i: int|
                0 <= i < m1.categories.len() ==> name_set(#[trigger] m2.categories[i].assets)
                    == name_set(m1.categories[i].assets)
            &&& name_set(m2.raw_assets) == name_set(m1.raw_assets)
        }),
    decreases inputs.len(),
{
    if inputs.len() == 0 {
        assert(inputs.push(f) =~= seq![f]);
        assert(inputs.push(f).push(f) =~= seq![f, f]);
        assert(seq![f][0] == f && seq![f, f][0] == f);
        assert(seq![f].drop_first() =~= Seq::<FolderInputView>::empty());
        assert(seq![f, f].drop_first() =~= seq![f]);
        assert(spec_aggregate_from(acc, seq![f]) is Ok);
        match f.content {
            None => {
                assert(false);
            },
            Some(text) => {
                match sp_load_manifest(text) {
                    None => {
                        assert(false);
                    },
                    Some(mf) => {
                        match spec_merge_manifest(acc, mf) {
                            Err(_) => {
                                assert(false);
                            },
                            Ok(m1) => {
                                lemma_merge_idempotent_names(acc, mf);
                                let m2 = spec_merge_manifest(m1, mf)->Ok_0;
                                assert(spec_aggregate_from(
                                    m1,
                                    Seq::<FolderInputView>::empty(),
                                ) == Ok::<ManifestView, AggregateErrorView>(m1));
                                assert(spec_aggregate_from(
                                    m2,
                                    Seq::<FolderInputView>::empty(),
                                ) == Ok::<ManifestView, AggregateErrorView>(m2));
                                assert(spec_aggregate_from(acc, seq![f]) == Ok::<
                                    ManifestView,
                                    AggregateErrorView,
                                >(m1));
                                assert(spec_aggregate_from(m1, seq![f]) == Ok::<
                                    ManifestView,
                                    AggregateErrorView,
                                >(m2));
                                assert(spec_aggregate_from(acc, seq![f, f]) == Ok::<
                                    ManifestView,
                                    AggregateErrorView,
                                >(m2));
                            },
                        }
                    },
                }
            },
        }
    } else {
        let f0 = inputs[0];
        assert(inputs.push(f)[0] == f0);
        assert(inputs.push(f).push(f)[0] == f0);
        assert(inputs.push(f).drop_first() =~= inputs.drop_first().push(f));
        assert(inputs.push(f).push(f).drop_first() =~= inputs.drop_first().push(f).push(f));
        assert(spec_aggregate_from(acc, inputs.push(f)) is Ok);
        match f0.content {
            None => {
                assert(false);
            },
            Some(text) => {
                match sp_load_manifest(text) {
                    None => {
                        assert(false);
                    },
                    Some(mf) => {
                        match spec_merge_manifest(acc, mf) {
                            Err(_) => {
                                assert(false);
                            },
                            Ok(acc2) => {
                                lemma_merge_manifest_wf(acc, mf);
                                assert(spec_aggregate_from(acc, inputs.push(f))
                                    == spec_aggregate_from(acc2, inputs.drop_first().push(f)));
                                assert(spec_aggregate_from(acc, inputs.push(f).push(f))
                                    == spec_aggregate_from(
                                    acc2,
                                    inputs.drop_first().push(f).push(f),
                                ));
                                lemma_aggregate_from_duplicate(acc2, inputs.drop_first(), f);
                            },
                        }
                    },
                }
            },
        }
    }
}

/// Aggregating the same folder twice in a row yields the same asset-name
/// sets, per category and for the raw bucket, as aggregating it once,
/// whatever folders came before: duplicate folders change no name.
pub proof fn lemma_aggregate_duplicate_folder(inputs: Seq<FolderInputView>, f: FolderInputView)
    requires
        spec_aggregate(inputs.push(f)) is Ok,
    ensures
        spec_aggregate(inputs.push(f).push(f)) is Ok,
        ({
            let m1 = spec_aggregate(inputs.push(f))->Ok_0;
            let m2 = spec_aggregate(inputs.push(f).push(f))->Ok_0;
            &&& m2.categories.len() == m1.categories.len()
            &&& forall|i: int|
                0 <= i < m1.categories.len() ==> name_set(#[trigger] m2.categories[i].assets)
                    == name_set(m1.categories[i].assets)
            &&& name_set(m2.raw_assets) == name_set(m1.raw_assets)
        }),
{
    lemma_initial_manifest_wf();
    lemma_aggregate_from_duplicate(initial_manifest(), inputs, f);
}

proof fn lemma_initial_manifest_wf()
    ensures
        initial_manifest().wf(),
{
    reveal_strlit("Master");
    reveal_strlit("Others");
    let m = initial_manifest();
    assert(m.categories[0].wf());
    assert(m.categories[1].wf());
    assert(m.categories[0].name[0] == 'M' && m.categories[1].name[0] == 'O');
}

/// The names one folder's loaded manifest contributes to the category
/// named `target`, or none where its file is absent or unloadable.
pub open spec fn folder_cat_names(f: FolderInputView, target: Seq<char>) -> Set<Seq<char>> {
    match f.content {
        None => Set::<Seq<char>>::empty(),
        Some(text) => match sp_load_manifest(text) {
            None => Set::<Seq<char>>::empty(),
            Some(m) => cats_names_into(m.categories, target),
        },
    }
}

/// The names one folder's loaded manifest contributes to the raw bucket.
pub open spec fn folder_raw_names(f: FolderInputView) -> Set<Seq<char>> {
    match f.content {
        None => Set::<Seq<char>>::empty(),
        Some(text) => match sp_load_manifest(text) {
            None => Set::<Seq<char>>::empty(),
            Some(m) => name_set(m.raw_assets),
        },
    }
}

/// The union of the contributions of a whole run, in order.
pub open spec fn run_cat_names(inputs: Seq<FolderInputView>, target: Seq<char>) -> Set<Seq<char>>
    decreases inputs.len(),
{
    if inputs.len() == 0 {
        Set::<Seq<char>>::empty()
    } else {
        folder_cat_names(inputs[0], target).union(run_cat_names(inputs.drop_first(), target))
    }
}

/// The union of the raw-bucket contributions of a whole run.
pub open spec fn run_raw_names(inputs: Seq<FolderInputView>) -> Set<Seq<char>>
    decreases inputs.len(),
{
    if inputs.len() == 0 {
        Set::<Seq<char>>::empty()
    } else {
        folder_raw_names(inputs[0]).union(run_raw_names(inputs.drop_first()))
    }
}

proof fn lemma_aggregate_from_names(acc: ManifestView, inputs: Seq<FolderInputView>)
    requires
        acc.wf(),
        spec_aggregate_from(acc, inputs) is Ok,
    ensures
        ({
            let m = spec_aggregate_from(acc, inputs)->Ok_0;
            &&& m.categories.len() == acc.categories.len()
            &&& forall|i: int|
                0 <= i < acc.categories.len() ==> (#[trigger] m.categories[i]).name
                    == acc.categories[i].name
            &&& forall|i: int|
                0 <= i < acc.categories.len() ==> name_set(#[trigger] m.categories[i].assets)
                    == name_set(acc.categories[i].assets).union(
                    run_cat_names(inputs, acc.categories[i].name),
                )
            &&& name_set(m.raw_assets) == name_set(acc.raw_assets).union(run_raw_names(inputs))
        }),
    decreases inputs.len(),
{
    let m = spec_aggregate_from(acc, inputs)->Ok_0;
    if inputs.len() == 0 {
        assert forall|i: int| 0 <= i < acc.categories.len() implies name_set(
            #[trigger] m.categories[i].assets,
        ) == name_set(acc.categories[i].assets).union(
            run_cat_names(inputs, acc.categories[i].name),
        ) by {
            assert(name_set(acc.categories[i].assets).union(Set::<Seq<char>>::empty())
                =~= name_set(acc.categories[i].assets));
        }
        assert(name_set(acc.raw_assets).union(Set::<Seq<char>>::empty()) =~= name_set(
            acc.raw_assets,
        ));
    } else {
        let f0 = inputs[0];
        match f0.content {
            None => {
                assert(false);
            },
            Some(text) => {
                match sp_load_manifest(text) {
                    None => {
                        assert(false);
                    },
                    Some(mf) => {
                        match spec_merge_manifest(acc, mf) {
                            Err(_) => {
                                assert(false);
                            },
                            Ok(acc2) => {
                                lemma_merge_manifest_wf(acc, mf);
                                lemma_merge_manifest_frame(acc, mf);
                                lemma_merge_categories_names(acc, mf.categories);
                                lemma_merge_categories_frame(acc, mf.categories);
                                let mc = spec_merge_categories(acc, mf.categories)->Ok_0;
                                assert(acc2.categories == mc.categories);
                                assert(acc2.raw_assets == fww_merge(mc.raw_assets, mf.raw_assets));
                                assert(mc.raw_assets == acc.raw_assets);
                                lemma_fww_merge_names(acc.raw_assets, mf.raw_assets);
                                lemma_aggregate_from_names(acc2, inputs.drop_first());
                                assert forall|i: int| 0 <= i < acc.categories.len() implies
                                    name_set(#[trigger] m.categories[i].assets) == name_set(
                                    acc.categories[i].assets,
                                ).union(run_cat_names(inputs, acc.categories[i].name)) by {
                                    assert(acc2.categories[i].name == acc.categories[i].name);
                                    assert(name_set(acc2.categories[i].assets) == name_set(
                                        acc.categories[i].assets,
                                    ).union(cats_names_into(mf.categories, acc.categories[i].name)));
                                    assert(name_set(m.categories[i].assets) == name_set(
                                        acc2.categories[i].assets,
                                    ).union(run_cat_names(inputs.drop_first(), acc.categories[i].name)));
                                    assert(name_set(acc.categories[i].assets).union(
                                        cats_names_into(mf.categories, acc.categories[i].name),
                                    ).union(run_cat_names(
                                        inputs.drop_first(),
                                        acc.categories[i].name,
                                    )) =~= name_set(acc.categories[i].assets).union(
                                        run_cat_names(inputs, acc.categories[i].name),
                                    ));
                                }
                                assert(name_set(acc2.raw_assets) =~= name_set(
                                    acc.raw_assets,
                                ).union(name_set(mf.raw_assets)));
                                assert(name_set(acc.raw_assets).union(
                                    name_set(mf.raw_assets),
                                ).union(run_raw_names(inputs.drop_first())) =~= name_set(
                                    acc.raw_assets,
                                ).union(run_raw_names(inputs)));
                            },
                        }
                    },
                }
            },
        }
    }
}

/// Which names a successful run gathers never depends on payloads or on
/// anything but which folders contributed them: each result category
/// holds exactly the union, over the folders in order, of the names their
/// loaded manifests put into it, and the raw bucket likewise.
pub proof fn lemma_aggregate_names(inputs: Seq<FolderInputView>)
    requires
        spec_aggregate(inputs) is Ok,
    ensures
        ({
            let m = spec_aggregate(inputs)->Ok_0;
            &&& forall|i: int|
                0 <= i < m.categories.len() ==> name_set(#[trigger] m.categories[i].assets)
                    == run_cat_names(inputs, m.categories[i].name)
            &&& name_set(m.raw_assets) == run_raw_names(inputs)
        }),
{
    lemma_initial_manifest_wf();
    lemma_aggregate_from_names(initial_manifest(), inputs);
    let m = spec_aggregate(inputs)->Ok_0;
    assert forall|i: int| 0 <= i < m.categories.len() implies name_set(
        #[trigger] m.categories[i].assets,
    ) == run_cat_names(inputs, m.categories[i].name) by {
        assert(name_set(initial_manifest().categories[i].assets) =~= Set::<Seq<char>>::empty());
        assert(Set::<Seq<char>>::empty().union(run_cat_names(
            inputs,
            initial_manifest().categories[i].name,
        )) =~= run_cat_names(inputs, initial_manifest().categories[i].name));
    }
    assert(name_set(initial_manifest().raw_assets) =~= Set::<Seq<char>>::empty());
    assert(Set::<Seq<char>>::empty().union(run_raw_names(inputs)) =~= run_raw_names(inputs));
}

/// Swapping two neighbouring folders changes no gathered name: with the
/// union shape of [`run_cat_names`] and [`run_raw_names`], enumeration
/// order decides payloads at most, never which names are present.
pub proof fn lemma_run_names_swap(inputs: Seq<FolderInputView>, k: int, target: Seq<char>)
    requires
        0 <= k,
        k + 1 < inputs.len(),
    ensures
        run_cat_names(inputs.update(k, inputs[k + 1]).update(k + 1, inputs[k]), target)
            == run_cat_names(inputs, target),
        run_raw_names(inputs.update(k, inputs[k + 1]).update(k + 1, inputs[k]))
            == run_raw_names(inputs),
    decreases k,
{
    let sw = inputs.update(k, inputs[k + 1]).update(k + 1, inputs[k]);
    if k == 0 {
        assert(sw[0] == inputs[1] && sw[1] == inputs[0]);
        assert(sw.drop_first()[0] == inputs[0]);
        assert(inputs.drop_first()[0] == inputs[1]);
        assert(sw.drop_first().drop_first() =~= inputs.drop_first().drop_first());
        assert(run_cat_names(sw, target) =~= run_cat_names(inputs, target)) by {
            assert(run_cat_names(sw.drop_first(), target) == folder_cat_names(
                inputs[0],
                target,
            ).union(run_cat_names(sw.drop_first().drop_first(), target)));
            assert(run_cat_names(inputs.drop_first(), target) == folder_cat_names(
                inputs[1],
                target,
            ).union(run_cat_names(inputs.drop_first().drop_first(), target)));
        }
        assert(run_raw_names(sw) =~= run_raw_names(inputs)) by {
            assert(run_raw_names(sw.drop_first()) == folder_raw_names(inputs[0]).union(
                run_raw_names(sw.drop_first().drop_first()),
            ));
            assert(run_raw_names(inputs.drop_first()) == folder_raw_names(inputs[1]).union(
                run_raw_names(inputs.drop_first().drop_first()),
            ));
        }
    } else {
        assert(sw[0] == inputs[0]);
        assert(sw.drop_first() =~= inputs.drop_first().update(k - 1, inputs.drop_first()[k])
            .update(k, inputs.drop_first()[k - 1]));
        lemma_run_names_swap(inputs.drop_first(), k - 1, target);
    }
}

} // verus!
