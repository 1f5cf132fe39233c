//! The asset data entity and the first-write-wins merge over sequences
//! of assets keyed by name.

use vstd::prelude::*;

verus! {

/// A named content unit. Identity is the `name` alone; `hash` and `size`
/// are payload carried along with it.
pub struct Asset {
    pub name: String,
    pub hash: String,
    pub size: i64,
}

/// Mathematical image of an [`Asset`].
#[verifier::ext_equal]
pub ghost struct AssetView {
    pub name: Seq<char>,
    pub hash: Seq<char>,
    pub size: int,
}

impl View for Asset {
    type V = AssetView;

    open spec fn view(&self) -> AssetView {
        AssetView { name: self.name@, hash: self.hash@, size: self.size as int }
    }
}

/// The views of a sequence of assets.
pub open spec fn views_of(s: Seq<Asset>) -> Seq<AssetView> {
    s.map_values(|a: Asset| a@)
}

/// Whether some asset in `s` bears the name `n`.
pub open spec fn has_name(s: Seq<AssetView>, n: Seq<char>) -> bool {
    exists|i: int| 0 <= i < s.len() && s[i].name == n
}

/// No two assets in `s` share a name.
pub open spec fn unique_names(s: Seq<AssetView>) -> bool {
    forall|i: int, j: int| 0 <= i < j < s.len() ==> s[i].name != s[j].name
}

/// First-write-wins insertion: an incoming asset whose name is already
/// present is discarded; otherwise it is appended.
pub open spec fn fww_insert(acc: Seq<AssetView>, a: AssetView) -> Seq<AssetView> {
    if has_name(acc, a.name) {
        acc
    } else {
        acc.push(a)
    }
}

/// First-write-wins merge of a whole incoming sequence, in order.
pub open spec fn fww_merge(acc: Seq<AssetView>, inc: Seq<AssetView>) -> Seq<AssetView>
    decreases inc.len(),
{
    if inc.len() == 0 {
        acc
    } else {
        fww_merge(fww_insert(acc, inc[0]), inc.drop_first())
    }
}

/// The set of names borne by the assets of `s`.
pub open spec fn name_set(s: Seq<AssetView>) -> Set<Seq<char>> {
    Set::new(|n: Seq<char>| has_name(s, n))
}

/// Inserting preserves the absence of duplicate names.
pub proof fn lemma_fww_insert_unique(acc: Seq<AssetView>, a: AssetView)
    requires
        unique_names(acc),
    ensures
        unique_names(fww_insert(acc, a)),
{
}

/// Merging never introduces a duplicate name: the accumulator's invariant
/// is preserved whatever the incoming sequence holds.
pub proof fn lemma_fww_merge_unique(acc: Seq<AssetView>, inc: Seq<AssetView>)
    requires
        unique_names(acc),
    ensures
        unique_names(fww_merge(acc, inc)),
    decreases inc.len(),
{
    if inc.len() > 0 {
        lemma_fww_insert_unique(acc, inc[0]);
        lemma_fww_merge_unique(fww_insert(acc, inc[0]), inc.drop_first());
    }
}

/// The names after a merge are exactly the old names together with the
/// incoming ones: which names are present never depends on payloads.
pub proof fn lemma_fww_merge_names(acc: Seq<AssetView>, inc: Seq<AssetView>)
    ensures
        name_set(fww_merge(acc, inc)) =~= name_set(acc).union(name_set(inc)),
    decreases inc.len(),
{
    if inc.len() == 0 {
        assert(name_set(inc) =~= Set::<Seq<char>>::empty());
        assert(name_set(acc).union(name_set(inc)) =~= name_set(acc));
    } else {
        let a = inc[0];
        let rest = inc.drop_first();
        lemma_fww_merge_names(fww_insert(acc, a), rest);
        assert(name_set(fww_insert(acc, a)) =~= name_set(acc).insert(a.name)) by {
            if has_name(acc, a.name) {
                assert(name_set(acc).contains(a.name));
            } else {
                let pushed = acc.push(a);
                assert forall|n: Seq<char>| #[trigger] has_name(pushed, n) implies (has_name(
                    acc,
                    n,
                ) || n == a.name) by {
                    let i = choose|i: int| 0 <= i < pushed.len() && pushed[i].name == n;
                    if i < acc.len() {
                        assert(acc[i].name == n);
                    }
                }
                assert forall|n: Seq<char>| has_name(acc, n) implies has_name(pushed, n) by {
                    let i = choose|i: int| 0 <= i < acc.len() && acc[i].name == n;
                    assert(pushed[i].name == n);
                }
                assert(pushed[acc.len() as int].name == a.name);
            }
        }
        assert(name_set(inc) =~= name_set(rest).insert(a.name)) by {
            assert forall|n: Seq<char>| #[trigger] has_name(inc, n) implies (has_name(rest, n) || n
                == a.name) by {
                let i = choose|i: int| 0 <= i < inc.len() && inc[i].name == n;
                if i > 0 {
                    assert(rest[i - 1].name == n);
                }
            }
            assert forall|n: Seq<char>| has_name(rest, n) implies has_name(inc, n) by {
                let i = choose|i: int| 0 <= i < rest.len() && rest[i].name == n;
                assert(inc[i + 1].name == n);
            }
            assert(inc[0].name == a.name);
        }
    }
}

/// First-write-wins, stated of a duplicate pair: when two assets sharing
/// one name arrive in order, the earlier one's payload is kept and the
/// later one is discarded outright.
pub proof fn lemma_first_write_wins(acc: Seq<AssetView>, a1: AssetView, a2: AssetView)
    requires
        a2.name == a1.name,
    ensures
        !has_name(acc, a1.name) ==> fww_merge(acc, seq![a1, a2]) == acc.push(a1),
        has_name(acc, a1.name) ==> fww_merge(acc, seq![a1, a2]) == acc,
{
    let pair = seq![a1, a2];
    assert(pair.drop_first() =~= seq![a2]);
    assert(seq![a2].drop_first() =~= Seq::<AssetView>::empty());
    assert(pair[0] == a1 && pair.drop_first()[0] == a2);
    let one = fww_insert(acc, a1);
    assert(fww_merge(acc, pair) == fww_merge(one, pair.drop_first()));
    assert(fww_merge(one, pair.drop_first()) == fww_merge(
        fww_insert(one, a2),
        Seq::<AssetView>::empty(),
    ));
    assert(fww_merge(fww_insert(one, a2), Seq::<AssetView>::empty()) == fww_insert(one, a2));
    if !has_name(acc, a1.name) {
        assert(one == acc.push(a1));
        assert(has_name(one, a2.name)) by {
            assert(acc.push(a1)[acc.len() as int].name == a1.name);
        }
        assert(fww_insert(one, a2) == one);
    } else {
        assert(one == acc);
        assert(fww_insert(one, a2) == acc);
    }
}

/// Merging the same incoming assets twice yields the same name set as
/// merging them once.
pub proof fn lemma_fww_merge_idempotent_names(acc: Seq<AssetView>, inc: Seq<AssetView>)
    ensures
        name_set(fww_merge(fww_merge(acc, inc), inc)) =~= name_set(fww_merge(acc, inc)),
{
    lemma_fww_merge_names(acc, inc);
    lemma_fww_merge_names(fww_merge(acc, inc), inc);
}

/// Whether the named asset is already present, by linear search.
pub fn contains_name(assets: &Vec<Asset>, name: &String) -> (b: bool)
    ensures
        b == has_name(views_of(assets@), name@),
{
    let mut i: usize = 0;
    while i < assets.len()
        invariant
            0 <= i <= assets@.len(),
            forall|k: int| 0 <= k < i ==> views_of(assets@)[k].name != name@,
        decreases assets@.len() - i,
    {
        if assets[i].name == *name {
            assert(views_of(assets@)[i as int].name == name@);
            return true;
        }
        i += 1;
    }
    false
}

/// Inserts one asset under the first-write-wins policy.
pub fn insert_first_wins(dst: &mut Vec<Asset>, a: Asset)
    ensures
        views_of(final(dst)@) == fww_insert(views_of(old(dst)@), a@),
{
    if !contains_name(dst, &a.name) {
        dst.push(a);
        assert(views_of(dst@) =~= views_of(old(dst)@).push(a@));
    }
}

/// Merges every incoming asset into `dst`, in order, first-write-wins.
pub fn merge_assets(dst: &mut Vec<Asset>, inc: Vec<Asset>)
    ensures
        views_of(final(dst)@) == fww_merge(views_of(old(dst)@), views_of(inc@)),
{
    let ghost inc0 = views_of(inc@);
    let mut rest = inc;
    while rest.len() > 0
        invariant
            fww_merge(views_of(old(dst)@), inc0) == fww_merge(views_of(dst@), views_of(rest@)),
        decreases rest@.len(),
    {
        let ghost prev = views_of(rest@);
        let a = rest.remove(0);
        proof {
            assert(views_of(rest@) =~= prev.drop_first());
        }
        insert_first_wins(dst, a);
    }
}

} // verus!
