//! Serializing a [`Manifest`] to a pretty-printed JSON document under
//! the external field names. The exact text is pinned down, character
//! for character, by the specification functions here, and the emitted
//! document is proved to load back as the very manifest it was written
//! from ([`lemma_manifest_round_trip`]).

use vstd::prelude::*;
use crate::asset::{Asset, AssetView, fww_insert, fww_merge, has_name, unique_names, views_of};
use crate::json::{JsonView, sp_document, sp_exponent, digit_val, digits_end, digits_value, is_digit, is_ws, sp_elements, sp_members, sp_number, sp_object, sp_array, sp_string, sp_string_body, sp_value, sp_ws, unescape};
use crate::loader::{jv_field, jv_lookup, sp_asset_of, sp_asset_list, sp_assets_of, sp_categories_of, sp_category_of, sp_header_of, sp_load_manifest, sp_manifest_of, sp_num_field};
use crate::manifest::{AssetCategory, CategoryView, Manifest, ManifestView, UnityHeaderView};

verus! {

/// How one character is written inside a JSON string literal.
pub open spec fn esc_char(c: char) -> Seq<char> {
    if c == '"' {
        "\\\""@
    } else if c == '\\' {
        "\\\\"@
    } else if c == '\n' {
        "\\n"@
    } else if c == '\r' {
        "\\r"@
    } else if c == '\t' {
        "\\t"@
    } else {
        seq![c]
    }
}

/// A string's characters, escaped one by one.
pub open spec fn esc_seq(s: Seq<char>) -> Seq<char>
    decreases s.len(),
{
    if s.len() == 0 {
        Seq::<char>::empty()
    } else {
        esc_char(s[0]) + esc_seq(s.drop_first())
    }
}

/// A quoted, escaped JSON string literal.
pub open spec fn json_string(s: Seq<char>) -> Seq<char> {
    "\""@ + esc_seq(s) + "\""@
}

pub open spec fn digit_char(d: int) -> char {
    if d == 0 {
        '0'
    } else if d == 1 {
        '1'
    } else if d == 2 {
        '2'
    } else if d == 3 {
        '3'
    } else if d == 4 {
        '4'
    } else if d == 5 {
        '5'
    } else if d == 6 {
        '6'
    } else if d == 7 {
        '7'
    } else if d == 8 {
        '8'
    } else {
        '9'
    }
}

/// The decimal digits of a nonnegative number.
pub open spec fn dec_digits(n: int) -> Seq<char>
    decreases n,
{
    if n < 10 {
        seq![digit_char(n)]
    } else {
        dec_digits(n / 10).push(digit_char(n % 10))
    }
}

/// A JSON integer literal.
pub open spec fn json_int(v: int) -> Seq<char> {
    if v < 0 {
        "-"@ + dec_digits(-v)
    } else {
        dec_digits(v)
    }
}

/// One asset on one line.
pub open spec fn json_of_asset(a: AssetView) -> Seq<char> {
    "{ \"name\": "@ + json_string(a.name) + ", \"hash\": "@ + json_string(a.hash)
        + ", \"size\": "@ + json_int(a.size) + " }"@
}

/// The assets of a bucket, one indented line each, comma-separated.
pub open spec fn json_of_assets(s: Seq<AssetView>, ind: Seq<char>) -> Seq<char>
    decreases s.len(),
{
    if s.len() == 0 {
        Seq::<char>::empty()
    } else if s.len() == 1 {
        ind + json_of_asset(s[0])
    } else {
        ind + json_of_asset(s[0]) + ",\n"@ + json_of_assets(s.drop_first(), ind)
    }
}

/// A whole bucket: `[]` when empty, else a bracketed, indented list.
pub open spec fn json_of_bucket(s: Seq<AssetView>, item_ind: Seq<char>, close_ind: Seq<char>) -> Seq<
    char,
> {
    if s.len() == 0 {
        "[]"@
    } else {
        "[\n"@ + json_of_assets(s, item_ind) + "\n"@ + close_ind + "]"@
    }
}

/// One category block.
pub open spec fn json_of_category(c: CategoryView) -> Seq<char> {
    "    {\n      \"name\": "@ + json_string(c.name) + ",\n      \"assets\": "@ + json_of_bucket(
        c.assets,
        "        "@,
        "      "@,
    ) + ",\n      \"encryptedAssets\": "@ + json_of_bucket(
        c.encrypted_assets,
        "        "@,
        "      "@,
    ) + "\n    }"@
}

/// The category blocks, comma-separated.
pub open spec fn json_of_categories(cs: Seq<CategoryView>) -> Seq<char>
    decreases cs.len(),
{
    if cs.len() == 0 {
        Seq::<char>::empty()
    } else if cs.len() == 1 {
        json_of_category(cs[0])
    } else {
        json_of_category(cs[0]) + ",\n"@ + json_of_categories(cs.drop_first())
    }
}

/// A reference header on one line.
pub open spec fn json_of_header(h: UnityHeaderView) -> Seq<char> {
    "{ \"m_PathID\": "@ + json_int(h.path_id) + ", \"m_FileID\": "@ + json_int(h.file_id)
        + " }"@
}

/// The category list as one JSON value: `[]` when empty, else a
/// bracketed, indented list of category blocks.
pub open spec fn json_of_categories_value(cs: Seq<CategoryView>) -> Seq<char> {
    if cs.len() == 0 {
        "[]"@
    } else {
        "[\n"@ + json_of_categories(cs) + "\n  ]"@
    }
}

/// The document text from the `m_Name` member on; `rest` follows the
/// closing brace.
pub open spec fn text_from_name(m: ManifestView, rest: Seq<char>) -> Seq<char> {
    let bucket_part = json_of_bucket(m.raw_assets, "    "@, "  "@) + ("\n}"@ + rest);
    let raw_part = ",\n  \"rawAssets\": "@ + bucket_part;
    let cats_part = json_of_categories_value(m.categories) + raw_part;
    let name_part = json_string(m.name) + (",\n  \"categories\": "@ + cats_part);
    json_string("m_Name"@) + (": "@ + name_part)
}

/// The document text from the `m_Enabled` member on.
pub open spec fn text_from_enabled(m: ManifestView, rest: Seq<char>) -> Seq<char> {
    let script_part = json_of_header(m.script) + (",\n  "@ + text_from_name(m, rest));
    let script_kv = json_string("m_Script"@) + (": "@ + script_part);
    let enabled_part = json_int(m.enabled) + (",\n  "@ + script_kv);
    json_string("m_Enabled"@) + (": "@ + enabled_part)
}

/// The whole document.
pub open spec fn json_of_manifest(m: ManifestView) -> Seq<char> {
    let go_part = json_of_header(m.game_object) + (",\n  "@ + text_from_enabled(
        m,
        Seq::<char>::empty(),
    ));
    "{\n  "@ + (json_string("m_GameObject"@) + (": "@ + go_part))
}

/// Appends the quoted, escaped form of `s`.
#[verifier::loop_isolation(false)]
fn push_json_string(out: &mut String, s: &String)
    ensures
        final(out)@ == old(out)@ + json_string(s@),
{
    let ghost target = old(out)@ + json_string(s@);
    out.append("\"");
    let n = s.as_str().unicode_len();
    let mut k: usize = 0;
    proof {
        assert(s@.skip(0) =~= s@);
        assert(target =~= out@ + esc_seq(s@.skip(0)) + "\""@);
    }
    while k < n
        invariant
            0 <= k <= n,
            n == s@.len(),
            target == out@ + esc_seq(s@.skip(k as int)) + "\""@,
        decreases n - k,
    {
        let ghost pre = out@;
        let ghost rest = s@.skip(k as int);
        proof {
            assert(rest[0] == s@[k as int]);
            assert(rest.drop_first() =~= s@.skip(k as int + 1));
        }
        let c = s.as_str().get_char(k);
        if c == '"' {
            out.append("\\\"");
        } else if c == '\\' {
            out.append("\\\\");
        } else if c == '\n' {
            out.append("\\n");
        } else if c == '\r' {
            out.append("\\r");
        } else if c == '\t' {
            out.append("\\t");
        } else {
            out.push(c);
            proof {
                assert(out@ =~= pre + seq![c]);
            }
        }
        proof {
            assert(out@ == pre + esc_char(s@[k as int]));
            assert(target =~= out@ + esc_seq(s@.skip(k as int + 1)) + "\""@) by {
                assert(esc_seq(rest) == esc_char(rest[0]) + esc_seq(rest.drop_first()));
                assert(pre + (esc_char(rest[0]) + esc_seq(rest.drop_first())) =~= out@ + esc_seq(
                    s@.skip(k as int + 1),
                ));
            }
        }
        k += 1;
    }
    out.append("\"");
    proof {
        assert(esc_seq(s@.skip(n as int)) =~= Seq::<char>::empty());
        assert(out@ =~= target);
    }
}

/// Appends the decimal digits of `n`.
fn push_u64(out: &mut String, n: u64)
    ensures
        final(out)@ == old(out)@ + dec_digits(n as int),
    decreases n,
{
    if n >= 10 {
        push_u64(out, n / 10);
    }
    let d = n % 10;
    let c = if d == 0 {
        '0'
    } else if d == 1 {
        '1'
    } else if d == 2 {
        '2'
    } else if d == 3 {
        '3'
    } else if d == 4 {
        '4'
    } else if d == 5 {
        '5'
    } else if d == 6 {
        '6'
    } else if d == 7 {
        '7'
    } else if d == 8 {
        '8'
    } else {
        '9'
    };
    let ghost pre = out@;
    out.push(c);
    proof {
        assert(c == digit_char(n as int % 10));
        if n < 10 {
            assert(out@ =~= old(out)@ + seq![digit_char(n as int)]);
        } else {
            assert(out@ =~= old(out)@ + dec_digits(n as int / 10).push(
                digit_char(n as int % 10),
            ));
        }
    }
}

/// Appends the JSON form of `v`.
fn push_i64(out: &mut String, v: i64)
    ensures
        final(out)@ == old(out)@ + json_int(v as int),
{
    if v < 0 {
        out.append("-");
        let ghost mid = out@;
        let mag: u64 = if v == i64::MIN {
            9223372036854775808u64
        } else {
            (-v) as u64
        };
        push_u64(out, mag);
        proof {
            assert(mag as int == -(v as int));
            assert(out@ =~= old(out)@ + ("-"@ + dec_digits(-(v as int))));
        }
    } else {
        push_u64(out, v as u64);
    }
}

/// Appends one asset line.
fn push_asset(out: &mut String, a: &Asset)
    ensures
        final(out)@ == old(out)@ + json_of_asset(a@),
{
    out.append("{ \"name\": ");
    push_json_string(out, &a.name);
    out.append(", \"hash\": ");
    push_json_string(out, &a.hash);
    out.append(", \"size\": ");
    push_i64(out, a.size);
    out.append(" }");
    proof {
        assert(out@ =~= old(out)@ + json_of_asset(a@));
    }
}

/// Appends one whole bucket.
#[verifier::loop_isolation(false)]
#[verifier::spinoff_prover]
#[verifier::rlimit(40)]
fn push_bucket(out: &mut String, assets: &Vec<Asset>, item_ind: &str, close_ind: &str)
    ensures
        final(out)@ == old(out)@ + json_of_bucket(views_of(assets@), item_ind@, close_ind@),
{
    let ghost vs = views_of(assets@);
    if assets.len() == 0 {
        out.append("[]");
        return ;
    }
    out.append("[\n");
    let ghost target = old(out)@ + json_of_bucket(vs, item_ind@, close_ind@);
    let mut k: usize = 0;
    proof {
        assert(vs.skip(0) =~= vs);
        assert(target =~= out@ + json_of_assets(vs.skip(0), item_ind@) + "\n"@ + close_ind@
            + "]"@);
    }
    while k < assets.len()
        invariant
            0 <= k < vs.len(),
            vs.len() == assets@.len(),
            target == out@ + json_of_assets(vs.skip(k as int), item_ind@) + "\n"@ + close_ind@
                + "]"@,
        decreases assets@.len() - k,
    {
        let ghost pre = out@;
        let ghost rest = vs.skip(k as int);
        proof {
            assert(rest[0] == vs[k as int]);
            assert(rest.drop_first() =~= vs.skip(k as int + 1));
        }
        out.append(item_ind);
        push_asset(out, &assets[k]);
        proof {
            assert(assets[k as int]@ == vs[k as int]);
        }
        if k + 1 < assets.len() {
            out.append(",\n");
            proof {
                assert(rest.len() > 1);
                assert(target =~= out@ + json_of_assets(vs.skip(k as int + 1), item_ind@)
                    + "\n"@ + close_ind@ + "]"@) by {
                    assert(json_of_assets(rest, item_ind@) == item_ind@ + json_of_asset(rest[0])
                        + ",\n"@ + json_of_assets(rest.drop_first(), item_ind@));
                    assert(out@ =~= pre + item_ind@ + json_of_asset(rest[0]) + ",\n"@);
                }
            }
            k += 1;
        } else {
            proof {
                assert(rest.len() == 1);
                assert(json_of_assets(rest, item_ind@) == item_ind@ + json_of_asset(rest[0]));
                assert(out@ =~= pre + item_ind@ + json_of_asset(rest[0]));
                assert(target =~= out@ + "\n"@ + close_ind@ + "]"@);
            }
            out.append("\n");
            out.append(close_ind);
            out.append("]");
            proof {
                assert(out@ =~= target);
            }
            return ;
        }
    }
}

/// Appends one category block.
fn push_category(out: &mut String, c: &AssetCategory)
    ensures
        final(out)@ == old(out)@ + json_of_category(c@),
{
    out.append("    {\n      \"name\": ");
    push_json_string(out, &c.name);
    out.append(",\n      \"assets\": ");
    push_bucket(out, &c.assets, "        ", "      ");
    out.append(",\n      \"encryptedAssets\": ");
    push_bucket(out, &c.encrypted_assets, "        ", "      ");
    out.append("\n    }");
    proof {
        assert(out@ =~= old(out)@ + json_of_category(c@));
    }
}

/// Serializes the manifest to its pretty-printed JSON document.
#[verifier::spinoff_prover]
#[verifier::rlimit(100)]
pub fn write_manifest(m: &Manifest) -> (r: String)
    ensures
        r@ == json_of_manifest(m@),
{
    proof {
        reveal_strlit("m_GameObject");
        reveal_strlit("\"m_GameObject\"");
        reveal_strlit("m_Enabled");
        reveal_strlit("\"m_Enabled\"");
        reveal_strlit("m_Script");
        reveal_strlit("\"m_Script\"");
        reveal_strlit("m_Name");
        reveal_strlit("\"m_Name\"");
        reveal_strlit("\"");
        lemma_esc_plain("m_GameObject"@);
        lemma_esc_plain("m_Enabled"@);
        lemma_esc_plain("m_Script"@);
        lemma_esc_plain("m_Name"@);
        assert(json_string("m_GameObject"@) =~= "\"m_GameObject\""@);
        assert(json_string("m_Enabled"@) =~= "\"m_Enabled\""@);
        assert(json_string("m_Script"@) =~= "\"m_Script\""@);
        assert(json_string("m_Name"@) =~= "\"m_Name\""@);
        assert("\n}"@ + Seq::<char>::empty() =~= "\n}"@);
    }
    let t9 = String::from_str("\n}");
    let t8 = bucket_string(&m.raw_assets).concat(t9.as_str());
    let t7 = String::from_str(",\n  \"rawAssets\": ").concat(t8.as_str());
    let t6 = cats_value_string(&m.categories).concat(t7.as_str());
    let t5 = String::from_str(",\n  \"categories\": ").concat(t6.as_str());
    let t4 = quoted_string(&m.name).concat(t5.as_str());
    let t4b = String::from_str(": ").concat(t4.as_str());
    let t4a = String::from_str("\"m_Name\"").concat(t4b.as_str());
    let t3d = String::from_str(",\n  ").concat(t4a.as_str());
    let t3c = header_string(m.script.path_id, m.script.file_id).concat(t3d.as_str());
    let t3b = String::from_str(": ").concat(t3c.as_str());
    let t3a = String::from_str("\"m_Script\"").concat(t3b.as_str());
    let t2d = String::from_str(",\n  ").concat(t3a.as_str());
    let t2c = int_string(m.enabled as i64).concat(t2d.as_str());
    let t2b = String::from_str(": ").concat(t2c.as_str());
    let t2a = String::from_str("\"m_Enabled\"").concat(t2b.as_str());
    let t1d = String::from_str(",\n  ").concat(t2a.as_str());
    let t1c = header_string(m.game_object.path_id, m.game_object.file_id).concat(t1d.as_str());
    let t1b = String::from_str(": ").concat(t1c.as_str());
    let t1a = String::from_str("\"m_GameObject\"").concat(t1b.as_str());
    let r = String::from_str("{\n  ").concat(t1a.as_str());
    proof {
        assert(t4a@ == text_from_name(m@, Seq::<char>::empty()));
        assert(t2a@ == text_from_enabled(m@, Seq::<char>::empty()));
        assert(r@ == json_of_manifest(m@));
    }
    r
}

/// The quoted, escaped form of `s` as its own string.
fn quoted_string(s: &String) -> (r: String)
    ensures
        r@ == json_string(s@),
{
    let mut out = String::new();
    push_json_string(&mut out, s);
    proof {
        assert(Seq::<char>::empty() + json_string(s@) =~= json_string(s@));
    }
    out
}

/// The decimal form of `v` as its own string.
fn int_string(v: i64) -> (r: String)
    ensures
        r@ == json_int(v as int),
{
    let mut out = String::new();
    push_i64(&mut out, v);
    proof {
        assert(Seq::<char>::empty() + json_int(v as int) =~= json_int(v as int));
    }
    out
}

/// One reference header line as its own string.
fn header_string(path_id: i64, file_id: i32) -> (r: String)
    ensures
        r@ == json_of_header(
            UnityHeaderView { path_id: path_id as int, file_id: file_id as int },
        ),
{
    let mut out = String::new();
    push_header(&mut out, path_id, file_id);
    proof {
        assert(Seq::<char>::empty() + json_of_header(
            UnityHeaderView { path_id: path_id as int, file_id: file_id as int },
        ) =~= json_of_header(
            UnityHeaderView { path_id: path_id as int, file_id: file_id as int },
        ));
    }
    out
}

/// One bucket as its own string.
fn bucket_string(assets: &Vec<Asset>) -> (r: String)
    ensures
        r@ == json_of_bucket(views_of(assets@), "    "@, "  "@),
{
    let mut out = String::new();
    push_bucket(&mut out, assets, "    ", "  ");
    proof {
        assert(Seq::<char>::empty() + json_of_bucket(views_of(assets@), "    "@, "  "@)
            =~= json_of_bucket(views_of(assets@), "    "@, "  "@));
    }
    out
}

/// Appends the category blocks of a non-empty list.
#[verifier::loop_isolation(false)]
fn push_categories(out: &mut String, cats: &Vec<AssetCategory>)
    requires
        cats@.len() > 0,
    ensures
        final(out)@ == old(out)@ + json_of_categories(cats@.map_values(|c: AssetCategory| c@)),
{
    let ghost cvs = cats@.map_values(|c: AssetCategory| c@);
    let ghost target = old(out)@ + json_of_categories(cvs);
    let mut k: usize = 0;
    proof {
        assert(cvs.skip(0) =~= cvs);
    }
    while k < cats.len()
        invariant
            0 <= k < cvs.len(),
            cvs.len() == cats@.len(),
            target == out@ + json_of_categories(cvs.skip(k as int)),
        decreases cats@.len() - k,
    {
        let ghost pre = out@;
        let ghost rest = cvs.skip(k as int);
        proof {
            assert(rest[0] == cvs[k as int]);
            assert(rest.drop_first() =~= cvs.skip(k as int + 1));
            assert(cats[k as int]@ == cvs[k as int]);
        }
        push_category(out, &cats[k]);
        if k + 1 < cats.len() {
            out.append(",\n");
            proof {
                assert(rest.len() > 1);
                assert(target =~= out@ + json_of_categories(cvs.skip(k as int + 1))) by {
                    assert(json_of_categories(rest) == json_of_category(rest[0]) + ",\n"@
                        + json_of_categories(rest.drop_first()));
                    assert(pre + json_of_categories(rest) =~= out@ + json_of_categories(
                        rest.drop_first(),
                    ));
                }
            }
            k += 1;
        } else {
            proof {
                assert(rest.len() == 1);
                assert(json_of_categories(rest) == json_of_category(rest[0]));
                assert(out@ =~= target);
            }
            return ;
        }
    }
}

/// The category list value as its own string.
fn cats_value_string(categories: &Vec<AssetCategory>) -> (r: String)
    ensures
        r@ == json_of_categories_value(categories@.map_values(|c: AssetCategory| c@)),
{
    let ghost cvs = categories@.map_values(|c: AssetCategory| c@);
    if categories.len() == 0 {
        let r = String::from_str("[]");
        return r;
    }
    let mut out = String::new();
    out.append("[\n");
    push_categories(&mut out, categories);
    out.append("\n  ]");
    proof {
        assert(out@ =~= "[\n"@ + json_of_categories(cvs) + "\n  ]"@);
    }
    out
}

/// Appends one reference header line./// Appends one reference header line.
fn push_header(out: &mut String, path_id: i64, file_id: i32)
    ensures
        final(out)@ == old(out)@ + json_of_header(
            UnityHeaderView { path_id: path_id as int, file_id: file_id as int },
        ),
{
    out.append("{ \"m_PathID\": ");
    push_i64(out, path_id);
    out.append(", \"m_FileID\": ");
    push_i64(out, file_id as i64);
    out.append(" }");
    proof {
        assert(out@ =~= old(out)@ + json_of_header(
            UnityHeaderView { path_id: path_id as int, file_id: file_id as int },
        ));
    }
}


proof fn lemma_skip_shift(t: Seq<char>, i: int, d: int, pre: Seq<char>, post: Seq<char>)
    requires
        0 <= i <= t.len(),
        0 <= d == pre.len(),
        t.skip(i) == pre + post,
    ensures
        i + d <= t.len(),
        t.skip(i + d) == post,
{
    assert(t.skip(i).len() == t.len() - i);
    assert forall|k: int| 0 <= k < post.len() implies t.skip(i + d)[k] == post[k] by {
        assert(t.skip(i + d)[k] == t[i + d + k]);
        assert(t.skip(i)[d + k] == t[i + d + k]);
        assert((pre + post)[d + k] == post[k]);
    }
    assert(t.skip(i + d) =~= post);
}

#[verifier::spinoff_prover]
#[verifier::rlimit(50)]
proof fn lemma_esc_body_round_trip(t: Seq<char>, i: int, s: Seq<char>, rest: Seq<char>)
    requires
        0 <= i <= t.len(),
        t.skip(i) == esc_seq(s) + seq!['"'] + rest,
    ensures
        sp_string_body(t, i) == Some((s, i + esc_seq(s).len() + 1)),
    decreases s.len(),
{
    reveal(crate::json::sp_string_body);
    reveal_strlit("\\\"");
    reveal_strlit("\\\\");
    reveal_strlit("\\n");
    reveal_strlit("\\r");
    reveal_strlit("\\t");
    let tail = t.skip(i);
    assert forall|k: int| 0 <= k < tail.len() implies #[trigger] tail[k] == t[i + k] by {
        assert(t.skip(i)[k] == t[i + k]);
    }
    if s.len() == 0 {
        assert(esc_seq(s) =~= Seq::<char>::empty());
        assert(tail[0] == '"');
        assert(t[i] == '"');
    } else {
        let c = s[0];
        let e = esc_char(c);
        assert(esc_seq(s) == e + esc_seq(s.drop_first()));
        if c == '"' || c == '\\' || c == '\n' || c == '\r' || c == '\t' {
            assert(e.len() == 2 && e[0] == '\\');
            assert(tail[0] == '\\' && tail[1] == e[1]);
            assert(t[i] == '\\' && t[i + 1] == e[1]);
            assert(unescape(e[1]) == Some(c));
            assert(tail =~= e + (esc_seq(s.drop_first()) + seq!['"'] + rest));
            lemma_skip_shift(t, i, 2, e, esc_seq(s.drop_first()) + seq!['"'] + rest);
            lemma_esc_body_round_trip(t, i + 2, s.drop_first(), rest);
            assert(seq![c] + s.drop_first() =~= s);
        } else {
            assert(e =~= seq![c]);
            assert(tail[0] == c);
            assert(t[i] == c && c != '"' && c != '\\');
            assert(tail =~= e + (esc_seq(s.drop_first()) + seq!['"'] + rest));
            lemma_skip_shift(t, i, 1, e, esc_seq(s.drop_first()) + seq!['"'] + rest);
            lemma_esc_body_round_trip(t, i + 1, s.drop_first(), rest);
            assert(seq![c] + s.drop_first() =~= s);
        }
    }
}


proof fn lemma_digit_char_val(d: int)
    requires
        0 <= d <= 9,
    ensures
        is_digit(digit_char(d)),
        digit_val(digit_char(d)) == d,
{
}

proof fn lemma_dec_digits_are_digits(n: int)
    requires
        n >= 0,
    ensures
        dec_digits(n).len() >= 1,
        forall|k: int| 0 <= k < dec_digits(n).len() ==> is_digit(#[trigger] dec_digits(n)[k]),
    decreases n,
{
    if n < 10 {
        lemma_digit_char_val(n);
    } else {
        lemma_dec_digits_are_digits(n / 10);
        lemma_digit_char_val(n % 10);
    }
}

proof fn lemma_digits_end_exact(t: Seq<char>, i: int, j: int)
    requires
        0 <= i <= j <= t.len(),
        forall|k: int| i <= k < j ==> is_digit(#[trigger] t[k]),
        j < t.len() ==> !is_digit(t[j]),
    ensures
        digits_end(t, i) == j,
    decreases j - i,
{
    if i < j {
        lemma_digits_end_exact(t, i + 1, j);
    }
}

proof fn lemma_digits_value_exact(t: Seq<char>, i: int, n: int)
    requires
        0 <= i,
        n >= 0,
        i + dec_digits(n).len() <= t.len(),
        forall|k: int| 0 <= k < dec_digits(n).len() ==> t[i + k] == dec_digits(n)[k],
    ensures
        digits_value(t, i, i + dec_digits(n).len()) == n,
    decreases n,
{
    let d = dec_digits(n);
    if n < 10 {
        assert(d[0] == digit_char(n));
        assert(t[i + 0] == d[0]);
        lemma_digit_char_val(n);
        assert(digits_value(t, i, i + 1) == digits_value(t, i, i) * 10 + digit_val(t[i]));
    } else {
        let dp = dec_digits(n / 10);
        assert(d == dp.push(digit_char(n % 10)));
        assert forall|k: int| 0 <= k < dp.len() implies t[i + k] == dp[k] by {
            assert(d[k] == dp[k]);
        }
        lemma_digits_value_exact(t, i, n / 10);
        assert(t[i + dp.len()] == digit_char(n % 10)) by {
            assert(d[dp.len() as int] == digit_char(n % 10));
        }
        lemma_digit_char_val(n % 10);
        assert(digits_value(t, i, i + d.len()) == digits_value(t, i, i + d.len() - 1) * 10
            + digit_val(t[i + d.len() - 1]));
    }
}


proof fn lemma_ws_run(t: Seq<char>, i: int, j: int)
    requires
        0 <= i <= j <= t.len(),
        forall|k: int| i <= k < j ==> is_ws(#[trigger] t[k]),
        j < t.len() ==> !is_ws(t[j]),
    ensures
        sp_ws(t, i) == j,
    decreases j - i,
{
    if i < j {
        lemma_ws_run(t, i + 1, j);
    }
}

proof fn lemma_esc_plain(s: Seq<char>)
    requires
        forall|k: int|
            0 <= k < s.len() ==> #[trigger] s[k] != '"' && s[k] != '\\' && s[k] != '\n' && s[k]
                != '\r' && s[k] != '\t',
    ensures
        esc_seq(s) == s,
    decreases s.len(),
{
    if s.len() > 0 {
        lemma_esc_plain(s.drop_first());
        assert(esc_char(s[0]) =~= seq![s[0]]);
        assert(seq![s[0]] + s.drop_first() =~= s);
    }
}

proof fn lemma_string_parse_at(t: Seq<char>, i: int, s: Seq<char>, rest: Seq<char>)
    requires
        0 <= i <= t.len(),
        t.skip(i) == json_string(s) + rest,
    ensures
        sp_string(t, i) == Some((s, i + esc_seq(s).len() + 2)),
        i + esc_seq(s).len() + 2 <= t.len(),
        t.skip(i + esc_seq(s).len() + 2) == rest,
{
    reveal_strlit("\"");
    assert(t.skip(i) =~= seq!['"'] + ((esc_seq(s) + seq!['"']) + rest));
    assert(t.skip(i)[0] == t[i]);
    assert(t[i] == '"');
    lemma_skip_shift(t, i, 1, seq!['"'], (esc_seq(s) + seq!['"']) + rest);
    assert(t.skip(i + 1) =~= esc_seq(s) + seq!['"'] + rest);
    lemma_esc_body_round_trip(t, i + 1, s, rest);
    lemma_skip_shift(t, i + 1, esc_seq(s).len() as int + 1, esc_seq(s) + seq!['"'], rest);
}

proof fn lemma_number_parse_at(t: Seq<char>, i: int, v: int, rest: Seq<char>)
    requires
        0 <= i <= t.len(),
        i64::MIN <= v <= i64::MAX,
        t.skip(i) == json_int(v) + rest,
        rest.len() > 0 ==> !is_digit(rest[0]) && rest[0] != '.' && rest[0] != 'e' && rest[0]
            != 'E',
    ensures
        sp_number(t, i) == Some((JsonView::Num(v), i + json_int(v).len() as int)),
        i + json_int(v).len() <= t.len(),
        t.skip(i + json_int(v).len() as int) == rest,
{
    reveal(crate::json::sp_number);
    reveal(crate::json::sp_exponent);
    reveal_strlit("-");
    assert(t.skip(i).len() == t.len() - i);
    assert(t.len() - i == json_int(v).len() + rest.len());
    assert forall|m: int| i <= m < t.len() implies #[trigger] t[m] == (json_int(v) + rest)[m
        - i] by {
        assert(t.skip(i)[m - i] == t[m]);
    }
    if v < 0 {
        let dec = dec_digits(-v);
        lemma_dec_digits_are_digits(-v);
        assert(t[i] == '-') by {
            assert((json_int(v) + rest)[0] == json_int(v)[0]);
            assert(json_int(v)[0] == '-');
        }
        assert(!is_digit('-'));
        assert forall|m: int| i + 1 <= m < i + 1 + dec.len() implies is_digit(#[trigger] t[m]) by {
            assert(t[m] == (json_int(v) + rest)[m - i]);
            assert((json_int(v) + rest)[m - i] == json_int(v)[m - i]);
            assert(json_int(v)[m - i] == dec[m - i - 1]);
        }
        assert(i + 1 + dec.len() < t.len() ==> !is_digit(t[i + 1 + dec.len() as int])) by {
            if i + 1 + dec.len() < t.len() {
                assert(t[i + 1 + dec.len() as int] == (json_int(v) + rest)[1 + dec.len() as int]);
                assert((json_int(v) + rest)[1 + dec.len() as int] == rest[0]);
            }
        }
        lemma_digits_end_exact(t, i + 1, i + 1 + dec.len() as int);
        assert forall|k: int| 0 <= k < dec.len() implies t[i + 1 + k] == dec[k] by {
            assert(t[i + 1 + k] == (json_int(v) + rest)[1 + k]);
            assert((json_int(v) + rest)[1 + k] == json_int(v)[1 + k]);
            assert(json_int(v)[1 + k] == dec[k]);
        }
        lemma_digits_value_exact(t, i + 1, -v);
    } else {
        let dec = dec_digits(v);
        lemma_dec_digits_are_digits(v);
        assert forall|k: int| 0 <= k < dec.len() implies t[i + k] == dec[k] by {
            assert(t[i + k] == (json_int(v) + rest)[k]);
            assert((json_int(v) + rest)[k] == json_int(v)[k]);
        }
        assert(is_digit(t[i + 0]));
        assert(t[i] != '-');
        assert forall|m: int| i <= m < i + dec.len() implies is_digit(#[trigger] t[m]) by {
            assert(t[i + (m - i)] == dec[m - i]);
        }
        assert(i + dec.len() < t.len() ==> !is_digit(t[i + dec.len() as int])) by {
            if i + dec.len() < t.len() {
                assert(t[i + dec.len() as int] == (json_int(v) + rest)[dec.len() as int]);
                assert((json_int(v) + rest)[dec.len() as int] == rest[0]);
            }
        }
        lemma_digits_end_exact(t, i, i + dec.len() as int);
        lemma_digits_value_exact(t, i, v);
    }
    let j1 = i + json_int(v).len() as int;
    assert(j1 < t.len() ==> t[j1] == rest[0]) by {
        if j1 < t.len() {
            assert(t[j1] == (json_int(v) + rest)[json_int(v).len() as int]);
        }
    }
    assert(sp_exponent(t, j1, false) == Some((JsonView::Null, j1)));
    lemma_skip_shift(t, i, json_int(v).len() as int, json_int(v), rest);
}

proof fn lemma_char_at(t: Seq<char>, i: int, c: char)
    requires
        0 <= i <= t.len(),
        t.skip(i).len() > 0,
        t.skip(i)[0] == c,
    ensures
        i < t.len(),
        t[i] == c,
{
    assert(t.skip(i)[0] == t[i + 0]);
}

proof fn lemma_key_colon(t: Seq<char>, i: int, key: Seq<char>, after: Seq<char>)
    requires
        0 <= i <= t.len(),
        esc_seq(key) == key,
        t.skip(i) == json_string(key) + (": "@ + after),
        after.len() > 0,
        !is_ws(after[0]),
    ensures
        sp_string(t, i) == Some((key, i + key.len() + 2)),
        sp_ws(t, i + key.len() + 2) == i + key.len() + 2,
        i + key.len() + 2 < t.len(),
        t[i + key.len() + 2] == ':',
        sp_ws(t, i + key.len() + 3) == i + key.len() + 4,
        i + key.len() + 4 <= t.len(),
        t.skip(i + key.len() + 4) == after,
{
    reveal_strlit(": ");
    lemma_string_parse_at(t, i, key, ": "@ + after);
    let q = i + key.len() as int + 2;
    assert(t.skip(q) == ": "@ + after);
    lemma_char_at(t, q, ':');
    lemma_ws_run(t, q, q);
    lemma_skip_shift(t, q, 2, ": "@, after);
    assert(t.skip(q)[1] == t[q + 1]);
    assert(t[q + 1] == ' ');
    assert(t.skip(q + 2)[0] == t[q + 2]);
    lemma_ws_run(t, q + 1, q + 2);
}

proof fn lemma_asset_members_read(a: AssetView)
    ensures
        sp_asset_of(
            JsonView::Obj(
                seq![
                    ("name"@, JsonView::Str(a.name)),
                    ("hash"@, JsonView::Str(a.hash)),
                    ("size"@, JsonView::Num(a.size)),
                ],
            ),
        ) == Some(a),
{
    reveal_strlit("name");
    reveal_strlit("hash");
    reveal_strlit("size");
    let ms = seq![
        ("name"@, JsonView::Str(a.name)),
        ("hash"@, JsonView::Str(a.hash)),
        ("size"@, JsonView::Num(a.size)),
    ];
    assert(("name"@)[0] == 'n' && ("hash"@)[0] == 'h' && ("size"@)[0] == 's');
    assert("name"@ != "hash"@ && "name"@ != "size"@ && "hash"@ != "size"@);
    assert(jv_lookup(ms, "name"@) == Some(JsonView::Str(a.name)));
    let ms1 = seq![("hash"@, JsonView::Str(a.hash)), ("size"@, JsonView::Num(a.size))];
    let ms2 = seq![("size"@, JsonView::Num(a.size))];
    assert(ms.drop_first() =~= ms1);
    assert(ms1.drop_first() =~= ms2);
    assert(jv_lookup(ms2, "size"@) == Some(JsonView::Num(a.size)));
    assert(jv_lookup(ms1, "hash"@) == Some(JsonView::Str(a.hash)));
    assert(jv_lookup(ms1, "size"@) == Some(JsonView::Num(a.size)));
    assert(jv_lookup(ms, "hash"@) == Some(JsonView::Str(a.hash)));
    assert(jv_lookup(ms, "size"@) == Some(JsonView::Num(a.size)));
    assert((AssetView { name: a.name, hash: a.hash, size: a.size }) =~= a);
}

#[verifier::spinoff_prover]
#[verifier::rlimit(100)]
proof fn lemma_members_hash_size(t: Seq<char>, p: int, a: AssetView, rest: Seq<char>)
    requires
        0 <= p <= t.len(),
        i64::MIN <= a.size <= i64::MAX,
        t.skip(p) == json_string("hash"@) + (": "@ + (json_string(a.hash) + (", "@ + (
        json_string("size"@) + (": "@ + (json_int(a.size) + (" }"@ + rest))))))),
    ensures
        sp_members(t, p) == Some(
            (
                seq![("hash"@, JsonView::Str(a.hash))] + seq![("size"@, JsonView::Num(a.size))],
                p + esc_seq(a.hash).len() + json_int(a.size).len() + 22,
            ),
        ),
        p + esc_seq(a.hash).len() + json_int(a.size).len() + 22 <= t.len(),
{
    reveal_strlit(", ");
    reveal_strlit(" }");
    reveal_strlit("\"");
    reveal_strlit("hash");
    reveal_strlit("size");
    lemma_esc_plain("hash"@);
    lemma_esc_plain("size"@);
    let r_hash = json_string(a.hash);
    let r_size = json_int(a.size);
    let x4 = " }"@ + rest;
    let x3 = r_size + x4;
    let x2c = ", "@ + (json_string("size"@) + (": "@ + x3));
    let x2 = r_hash + x2c;
    assert(r_hash[0] == '"');
    lemma_key_colon(t, p, "hash"@, x2);
    lemma_string_parse_at(t, p + 8, a.hash, x2c);
    let p2 = p + 8 + esc_seq(a.hash).len() as int + 2;
    assert(t.skip(p2) == x2c);
    lemma_char_at(t, p2, ',');
    lemma_ws_run(t, p2, p2);
    lemma_skip_shift(t, p2, 2, ", "@, json_string("size"@) + (": "@ + x3));
    assert(t.skip(p2)[1] == t[p2 + 1]);
    assert(t[p2 + 1] == ' ');
    lemma_char_at(t, p2 + 2, '"');
    lemma_ws_run(t, p2 + 1, p2 + 2);
    if a.size < 0 {
        reveal_strlit("-");
        assert(r_size[0] == '-');
    } else {
        lemma_dec_digits_are_digits(a.size);
        assert(r_size[0] == dec_digits(a.size)[0]);
        assert(is_digit(r_size[0]));
    }
    assert(!is_ws(r_size[0]));
    lemma_key_colon(t, p2 + 2, "size"@, x3);
    lemma_char_at(t, p2 + 10, r_size[0]);
    assert(x4[0] == ' ' && !is_digit(' '));
    lemma_number_parse_at(t, p2 + 10, a.size, x4);
    let p3 = p2 + 10 + json_int(a.size).len() as int;
    assert(t.skip(p3) == x4);
    lemma_char_at(t, p3, ' ');
    lemma_skip_shift(t, p3, 2, " }"@, rest);
    assert(t.skip(p3)[1] == t[p3 + 1]);
    assert(t[p3 + 1] == '}');
    lemma_ws_run(t, p3, p3 + 1);
    assert(sp_value(t, p2 + 10) == Some((JsonView::Num(a.size), p3)));
    assert(sp_members(t, p2 + 2) == Some((seq![("size"@, JsonView::Num(a.size))], p3 + 2)));
    assert(sp_value(t, p + 8) == Some((JsonView::Str(a.hash), p2)));
    assert(sp_members(t, p) == Some(
        (
            seq![("hash"@, JsonView::Str(a.hash))] + seq![("size"@, JsonView::Num(a.size))],
            p3 + 2,
        ),
    ));
}

/// The members of one written asset object, in order.
pub open spec fn asset_members(a: AssetView) -> Seq<(Seq<char>, JsonView)> {
    seq![
        ("name"@, JsonView::Str(a.name)),
        ("hash"@, JsonView::Str(a.hash)),
        ("size"@, JsonView::Num(a.size)),
    ]
}

#[verifier::spinoff_prover]
#[verifier::rlimit(100)]
proof fn lemma_asset_parse_at(t: Seq<char>, b: int, a: AssetView, rest: Seq<char>)
    requires
        0 <= b <= t.len(),
        i64::MIN <= a.size <= i64::MAX,
        t.skip(b) == json_of_asset(a) + rest,
    ensures
        sp_value(t, b) == Some((JsonView::Obj(asset_members(a)), b + json_of_asset(a).len())),
        b + json_of_asset(a).len() <= t.len(),
        t.skip(b + json_of_asset(a).len() as int) == rest,
{
    reveal_strlit("{ \"name\": ");
    reveal_strlit(", \"hash\": ");
    reveal_strlit(", \"size\": ");
    reveal_strlit(" }");
    reveal_strlit("\"name\"");
    reveal_strlit("\"hash\"");
    reveal_strlit("\"size\"");
    reveal_strlit("name");
    reveal_strlit("hash");
    reveal_strlit("size");
    reveal_strlit("{ ");
    reveal_strlit(": ");
    reveal_strlit(", ");
    reveal_strlit("\"");
    let r_name = json_string(a.name);
    let x2full = json_string("hash"@) + (": "@ + (json_string(a.hash) + (", "@ + (
    json_string("size"@) + (": "@ + (json_int(a.size) + (" }"@ + rest)))))));
    let x1c = ", "@ + x2full;
    let x1 = r_name + x1c;
    let x0 = "{ "@ + (json_string("name"@) + (": "@ + x1));
    lemma_esc_plain("name"@);
    lemma_esc_plain("hash"@);
    lemma_esc_plain("size"@);
    assert(json_string("name"@) =~= "\"name\""@);
    assert(json_string("hash"@) =~= "\"hash\""@);
    assert(json_string("size"@) =~= "\"size\""@);
    assert(t.skip(b) =~= x0);
    lemma_char_at(t, b, '{');
    assert(t.skip(b)[1] == t[b + 1]);
    assert(t[b + 1] == ' ');
    lemma_skip_shift(t, b, 2, "{ "@, json_string("name"@) + (": "@ + x1));
    lemma_char_at(t, b + 2, '"');
    lemma_ws_run(t, b + 1, b + 2);
    assert(r_name[0] == '"');
    lemma_key_colon(t, b + 2, "name"@, x1);
    assert(sp_string(t, b + 2) == Some(("name"@, b + 8)));
    lemma_string_parse_at(t, b + 10, a.name, x1c);
    let p1 = b + 10 + esc_seq(a.name).len() as int + 2;
    assert(t.skip(p1) == x1c);
    lemma_char_at(t, p1, ',');
    lemma_ws_run(t, p1, p1);
    lemma_skip_shift(t, p1, 2, ", "@, x2full);
    assert(t.skip(p1)[1] == t[p1 + 1]);
    assert(t[p1 + 1] == ' ');
    lemma_char_at(t, p1 + 2, '"');
    lemma_ws_run(t, p1 + 1, p1 + 2);
    lemma_members_hash_size(t, p1 + 2, a, rest);
    let pe = p1 + 2 + esc_seq(a.hash).len() as int + json_int(a.size).len() as int + 22;
    assert(sp_value(t, b + 10) == Some((JsonView::Str(a.name), p1)));
    let ms = asset_members(a);
    assert(sp_members(t, b + 2) == Some(
        (
            seq![("name"@, JsonView::Str(a.name))] + (seq![("hash"@, JsonView::Str(a.hash))]
                + seq![("size"@, JsonView::Num(a.size))]),
            pe,
        ),
    ));
    assert(seq![("name"@, JsonView::Str(a.name))] + (seq![("hash"@, JsonView::Str(a.hash))]
        + seq![("size"@, JsonView::Num(a.size))]) =~= ms);
    assert(sp_object(t, b + 2) == Some((JsonView::Obj(ms), pe)));
    assert(sp_value(t, b) == Some((JsonView::Obj(ms), pe)));
    assert(pe == b + json_of_asset(a).len());
    lemma_skip_shift(t, b, json_of_asset(a).len() as int, json_of_asset(a), rest);
}


/// The images of the assets of a written bucket, one object each.
pub open spec fn asset_objs(s: Seq<AssetView>) -> Seq<JsonView> {
    Seq::new(s.len(), |k: int| JsonView::Obj(asset_members(s[k])))
}

/// Whether every asset's size fits the number grammar.
pub open spec fn sizes_bounded(s: Seq<AssetView>) -> bool {
    forall|k: int| 0 <= k < s.len() ==> i64::MIN <= (#[trigger] s[k]).size <= i64::MAX
}

#[verifier::spinoff_prover]
#[verifier::rlimit(100)]
proof fn lemma_asset_lines_parse(
    t: Seq<char>,
    q: int,
    s: Seq<AssetView>,
    ind: Seq<char>,
    cind: Seq<char>,
    rest: Seq<char>,
)
    requires
        0 <= q <= t.len(),
        s.len() >= 1,
        sizes_bounded(s),
        forall|k: int| 0 <= k < ind.len() ==> ind[k] == ' ',
        forall|k: int| 0 <= k < cind.len() ==> cind[k] == ' ',
        t.skip(q) == json_of_assets(s, ind) + ("\n"@ + (cind + ("]"@ + rest))),
    ensures
        sp_elements(t, q + ind.len() as int) == Some(
            (
                asset_objs(s),
                q + json_of_assets(s, ind).len() + 2 + cind.len(),
            ),
        ),
        q + json_of_assets(s, ind).len() + 2 + cind.len() <= t.len(),
        t.skip(q + json_of_assets(s, ind).len() as int + 2 + cind.len() as int) == rest,
    decreases s.len(),
{
    reveal_strlit("{ \"name\": ");
    reveal_strlit("\n");
    reveal_strlit(",\n");
    reveal_strlit("]");
    let a0 = s[0];
    let h0 = json_of_asset(a0);
    assert(h0[0] == '{');
    let v0 = q + ind.len() as int;
    if s.len() == 1 {
        let tail0 = "\n"@ + (cind + ("]"@ + rest));
        assert(json_of_assets(s, ind) == ind + h0);
        assert(t.skip(q) =~= ind + (h0 + tail0));
        lemma_skip_shift(t, q, ind.len() as int, ind, h0 + tail0);
        lemma_asset_parse_at(t, v0, a0, tail0);
        let e0 = v0 + h0.len() as int;
        assert(t.skip(e0) == tail0);
        lemma_char_at(t, e0, '\n');
        lemma_skip_shift(t, e0, 1, "\n"@, cind + ("]"@ + rest));
        assert forall|j: int| 0 <= j < cind.len() implies t[e0 + 1 + j] == cind[j] by {
            assert(t.skip(e0 + 1)[j] == t[e0 + 1 + j]);
            assert((cind + ("]"@ + rest))[j] == cind[j]);
        }
        lemma_skip_shift(t, e0 + 1, cind.len() as int, cind, "]"@ + rest);
        lemma_char_at(t, e0 + 1 + cind.len() as int, ']');
        assert forall|k: int| e0 <= k < e0 + 1 + cind.len() implies is_ws(#[trigger] t[k]) by {
            if k > e0 {
                assert(t[e0 + 1 + (k - e0 - 1)] == cind[k - e0 - 1]);
                assert(cind[k - e0 - 1] == ' ');
            }
        }
        lemma_ws_run(t, e0, e0 + 1 + cind.len() as int);
        lemma_skip_shift(t, e0 + 1 + cind.len() as int, 1, "]"@, rest);
        assert(sp_elements(t, v0) == Some(
            (seq![JsonView::Obj(asset_members(a0))], e0 + 1 + cind.len() + 1),
        ));
        assert(seq![JsonView::Obj(asset_members(a0))] =~= asset_objs(s));
    } else {
        let srest = s.drop_first();
        let tail_assets = json_of_assets(srest, ind) + ("\n"@ + (cind + ("]"@ + rest)));
        let tail0 = ",\n"@ + tail_assets;
        assert(json_of_assets(s, ind) == ind + h0 + ",\n"@ + json_of_assets(srest, ind));
        assert(t.skip(q) =~= ind + (h0 + tail0));
        lemma_skip_shift(t, q, ind.len() as int, ind, h0 + tail0);
        lemma_asset_parse_at(t, v0, a0, tail0);
        let e0 = v0 + h0.len() as int;
        assert(t.skip(e0) == tail0);
        lemma_char_at(t, e0, ',');
        lemma_ws_run(t, e0, e0);
        lemma_skip_shift(t, e0, 2, ",\n"@, tail_assets);
        assert(t.skip(e0)[1] == t[e0 + 1]);
        assert(t[e0 + 1] == '\n');
        let q2 = e0 + 2;
        assert(srest.len() >= 1);
        let h1 = json_of_asset(srest[0]);
        assert(h1[0] == '{');
        assert(json_of_assets(srest, ind)[ind.len() as int] == h1[0]);
        assert forall|j: int| 0 <= j < ind.len() implies t[q2 + j] == ind[j] by {
            assert(t.skip(q2)[j] == t[q2 + j]);
            assert(json_of_assets(srest, ind)[j] == ind[j]);
        }
        assert(t[q2 + ind.len() as int] == '{') by {
            assert(t.skip(q2)[ind.len() as int] == t[q2 + ind.len() as int]);
        }
        assert forall|k: int| e0 + 1 <= k < q2 + ind.len() implies is_ws(#[trigger] t[k]) by {
            if k > e0 + 1 {
                assert(t[q2 + (k - q2)] == ind[k - q2]);
                assert(ind[k - q2] == ' ');
            }
        }
        lemma_ws_run(t, e0 + 1, q2 + ind.len() as int);
        assert(sizes_bounded(srest)) by {
            assert(forall|k: int| 0 <= k < srest.len() ==> srest[k] == s[k + 1]);
        }
        lemma_asset_lines_parse(t, q2, srest, ind, cind, rest);
        let n = q2 + ind.len() as int;
        assert(n > v0 && n <= t.len());
        assert(sp_elements(t, v0) == Some(
            (
                seq![JsonView::Obj(asset_members(a0))] + asset_objs(srest),
                q2 + json_of_assets(srest, ind).len() + 2 + cind.len(),
            ),
        ));
        assert(seq![JsonView::Obj(asset_members(a0))] + asset_objs(srest) =~= asset_objs(s));
    }
}

#[verifier::spinoff_prover]
#[verifier::rlimit(100)]
proof fn lemma_bucket_parse_at(
    t: Seq<char>,
    b: int,
    s: Seq<AssetView>,
    ind: Seq<char>,
    cind: Seq<char>,
    rest: Seq<char>,
)
    requires
        0 <= b <= t.len(),
        sizes_bounded(s),
        forall|k: int| 0 <= k < ind.len() ==> ind[k] == ' ',
        forall|k: int| 0 <= k < cind.len() ==> cind[k] == ' ',
        t.skip(b) == json_of_bucket(s, ind, cind) + rest,
    ensures
        sp_value(t, b) == Some(
            (JsonView::Arr(asset_objs(s)), b + json_of_bucket(s, ind, cind).len()),
        ),
        b + json_of_bucket(s, ind, cind).len() <= t.len(),
        t.skip(b + json_of_bucket(s, ind, cind).len() as int) == rest,
    decreases 0int,
{
    reveal_strlit("{ \"name\": ");
    reveal_strlit("[]");
    reveal_strlit("[\n");
    reveal_strlit("\n");
    reveal_strlit("]");
    if s.len() == 0 {
        assert(t.skip(b) =~= "[]"@ + rest);
        lemma_char_at(t, b, '[');
        assert(t.skip(b)[1] == t[b + 1]);
        assert(t[b + 1] == ']');
        lemma_ws_run(t, b + 1, b + 1);
        assert(asset_objs(s) =~= Seq::<JsonView>::empty());
        lemma_skip_shift(t, b, 2, "[]"@, rest);
        assert(sp_value(t, b) == Some((JsonView::Arr(asset_objs(s)), b + 2)));
    } else {
        let body = json_of_assets(s, ind) + ("\n"@ + (cind + ("]"@ + rest)));
        assert(t.skip(b) =~= "[\n"@ + body);
        lemma_char_at(t, b, '[');
        lemma_skip_shift(t, b, 2, "[\n"@, body);
        assert(t.skip(b)[1] == t[b + 1]);
        assert(t[b + 1] == '\n');
        let q = b + 2;
        let a0 = s[0];
        let h0 = json_of_asset(a0);
        assert(h0[0] == '{');
        assert(json_of_assets(s, ind)[ind.len() as int] == h0[0]) by {
            if s.len() == 1 {
                assert(json_of_assets(s, ind) == ind + h0);
            } else {
                assert(json_of_assets(s, ind) == ind + h0 + ",\n"@ + json_of_assets(
                    s.drop_first(),
                    ind,
                ));
            }
        }
        assert forall|j: int| 0 <= j < ind.len() implies t[q + j] == ind[j] by {
            assert(t.skip(q)[j] == t[q + j]);
            assert(json_of_assets(s, ind)[j] == ind[j]) by {
                if s.len() == 1 {
                    assert(json_of_assets(s, ind) == ind + h0);
                } else {
                    assert(json_of_assets(s, ind) == ind + h0 + ",\n"@ + json_of_assets(
                        s.drop_first(),
                        ind,
                    ));
                }
            }
        }
        assert(t[q + ind.len() as int] == '{') by {
            assert(t.skip(q)[ind.len() as int] == t[q + ind.len() as int]);
        }
        assert forall|k: int| b + 1 <= k < q + ind.len() implies is_ws(#[trigger] t[k]) by {
            if k > b + 1 {
                assert(t[q + (k - q)] == ind[k - q]);
                assert(ind[k - q] == ' ');
            }
        }
        lemma_ws_run(t, b + 1, q + ind.len() as int);
        lemma_asset_lines_parse(t, q, s, ind, cind, rest);
        let i2 = q + ind.len() as int;
        assert(i2 > b && i2 <= t.len());
        assert(sp_value(t, b) == Some(
            (
                JsonView::Arr(asset_objs(s)),
                q + json_of_assets(s, ind).len() + 2 + cind.len(),
            ),
        ));
    }
}

proof fn lemma_assets_of_objs(s: Seq<AssetView>)
    ensures
        sp_assets_of(asset_objs(s)) == Some(s),
    decreases s.len(),
{
    if s.len() == 0 {
        assert(asset_objs(s) =~= Seq::<JsonView>::empty());
        assert(Seq::<AssetView>::empty() =~= s);
    } else {
        lemma_asset_members_read(s[0]);
        lemma_assets_of_objs(s.drop_first());
        assert(asset_objs(s)[0] == JsonView::Obj(asset_members(s[0])));
        assert(asset_objs(s).drop_first() =~= asset_objs(s.drop_first()));
        assert(seq![s[0]] + s.drop_first() =~= s);
    }
}

/// A deduplication that meets no duplicate is no change at all.
proof fn lemma_fww_unique_noop(acc: Seq<AssetView>, inc: Seq<AssetView>)
    requires
        unique_names(acc + inc),
    ensures
        fww_merge(acc, inc) == acc + inc,
    decreases inc.len(),
{
    if inc.len() == 0 {
        assert(acc + inc =~= acc);
    } else {
        let a = inc[0];
        assert(!has_name(acc, a.name)) by {
            if has_name(acc, a.name) {
                let i = choose|i: int| 0 <= i < acc.len() && acc[i].name == a.name;
                assert((acc + inc)[i].name == (acc + inc)[acc.len() as int].name);
            }
        }
        assert(fww_insert(acc, a) == acc.push(a));
        assert(acc.push(a) + inc.drop_first() =~= acc + inc);
        lemma_fww_unique_noop(acc.push(a), inc.drop_first());
    }
}


/// The members of one written category block, in order.
pub open spec fn category_members(c: CategoryView) -> Seq<(Seq<char>, JsonView)> {
    seq![
        ("name"@, JsonView::Str(c.name)),
        ("assets"@, JsonView::Arr(asset_objs(c.assets))),
        ("encryptedAssets"@, JsonView::Arr(asset_objs(c.encrypted_assets))),
    ]
}

#[verifier::spinoff_prover]
#[verifier::rlimit(100)]
proof fn lemma_category_tail(t: Seq<char>, p: int, c: CategoryView, rest: Seq<char>)
    requires
        0 <= p <= t.len(),
        sizes_bounded(c.assets),
        sizes_bounded(c.encrypted_assets),
        t.skip(p) == json_string("assets"@) + (": "@ + (json_of_bucket(
            c.assets,
            "        "@,
            "      "@,
        ) + (",\n      "@ + (json_string("encryptedAssets"@) + (": "@ + (json_of_bucket(
            c.encrypted_assets,
            "        "@,
            "      "@,
        ) + ("\n    }"@ + rest))))))),
    ensures
        sp_members(t, p) == Some(
            (
                seq![("assets"@, JsonView::Arr(asset_objs(c.assets)))] + seq![
                    ("encryptedAssets"@, JsonView::Arr(asset_objs(c.encrypted_assets))),
                ],
                p + json_of_bucket(c.assets, "        "@, "      "@).len() + json_of_bucket(
                    c.encrypted_assets,
                    "        "@,
                    "      "@,
                ).len() + 43,
            ),
        ),
        p + json_of_bucket(c.assets, "        "@, "      "@).len() + json_of_bucket(
            c.encrypted_assets,
            "        "@,
            "      "@,
        ).len() + 43 <= t.len(),
        t.skip(
            p + json_of_bucket(c.assets, "        "@, "      "@).len() as int + json_of_bucket(
                c.encrypted_assets,
                "        "@,
                "      "@,
            ).len() as int + 37,
        ) == "\n    }"@ + rest,
{
    reveal_strlit("assets");
    reveal_strlit("\"assets\"");
    reveal_strlit("encryptedAssets");
    reveal_strlit("\"encryptedAssets\"");
    reveal_strlit(",\n      ");
    reveal_strlit("\n    }");
    reveal_strlit(": ");
    reveal_strlit("[]");
    reveal_strlit("[\n");
    reveal_strlit("        ");
    reveal_strlit("      ");
    reveal_strlit("\"");
    lemma_esc_plain("assets"@);
    lemma_esc_plain("encryptedAssets"@);
    let ind = "        "@;
    let cind = "      "@;
    let b1 = json_of_bucket(c.assets, ind, cind);
    let b2 = json_of_bucket(c.encrypted_assets, ind, cind);
    let x2 = b1 + (",\n      "@ + (json_string("encryptedAssets"@) + (": "@ + (b2 + (
    "\n    }"@ + rest)))));
    assert(b1[0] == '[');
    assert(!is_ws('['));
    lemma_key_colon(t, p, "assets"@, x2);
    let v1 = p + 10;
    lemma_bucket_parse_at(
        t,
        v1,
        c.assets,
        ind,
        cind,
        ",\n      "@ + (json_string("encryptedAssets"@) + (": "@ + (b2 + ("\n    }"@
            + rest)))),
    );
    let e1 = v1 + b1.len() as int;
    lemma_char_at(t, e1, ',');
    lemma_ws_run(t, e1, e1);
    lemma_skip_shift(
        t,
        e1,
        8,
        ",\n      "@,
        json_string("encryptedAssets"@) + (": "@ + (b2 + ("\n    }"@ + rest))),
    );
    assert forall|k: int| e1 + 1 <= k < e1 + 8 implies is_ws(#[trigger] t[k]) by {
        assert(t.skip(e1)[k - e1] == t[k]);
    }
    lemma_char_at(t, e1 + 8, '"');
    lemma_ws_run(t, e1 + 1, e1 + 8);
    assert(b2[0] == '[');
    assert(!is_ws('['));
    lemma_key_colon(t, e1 + 8, "encryptedAssets"@, b2 + ("\n    }"@ + rest));
    let v2 = e1 + 8 + 15 + 4;
    lemma_bucket_parse_at(t, v2, c.encrypted_assets, ind, cind, "\n    }"@ + rest);
    let e2 = v2 + b2.len() as int;
    assert(t.skip(e2) == "\n    }"@ + rest);
    lemma_char_at(t, e2, '\n');
    assert forall|k: int| e2 <= k < e2 + 5 implies is_ws(#[trigger] t[k]) by {
        assert(t.skip(e2)[k - e2] == t[k]);
    }
    assert(t.skip(e2)[5] == t[e2 + 5]);
    assert(t[e2 + 5] == '}');
    lemma_ws_run(t, e2, e2 + 5);
    assert(sp_value(t, v2) == Some((JsonView::Arr(asset_objs(c.encrypted_assets)), e2)));
    assert(sp_members(t, e1 + 8) == Some(
        (
            seq![("encryptedAssets"@, JsonView::Arr(asset_objs(c.encrypted_assets)))],
            e2 + 6,
        ),
    ));
    assert(sp_value(t, v1) == Some((JsonView::Arr(asset_objs(c.assets)), e1)));
    assert(sp_members(t, p) == Some(
        (
            seq![("assets"@, JsonView::Arr(asset_objs(c.assets)))] + seq![
                ("encryptedAssets"@, JsonView::Arr(asset_objs(c.encrypted_assets))),
            ],
            e2 + 6,
        ),
    ));
}

#[verifier::spinoff_prover]
#[verifier::rlimit(100)]
proof fn lemma_category_parse_at(t: Seq<char>, g: int, c: CategoryView, rest: Seq<char>)
    requires
        0 <= g <= t.len(),
        sizes_bounded(c.assets),
        sizes_bounded(c.encrypted_assets),
        t.skip(g) == json_of_category(c) + rest,
    ensures
        sp_value(t, g + 4) == Some(
            (JsonView::Obj(category_members(c)), g + json_of_category(c).len()),
        ),
        g + json_of_category(c).len() <= t.len(),
        t.skip(g + json_of_category(c).len() as int) == rest,
        g + 4 < t.len(),
        t[g + 4] == '{',
        forall|k: int| g <= k < g + 4 ==> #[trigger] t[k] == ' ',
    decreases 0int,
{
    reveal_strlit("    {\n      \"name\": ");
    reveal_strlit("    {\n      ");
    reveal_strlit("\"name\"");
    reveal_strlit("name");
    reveal_strlit(": ");
    reveal_strlit(",\n      \"assets\": ");
    reveal_strlit(",\n      ");
    reveal_strlit("\"assets\"");
    reveal_strlit(",\n      \"encryptedAssets\": ");
    reveal_strlit("\"encryptedAssets\"");
    reveal_strlit("\n    }");
    reveal_strlit("\"");
    reveal_strlit("\"encryptedAssets\"");
    reveal_strlit("assets");
    reveal_strlit("encryptedAssets");
    lemma_esc_plain("name"@);
    lemma_esc_plain("assets"@);
    lemma_esc_plain("encryptedAssets"@);
    let ind = "        "@;
    let cind = "      "@;
    let b1 = json_of_bucket(c.assets, ind, cind);
    let b2 = json_of_bucket(c.encrypted_assets, ind, cind);
    let x2full = json_string("assets"@) + (": "@ + (b1 + (",\n      "@ + (json_string(
        "encryptedAssets"@,
    ) + (": "@ + (b2 + ("\n    }"@ + rest)))))));
    let x1c = ",\n      "@ + x2full;
    let x1 = json_string(c.name) + x1c;
    assert(json_string("name"@) =~= "\"name\""@);
    assert(json_string("assets"@) =~= "\"assets\""@);
    assert(json_string("encryptedAssets"@) =~= "\"encryptedAssets\""@);
    assert(t.skip(g) =~= "    {\n      "@ + (json_string("name"@) + (": "@ + x1)));
    lemma_skip_shift(t, g, 12, "    {\n      "@, json_string("name"@) + (": "@ + x1));
    assert forall|k: int| g <= k < g + 12 implies #[trigger] t[k] == ("    {\n      "@)[k
        - g] by {
        assert(t.skip(g)[k - g] == t[k]);
    }
    assert forall|k: int| g + 5 <= k < g + 12 implies is_ws(#[trigger] t[k]) by {
        assert(t[k] == ("    {\n      "@)[k - g]);
    }
    lemma_char_at(t, g + 12, '"');
    lemma_ws_run(t, g + 5, g + 12);
    lemma_key_colon(t, g + 12, "name"@, x1);
    assert(json_string(c.name)[0] == '"');
    lemma_string_parse_at(t, g + 20, c.name, x1c);
    let p1 = g + 20 + esc_seq(c.name).len() as int + 2;
    assert(t.skip(p1) == x1c);
    lemma_char_at(t, p1, ',');
    lemma_ws_run(t, p1, p1);
    lemma_skip_shift(t, p1, 8, ",\n      "@, x2full);
    assert forall|k: int| p1 + 1 <= k < p1 + 8 implies is_ws(#[trigger] t[k]) by {
        assert(t.skip(p1)[k - p1] == t[k]);
    }
    lemma_char_at(t, p1 + 8, '"');
    lemma_ws_run(t, p1 + 1, p1 + 8);
    lemma_category_tail(t, p1 + 8, c, rest);
    let pe = p1 + 8 + b1.len() as int + b2.len() as int + 43;
    assert(sp_value(t, g + 20) == Some((JsonView::Str(c.name), p1)));
    let cms = category_members(c);
    assert(sp_members(t, g + 12) == Some(
        (
            seq![("name"@, JsonView::Str(c.name))] + (seq![
                ("assets"@, JsonView::Arr(asset_objs(c.assets))),
            ] + seq![("encryptedAssets"@, JsonView::Arr(asset_objs(c.encrypted_assets)))]),
            pe,
        ),
    ));
    assert(seq![("name"@, JsonView::Str(c.name))] + (seq![
        ("assets"@, JsonView::Arr(asset_objs(c.assets))),
    ] + seq![("encryptedAssets"@, JsonView::Arr(asset_objs(c.encrypted_assets)))]) =~= cms);
    assert(sp_object(t, g + 12) == Some((JsonView::Obj(cms), pe)));
    assert(sp_value(t, g + 4) == Some((JsonView::Obj(cms), pe)));
    assert(pe == g + json_of_category(c).len());
    lemma_skip_shift(t, g, json_of_category(c).len() as int, json_of_category(c), rest);
}

/// Reading the members of one written category back gives the category,
/// its buckets deduplicated; with no duplicate names in them, exactly it.
proof fn lemma_category_members_read(c: CategoryView)
    requires
        unique_names(c.assets),
        unique_names(c.encrypted_assets),
    ensures
        sp_category_of(JsonView::Obj(category_members(c))) == Some(c),
{
    reveal_strlit("name");
    reveal_strlit("assets");
    reveal_strlit("encryptedAssets");
    reveal_strlit("encrypted_assets");
    let cms = category_members(c);
    assert(("name"@).len() == 4 && ("assets"@).len() == 6 && ("encryptedAssets"@).len() == 15);
    let m1 = seq![
        ("assets"@, JsonView::Arr(asset_objs(c.assets))),
        ("encryptedAssets"@, JsonView::Arr(asset_objs(c.encrypted_assets))),
    ];
    let m2 = seq![("encryptedAssets"@, JsonView::Arr(asset_objs(c.encrypted_assets)))];
    assert(cms.drop_first() =~= m1);
    assert(m1.drop_first() =~= m2);
    assert(jv_lookup(cms, "name"@) == Some(JsonView::Str(c.name)));
    assert(jv_lookup(m1, "assets"@) == Some(JsonView::Arr(asset_objs(c.assets))));
    assert(jv_lookup(cms, "assets"@) == Some(JsonView::Arr(asset_objs(c.assets))));
    assert(jv_lookup(m2, "encryptedAssets"@) == Some(
        JsonView::Arr(asset_objs(c.encrypted_assets)),
    ));
    assert(jv_lookup(m1, "encryptedAssets"@) == Some(
        JsonView::Arr(asset_objs(c.encrypted_assets)),
    ));
    assert(jv_lookup(cms, "encryptedAssets"@) == Some(
        JsonView::Arr(asset_objs(c.encrypted_assets)),
    ));
    lemma_assets_of_objs(c.assets);
    assert(Seq::<AssetView>::empty() + c.assets =~= c.assets);
    lemma_fww_unique_noop(Seq::<AssetView>::empty(), c.assets);
    lemma_assets_of_objs(c.encrypted_assets);
    assert(Seq::<AssetView>::empty() + c.encrypted_assets =~= c.encrypted_assets);
    lemma_fww_unique_noop(Seq::<AssetView>::empty(), c.encrypted_assets);
    assert(sp_asset_list(JsonView::Arr(asset_objs(c.assets))) == Some(c.assets));
    assert(sp_asset_list(JsonView::Arr(asset_objs(c.encrypted_assets))) == Some(
        c.encrypted_assets,
    ));
    assert((CategoryView {
        name: c.name,
        assets: c.assets,
        encrypted_assets: c.encrypted_assets,
    }) =~= c);
}

/// The members of one written reference header, in order.
pub open spec fn header_members(h: UnityHeaderView) -> Seq<(Seq<char>, JsonView)> {
    seq![("m_PathID"@, JsonView::Num(h.path_id)), ("m_FileID"@, JsonView::Num(h.file_id))]
}

#[verifier::spinoff_prover]
#[verifier::rlimit(100)]
proof fn lemma_header_parse_at(t: Seq<char>, b: int, h: UnityHeaderView, rest: Seq<char>)
    requires
        0 <= b <= t.len(),
        i64::MIN <= h.path_id <= i64::MAX,
        i64::MIN <= h.file_id <= i64::MAX,
        t.skip(b) == json_of_header(h) + rest,
    ensures
        sp_value(t, b) == Some((JsonView::Obj(header_members(h)), b + json_of_header(h).len())),
        b + json_of_header(h).len() <= t.len(),
        t.skip(b + json_of_header(h).len() as int) == rest,
{
    reveal_strlit("{ \"m_PathID\": ");
    reveal_strlit(", \"m_FileID\": ");
    reveal_strlit("{ ");
    reveal_strlit(", ");
    reveal_strlit(" }");
    reveal_strlit("\"m_PathID\"");
    reveal_strlit("\"m_FileID\"");
    reveal_strlit("m_PathID");
    reveal_strlit("m_FileID");
    reveal_strlit(": ");
    reveal_strlit("\"");
    reveal_strlit("-");
    lemma_esc_plain("m_PathID"@);
    lemma_esc_plain("m_FileID"@);
    assert(json_string("m_PathID"@) =~= "\"m_PathID\""@);
    assert(json_string("m_FileID"@) =~= "\"m_FileID\""@);
    let r1 = json_int(h.path_id);
    let r2 = json_int(h.file_id);
    let x2 = r2 + (" }"@ + rest);
    let x1 = r1 + (", "@ + (json_string("m_FileID"@) + (": "@ + x2)));
    assert(t.skip(b) =~= "{ "@ + (json_string("m_PathID"@) + (": "@ + x1)));
    lemma_char_at(t, b, '{');
    assert(t.skip(b)[1] == t[b + 1]);
    assert(t[b + 1] == ' ');
    lemma_skip_shift(t, b, 2, "{ "@, json_string("m_PathID"@) + (": "@ + x1));
    lemma_char_at(t, b + 2, '"');
    lemma_ws_run(t, b + 1, b + 2);
    if h.path_id < 0 {
        assert(r1[0] == '-');
    } else {
        lemma_dec_digits_are_digits(h.path_id);
        assert(r1[0] == dec_digits(h.path_id)[0]);
    }
    assert(!is_ws(r1[0]));
    lemma_key_colon(t, b + 2, "m_PathID"@, x1);
    assert((", "@)[0] == ',' && !is_digit(','));
    lemma_char_at(t, b + 14, r1[0]);
    lemma_number_parse_at(t, b + 14, h.path_id, ", "@ + (json_string("m_FileID"@) + (": "@
        + x2)));
    let e0 = b + 14 + r1.len() as int;
    lemma_char_at(t, e0, ',');
    lemma_ws_run(t, e0, e0);
    lemma_skip_shift(t, e0, 2, ", "@, json_string("m_FileID"@) + (": "@ + x2));
    assert(t.skip(e0)[1] == t[e0 + 1]);
    assert(t[e0 + 1] == ' ');
    lemma_char_at(t, e0 + 2, '"');
    lemma_ws_run(t, e0 + 1, e0 + 2);
    if h.file_id < 0 {
        assert(r2[0] == '-');
    } else {
        lemma_dec_digits_are_digits(h.file_id);
        assert(r2[0] == dec_digits(h.file_id)[0]);
    }
    assert(!is_ws(r2[0]));
    lemma_key_colon(t, e0 + 2, "m_FileID"@, x2);
    assert((" }"@)[0] == ' ' && !is_digit(' '));
    lemma_char_at(t, e0 + 14, r2[0]);
    lemma_number_parse_at(t, e0 + 14, h.file_id, " }"@ + rest);
    let e1 = e0 + 14 + r2.len() as int;
    assert(t.skip(e1) == " }"@ + rest);
    lemma_char_at(t, e1, ' ');
    assert(t.skip(e1)[1] == t[e1 + 1]);
    assert(t[e1 + 1] == '}');
    lemma_ws_run(t, e1, e1 + 1);
    lemma_skip_shift(t, e1, 2, " }"@, rest);
    assert(sp_value(t, e0 + 14) == Some((JsonView::Num(h.file_id), e1)));
    assert(sp_members(t, e0 + 2) == Some(
        (seq![("m_FileID"@, JsonView::Num(h.file_id))], e1 + 2),
    ));
    assert(sp_value(t, b + 14) == Some((JsonView::Num(h.path_id), e0)));
    assert(sp_members(t, b + 2) == Some(
        (
            seq![("m_PathID"@, JsonView::Num(h.path_id))] + seq![
                ("m_FileID"@, JsonView::Num(h.file_id)),
            ],
            e1 + 2,
        ),
    ));
    assert(seq![("m_PathID"@, JsonView::Num(h.path_id))] + seq![
        ("m_FileID"@, JsonView::Num(h.file_id)),
    ] =~= header_members(h));
    assert(sp_object(t, b + 2) == Some((JsonView::Obj(header_members(h)), e1 + 2)));
    assert(sp_value(t, b) == Some((JsonView::Obj(header_members(h)), e1 + 2)));
    assert(e1 + 2 == b + json_of_header(h).len());
    lemma_skip_shift(t, b, json_of_header(h).len() as int, json_of_header(h), rest);
}

/// The images of the categories of a written list, one object each.
pub open spec fn cat_objs(cs: Seq<CategoryView>) -> Seq<JsonView> {
    Seq::new(cs.len(), |k: int| JsonView::Obj(category_members(cs[k])))
}

/// Whether every bucket of every category fits the number grammar.
pub open spec fn cats_bounded(cs: Seq<CategoryView>) -> bool {
    forall|k: int|
        0 <= k < cs.len() ==> sizes_bounded((#[trigger] cs[k]).assets) && sizes_bounded(
            cs[k].encrypted_assets,
        )
}

#[verifier::spinoff_prover]
#[verifier::rlimit(100)]
proof fn lemma_category_lines_parse(t: Seq<char>, q: int, cs: Seq<CategoryView>, rest: Seq<char>)
    requires
        0 <= q <= t.len(),
        cs.len() >= 1,
        cats_bounded(cs),
        t.skip(q) == json_of_categories(cs) + ("\n  ]"@ + rest),
    ensures
        sp_elements(t, q + 4) == Some(
            (cat_objs(cs), q + json_of_categories(cs).len() + 4),
        ),
        q + json_of_categories(cs).len() + 4 <= t.len(),
        t.skip(q + json_of_categories(cs).len() as int + 4) == rest,
    decreases cs.len(),
{
    reveal_strlit("\n  ]");
    reveal_strlit(",\n");
    reveal_strlit("    {\n      \"name\": ");
    let c0 = cs[0];
    let h0 = json_of_category(c0);
    if cs.len() == 1 {
        let tail0 = "\n  ]"@ + rest;
        assert(json_of_categories(cs) == h0);
        assert(t.skip(q) =~= h0 + tail0);
        lemma_category_parse_at(t, q, c0, tail0);
        let e0 = q + h0.len() as int;
        assert(t.skip(e0) == tail0);
        lemma_char_at(t, e0, '\n');
        assert forall|k: int| e0 <= k < e0 + 3 implies is_ws(#[trigger] t[k]) by {
            assert(t.skip(e0)[k - e0] == t[k]);
        }
        assert(t.skip(e0)[3] == t[e0 + 3]);
        assert(t[e0 + 3] == ']');
        lemma_ws_run(t, e0, e0 + 3);
        lemma_skip_shift(t, e0, 4, "\n  ]"@, rest);
        assert(sp_elements(t, q + 4) == Some(
            (seq![JsonView::Obj(category_members(c0))], e0 + 4),
        ));
        assert(seq![JsonView::Obj(category_members(c0))] =~= cat_objs(cs));
    } else {
        let crest = cs.drop_first();
        let tail_cats = json_of_categories(crest) + ("\n  ]"@ + rest);
        let tail0 = ",\n"@ + tail_cats;
        assert(json_of_categories(cs) == h0 + ",\n"@ + json_of_categories(crest));
        assert(t.skip(q) =~= h0 + tail0);
        lemma_category_parse_at(t, q, c0, tail0);
        let e0 = q + h0.len() as int;
        assert(t.skip(e0) == tail0);
        lemma_char_at(t, e0, ',');
        lemma_ws_run(t, e0, e0);
        lemma_skip_shift(t, e0, 2, ",\n"@, tail_cats);
        assert(t.skip(e0)[1] == t[e0 + 1]);
        assert(t[e0 + 1] == '\n');
        let q2 = e0 + 2;
        assert(crest.len() >= 1);
        assert(cats_bounded(crest)) by {
            assert(forall|k: int| 0 <= k < crest.len() ==> crest[k] == cs[k + 1]);
        }
        lemma_category_lines_parse(t, q2, crest, rest);
        assert forall|k: int| e0 + 1 <= k < q2 + 4 implies is_ws(#[trigger] t[k]) by {
            if k >= q2 {
                assert(t.skip(q2)[k - q2] == t[k]);
                assert(json_of_categories(crest)[k - q2] == ("    {\n      \"name\": "@)[k
                    - q2]) by {
                    if crest.len() == 1 {
                        assert(json_of_categories(crest) == json_of_category(crest[0]));
                    } else {
                        assert(json_of_categories(crest) == json_of_category(crest[0]) + ",\n"@
                            + json_of_categories(crest.drop_first()));
                    }
                }
            }
        }
        assert(t[q2 + 4] == '{') by {
            assert(t.skip(q2)[4] == t[q2 + 4]);
            assert(json_of_categories(crest)[4] == ("    {\n      \"name\": "@)[4]) by {
                if crest.len() == 1 {
                    assert(json_of_categories(crest) == json_of_category(crest[0]));
                } else {
                    assert(json_of_categories(crest) == json_of_category(crest[0]) + ",\n"@
                        + json_of_categories(crest.drop_first()));
                }
            }
        }
        lemma_ws_run(t, e0 + 1, q2 + 4);
        let n = q2 + 4;
        assert(n > q + 4 && n <= t.len());
        assert(sp_elements(t, q + 4) == Some(
            (
                seq![JsonView::Obj(category_members(c0))] + cat_objs(crest),
                q2 + json_of_categories(crest).len() + 4,
            ),
        ));
        assert(seq![JsonView::Obj(category_members(c0))] + cat_objs(crest) =~= cat_objs(cs));
    }
}

proof fn lemma_categories_of_objs(cs: Seq<CategoryView>)
    requires
        forall|k: int|
            0 <= k < cs.len() ==> unique_names((#[trigger] cs[k]).assets) && unique_names(
                cs[k].encrypted_assets,
            ),
    ensures
        crate::loader::sp_categories_of(cat_objs(cs)) == Some(cs),
    decreases cs.len(),
{
    if cs.len() == 0 {
        assert(cat_objs(cs) =~= Seq::<JsonView>::empty());
        assert(Seq::<CategoryView>::empty() =~= cs);
    } else {
        lemma_category_members_read(cs[0]);
        lemma_categories_of_objs(cs.drop_first());
        assert(cat_objs(cs)[0] == JsonView::Obj(category_members(cs[0])));
        assert(cat_objs(cs).drop_first() =~= cat_objs(cs.drop_first()));
        assert(seq![cs[0]] + cs.drop_first() =~= cs);
    }
}

#[verifier::spinoff_prover]
#[verifier::rlimit(100)]
proof fn lemma_cats_value_parse_at(t: Seq<char>, b: int, cs: Seq<CategoryView>, rest: Seq<char>)
    requires
        0 <= b <= t.len(),
        cats_bounded(cs),
        t.skip(b) == json_of_categories_value(cs) + rest,
    ensures
        sp_value(t, b) == Some(
            (JsonView::Arr(cat_objs(cs)), b + json_of_categories_value(cs).len()),
        ),
        b + json_of_categories_value(cs).len() <= t.len(),
        t.skip(b + json_of_categories_value(cs).len() as int) == rest,
    decreases 0int,
{
    reveal_strlit("[]");
    reveal_strlit("[\n");
    reveal_strlit("\n  ]");
    reveal_strlit("    {\n      \"name\": ");
    if cs.len() == 0 {
        assert(t.skip(b) =~= "[]"@ + rest);
        lemma_char_at(t, b, '[');
        assert(t.skip(b)[1] == t[b + 1]);
        assert(t[b + 1] == ']');
        lemma_ws_run(t, b + 1, b + 1);
        assert(cat_objs(cs) =~= Seq::<JsonView>::empty());
        lemma_skip_shift(t, b, 2, "[]"@, rest);
        assert(sp_value(t, b) == Some((JsonView::Arr(cat_objs(cs)), b + 2)));
    } else {
        let body = json_of_categories(cs) + ("\n  ]"@ + rest);
        assert(t.skip(b) =~= "[\n"@ + body);
        lemma_char_at(t, b, '[');
        lemma_skip_shift(t, b, 2, "[\n"@, body);
        assert(t.skip(b)[1] == t[b + 1]);
        assert(t[b + 1] == '\n');
        let q = b + 2;
        assert forall|k: int| b + 1 <= k < q + 4 implies is_ws(#[trigger] t[k]) by {
            if k >= q {
                assert(t.skip(q)[k - q] == t[k]);
                assert(json_of_categories(cs)[k - q] == ("    {\n      \"name\": "@)[k - q])
                    by {
                    if cs.len() == 1 {
                        assert(json_of_categories(cs) == json_of_category(cs[0]));
                    } else {
                        assert(json_of_categories(cs) == json_of_category(cs[0]) + ",\n"@
                            + json_of_categories(cs.drop_first()));
                    }
                }
            }
        }
        assert(t[q + 4] == '{') by {
            assert(t.skip(q)[4] == t[q + 4]);
            assert(json_of_categories(cs)[4] == ("    {\n      \"name\": "@)[4]) by {
                if cs.len() == 1 {
                    assert(json_of_categories(cs) == json_of_category(cs[0]));
                } else {
                    assert(json_of_categories(cs) == json_of_category(cs[0]) + ",\n"@
                        + json_of_categories(cs.drop_first()));
                }
            }
        }
        lemma_ws_run(t, b + 1, q + 4);
        lemma_category_lines_parse(t, q, cs, rest);
        assert(q + 4 > b && q + 4 <= t.len());
        assert(sp_value(t, b) == Some(
            (JsonView::Arr(cat_objs(cs)), q + json_of_categories(cs).len() + 4),
        ));
    }
}

/// The members of the whole written document, in order.
pub open spec fn manifest_members(m: ManifestView) -> Seq<(Seq<char>, JsonView)> {
    seq![
        ("m_GameObject"@, JsonView::Obj(header_members(m.game_object))),
        ("m_Enabled"@, JsonView::Num(m.enabled)),
        ("m_Script"@, JsonView::Obj(header_members(m.script))),
        ("m_Name"@, JsonView::Str(m.name)),
        ("categories"@, JsonView::Arr(cat_objs(m.categories))),
        ("rawAssets"@, JsonView::Arr(asset_objs(m.raw_assets))),
    ]
}

/// What the writer needs of a manifest for its text to read back: the
/// metadata within the ranges the loader accepts, and every size within
/// the number grammar.
pub open spec fn writable(m: ManifestView) -> bool {
    &&& i64::MIN <= m.game_object.path_id <= i64::MAX
    &&& i32::MIN <= m.game_object.file_id <= i32::MAX
    &&& i32::MIN <= m.enabled <= i32::MAX
    &&& i64::MIN <= m.script.path_id <= i64::MAX
    &&& i32::MIN <= m.script.file_id <= i32::MAX
    &&& cats_bounded(m.categories)
    &&& sizes_bounded(m.raw_assets)
}

#[verifier::spinoff_prover]
#[verifier::rlimit(100)]
proof fn lemma_manifest_tail(t: Seq<char>, p: int, m: ManifestView, rest: Seq<char>)
    requires
        0 <= p <= t.len(),
        writable(m),
        t.skip(p) == json_string("m_Name"@) + (": "@ + (json_string(m.name) + (
        ",\n  \"categories\": "@ + (json_of_categories_value(m.categories) + (
        ",\n  \"rawAssets\": "@ + (json_of_bucket(m.raw_assets, "    "@, "  "@) + ("\n}"@
            + rest))))))),
    ensures
        sp_members(t, p) == Some(
            (
                seq![("m_Name"@, JsonView::Str(m.name))] + (seq![
                    ("categories"@, JsonView::Arr(cat_objs(m.categories))),
                ] + seq![("rawAssets"@, JsonView::Arr(asset_objs(m.raw_assets)))]),
                p + esc_seq(m.name).len() + json_of_categories_value(m.categories).len()
                    + json_of_bucket(m.raw_assets, "    "@, "  "@).len() + 49,
            ),
        ),
        p + esc_seq(m.name).len() + json_of_categories_value(m.categories).len()
            + json_of_bucket(m.raw_assets, "    "@, "  "@).len() + 49 <= t.len(),
        t.skip(
            p + esc_seq(m.name).len() as int + json_of_categories_value(m.categories).len() as int
                + json_of_bucket(m.raw_assets, "    "@, "  "@).len() as int + 47,
        ) == "\n}"@ + rest,
{
    reveal_strlit("m_Name");
    reveal_strlit("\"m_Name\"");
    reveal_strlit("categories");
    reveal_strlit("\"categories\"");
    reveal_strlit("rawAssets");
    reveal_strlit("\"rawAssets\"");
    reveal_strlit(",\n  \"categories\": ");
    reveal_strlit(",\n  \"rawAssets\": ");
    reveal_strlit(",\n  ");
    reveal_strlit(": ");
    reveal_strlit("[]");
    reveal_strlit("[\n");
    reveal_strlit("\n}");
    reveal_strlit("\"");
    reveal_strlit("    ");
    reveal_strlit("  ");
    lemma_esc_plain("m_Name"@);
    lemma_esc_plain("categories"@);
    lemma_esc_plain("rawAssets"@);
    assert(json_string("m_Name"@) =~= "\"m_Name\""@);
    assert(json_string("categories"@) =~= "\"categories\""@);
    assert(json_string("rawAssets"@) =~= "\"rawAssets\""@);
    let cv = json_of_categories_value(m.categories);
    let bv = json_of_bucket(m.raw_assets, "    "@, "  "@);
    let x6 = bv + ("\n}"@ + rest);
    let x5c = ",\n  "@ + (json_string("rawAssets"@) + (": "@ + x6));
    let x5 = cv + x5c;
    let x4c = ",\n  "@ + (json_string("categories"@) + (": "@ + x5));
    let x4 = json_string(m.name) + x4c;
    assert(t.skip(p) =~= json_string("m_Name"@) + (": "@ + x4));
    assert(json_string(m.name)[0] == '"');
    lemma_key_colon(t, p, "m_Name"@, x4);
    lemma_string_parse_at(t, p + 10, m.name, x4c);
    let e4 = p + 10 + esc_seq(m.name).len() as int + 2;
    assert(t.skip(e4) == x4c);
    lemma_char_at(t, e4, ',');
    lemma_ws_run(t, e4, e4);
    lemma_skip_shift(t, e4, 4, ",\n  "@, json_string("categories"@) + (": "@ + x5));
    assert forall|k: int| e4 + 1 <= k < e4 + 4 implies is_ws(#[trigger] t[k]) by {
        assert(t.skip(e4)[k - e4] == t[k]);
    }
    lemma_char_at(t, e4 + 4, '"');
    lemma_ws_run(t, e4 + 1, e4 + 4);
    assert(cv[0] == '[') by {
        if m.categories.len() == 0 {
        } else {
        }
    }
    assert(!is_ws('['));
    lemma_key_colon(t, e4 + 4, "categories"@, x5);
    let v5 = e4 + 4 + 10 + 4;
    lemma_cats_value_parse_at(t, v5, m.categories, x5c);
    let e5 = v5 + cv.len() as int;
    assert(t.skip(e5) == x5c);
    lemma_char_at(t, e5, ',');
    lemma_ws_run(t, e5, e5);
    lemma_skip_shift(t, e5, 4, ",\n  "@, json_string("rawAssets"@) + (": "@ + x6));
    assert forall|k: int| e5 + 1 <= k < e5 + 4 implies is_ws(#[trigger] t[k]) by {
        assert(t.skip(e5)[k - e5] == t[k]);
    }
    lemma_char_at(t, e5 + 4, '"');
    lemma_ws_run(t, e5 + 1, e5 + 4);
    assert(bv[0] == '[') by {
        if m.raw_assets.len() == 0 {
        } else {
        }
    }
    lemma_key_colon(t, e5 + 4, "rawAssets"@, x6);
    let v6 = e5 + 4 + 9 + 4;
    lemma_bucket_parse_at(t, v6, m.raw_assets, "    "@, "  "@, "\n}"@ + rest);
    let e6 = v6 + bv.len() as int;
    assert(t.skip(e6) == "\n}"@ + rest);
    lemma_char_at(t, e6, '\n');
    assert(t.skip(e6)[1] == t[e6 + 1]);
    assert(t[e6 + 1] == '}');
    lemma_ws_run(t, e6, e6 + 1);
    assert(sp_value(t, v6) == Some((JsonView::Arr(asset_objs(m.raw_assets)), e6)));
    assert(sp_members(t, e5 + 4) == Some(
        (seq![("rawAssets"@, JsonView::Arr(asset_objs(m.raw_assets)))], e6 + 2),
    ));
    assert(sp_value(t, v5) == Some((JsonView::Arr(cat_objs(m.categories)), e5)));
    assert(sp_members(t, e4 + 4) == Some(
        (
            seq![("categories"@, JsonView::Arr(cat_objs(m.categories)))] + seq![
                ("rawAssets"@, JsonView::Arr(asset_objs(m.raw_assets))),
            ],
            e6 + 2,
        ),
    ));
    assert(sp_value(t, p + 10) == Some((JsonView::Str(m.name), e4)));
    assert(sp_members(t, p) == Some(
        (
            seq![("m_Name"@, JsonView::Str(m.name))] + (seq![
                ("categories"@, JsonView::Arr(cat_objs(m.categories))),
            ] + seq![("rawAssets"@, JsonView::Arr(asset_objs(m.raw_assets)))]),
            e6 + 2,
        ),
    ));
}

#[verifier::spinoff_prover]
#[verifier::rlimit(100)]
proof fn lemma_manifest_mid(t: Seq<char>, p: int, m: ManifestView, rest: Seq<char>)
    requires
        0 <= p <= t.len(),
        writable(m),
        t.skip(p) == text_from_enabled(m, rest),
    ensures
        sp_members(t, p) == Some(
            (
                seq![("m_Enabled"@, JsonView::Num(m.enabled))] + (seq![
                    ("m_Script"@, JsonView::Obj(header_members(m.script))),
                ] + (seq![("m_Name"@, JsonView::Str(m.name))] + (seq![
                    ("categories"@, JsonView::Arr(cat_objs(m.categories))),
                ] + seq![("rawAssets"@, JsonView::Arr(asset_objs(m.raw_assets)))]))),
                p + json_int(m.enabled).len() + json_of_header(m.script).len() + esc_seq(
                    m.name,
                ).len() + json_of_categories_value(m.categories).len() + json_of_bucket(
                    m.raw_assets,
                    "    "@,
                    "  "@,
                ).len() + 82,
            ),
        ),
        p + json_int(m.enabled).len() + json_of_header(m.script).len() + esc_seq(m.name).len()
            + json_of_categories_value(m.categories).len() + json_of_bucket(
            m.raw_assets,
            "    "@,
            "  "@,
        ).len() + 82 <= t.len(),
{
    reveal_strlit(",\n  ");
    reveal_strlit("m_Enabled");
    reveal_strlit("\"m_Enabled\"");
    reveal_strlit("m_Script");
    reveal_strlit("\"m_Script\"");
    reveal_strlit(": ");
    reveal_strlit("{ \"m_PathID\": ");
    reveal_strlit("\"");
    lemma_esc_plain("m_Enabled"@);
    lemma_esc_plain("m_Script"@);
    assert(json_string("m_Enabled"@) =~= "\"m_Enabled\""@);
    assert(json_string("m_Script"@) =~= "\"m_Script\""@);
    let h2 = json_of_header(m.script);
    let tailhyp = text_from_name(m, rest);
    assert(tailhyp == json_string("m_Name"@) + (": "@ + (json_string(m.name) + (
    ",\n  \"categories\": "@ + (json_of_categories_value(m.categories) + (
    ",\n  \"rawAssets\": "@ + (json_of_bucket(m.raw_assets, "    "@, "  "@) + ("\n}"@
        + rest))))))));
    let x3c = ",\n  "@ + tailhyp;
    let x3 = h2 + x3c;
    let x2c = ",\n  "@ + (json_string("m_Script"@) + (": "@ + x3));
    let x2 = json_int(m.enabled) + x2c;
    if m.enabled < 0 {
        reveal_strlit("-");
        assert(json_int(m.enabled)[0] == '-');
    } else {
        lemma_dec_digits_are_digits(m.enabled);
        assert(json_int(m.enabled)[0] == dec_digits(m.enabled)[0]);
    }
    assert(!is_ws(json_int(m.enabled)[0]));
    lemma_key_colon(t, p, "m_Enabled"@, x2);
    assert((",\n  "@)[0] == ',' && !is_digit(','));
    lemma_char_at(t, p + 13, json_int(m.enabled)[0]);
    lemma_number_parse_at(t, p + 13, m.enabled, x2c);
    let e2 = p + 13 + json_int(m.enabled).len() as int;
    assert(t.skip(e2) == x2c);
    lemma_char_at(t, e2, ',');
    lemma_ws_run(t, e2, e2);
    lemma_skip_shift(t, e2, 4, ",\n  "@, json_string("m_Script"@) + (": "@ + x3));
    assert forall|k: int| e2 + 1 <= k < e2 + 4 implies is_ws(#[trigger] t[k]) by {
        assert(t.skip(e2)[k - e2] == t[k]);
    }
    lemma_char_at(t, e2 + 4, '"');
    lemma_ws_run(t, e2 + 1, e2 + 4);
    assert(h2[0] == '{');
    assert(!is_ws('{'));
    lemma_key_colon(t, e2 + 4, "m_Script"@, x3);
    lemma_header_parse_at(t, e2 + 16, m.script, x3c);
    let e3 = e2 + 16 + h2.len() as int;
    assert(t.skip(e3) == x3c);
    lemma_char_at(t, e3, ',');
    lemma_ws_run(t, e3, e3);
    lemma_skip_shift(t, e3, 4, ",\n  "@, tailhyp);
    assert forall|k: int| e3 + 1 <= k < e3 + 4 implies is_ws(#[trigger] t[k]) by {
        assert(t.skip(e3)[k - e3] == t[k]);
    }
    lemma_char_at(t, e3 + 4, '"');
    lemma_ws_run(t, e3 + 1, e3 + 4);
    lemma_manifest_tail(t, e3 + 4, m, rest);
    let pe = e3 + 4 + esc_seq(m.name).len() as int + json_of_categories_value(
        m.categories,
    ).len() as int + json_of_bucket(m.raw_assets, "    "@, "  "@).len() as int + 49;
    assert(sp_value(t, e2 + 16) == Some((JsonView::Obj(header_members(m.script)), e3)));
    assert(sp_members(t, e2 + 4) == Some(
        (
            seq![("m_Script"@, JsonView::Obj(header_members(m.script)))] + (seq![
                ("m_Name"@, JsonView::Str(m.name)),
            ] + (seq![("categories"@, JsonView::Arr(cat_objs(m.categories)))] + seq![
                ("rawAssets"@, JsonView::Arr(asset_objs(m.raw_assets))),
            ])),
            pe,
        ),
    ));
    assert(sp_value(t, p + 13) == Some((JsonView::Num(m.enabled), e2)));
    assert(sp_members(t, p) == Some(
        (
            seq![("m_Enabled"@, JsonView::Num(m.enabled))] + (seq![
                ("m_Script"@, JsonView::Obj(header_members(m.script))),
            ] + (seq![("m_Name"@, JsonView::Str(m.name))] + (seq![
                ("categories"@, JsonView::Arr(cat_objs(m.categories))),
            ] + seq![("rawAssets"@, JsonView::Arr(asset_objs(m.raw_assets)))]))),
            pe,
        ),
    ));
}

#[verifier::spinoff_prover]
#[verifier::rlimit(100)]
proof fn lemma_doc_len(m: ManifestView)
    ensures
        json_of_manifest(m).len() == 106 + json_of_header(m.game_object).len() + json_int(
            m.enabled,
        ).len() + json_of_header(m.script).len() + esc_seq(m.name).len()
            + json_of_categories_value(m.categories).len() + json_of_bucket(
            m.raw_assets,
            "    "@,
            "  "@,
        ).len(),
{
    reveal_strlit("{\n  ");
    reveal_strlit(",\n  ");
    reveal_strlit(": ");
    reveal_strlit("\n}");
    reveal_strlit("\"");
    reveal_strlit("m_GameObject");
    reveal_strlit("m_Enabled");
    reveal_strlit("m_Script");
    reveal_strlit("m_Name");
    reveal_strlit(",\n  \"categories\": ");
    reveal_strlit(",\n  \"rawAssets\": ");
    lemma_esc_plain("m_GameObject"@);
    lemma_esc_plain("m_Enabled"@);
    lemma_esc_plain("m_Script"@);
    lemma_esc_plain("m_Name"@);
}

#[verifier::spinoff_prover]
#[verifier::rlimit(100)]
proof fn lemma_manifest_front(t: Seq<char>, m: ManifestView)
    requires
        writable(m),
        4 <= t.len(),
        t.skip(4) == json_string("m_GameObject"@) + (": "@ + (json_of_header(m.game_object) + (
        ",\n  "@ + text_from_enabled(m, Seq::<char>::empty())))),
    ensures
        sp_members(t, 4) == Some(
            (
                seq![("m_GameObject"@, JsonView::Obj(header_members(m.game_object)))] + (seq![
                    ("m_Enabled"@, JsonView::Num(m.enabled)),
                ] + (seq![("m_Script"@, JsonView::Obj(header_members(m.script)))] + (seq![
                    ("m_Name"@, JsonView::Str(m.name)),
                ] + (seq![("categories"@, JsonView::Arr(cat_objs(m.categories)))] + seq![
                    ("rawAssets"@, JsonView::Arr(asset_objs(m.raw_assets))),
                ])))),
                24 + json_of_header(m.game_object).len() as int + json_int(
                    m.enabled,
                ).len() as int + json_of_header(m.script).len() as int + esc_seq(
                    m.name,
                ).len() as int + json_of_categories_value(m.categories).len() as int
                    + json_of_bucket(m.raw_assets, "    "@, "  "@).len() as int + 82,
            ),
        ),
{
    reveal_strlit(",\n  ");
    reveal_strlit("m_GameObject");
    reveal_strlit(": ");
    reveal_strlit("{ \"m_PathID\": ");
    reveal_strlit("\"");
    lemma_esc_plain("m_GameObject"@);
    let rest = Seq::<char>::empty();
    let h1 = json_of_header(m.game_object);
    let midhyp = text_from_enabled(m, rest);
    let x1c = ",\n  "@ + midhyp;
    let x1 = h1 + x1c;
    assert(h1[0] == '{');
    assert(!is_ws('{'));
    lemma_key_colon(t, 4, "m_GameObject"@, x1);
    lemma_header_parse_at(t, 20, m.game_object, x1c);
    let e1 = 20 + h1.len() as int;
    assert(t.skip(e1) == x1c);
    lemma_char_at(t, e1, ',');
    lemma_ws_run(t, e1, e1);
    lemma_skip_shift(t, e1, 4, ",\n  "@, midhyp);
    assert forall|k: int| e1 + 1 <= k < e1 + 4 implies is_ws(#[trigger] t[k]) by {
        assert(t.skip(e1)[k - e1] == t[k]);
    }
    lemma_char_at(t, e1 + 4, '"');
    lemma_ws_run(t, e1 + 1, e1 + 4);
    lemma_manifest_mid(t, e1 + 4, m, rest);
    let pe = e1 + 4 + json_int(m.enabled).len() as int + json_of_header(m.script).len() as int
        + esc_seq(m.name).len() as int + json_of_categories_value(m.categories).len() as int
        + json_of_bucket(m.raw_assets, "    "@, "  "@).len() as int + 82;
    assert(sp_value(t, 20) == Some((JsonView::Obj(header_members(m.game_object)), e1)));
    assert(sp_members(t, 4) == Some(
        (
            seq![("m_GameObject"@, JsonView::Obj(header_members(m.game_object)))] + (seq![
                ("m_Enabled"@, JsonView::Num(m.enabled)),
            ] + (seq![("m_Script"@, JsonView::Obj(header_members(m.script)))] + (seq![
                ("m_Name"@, JsonView::Str(m.name)),
            ] + (seq![("categories"@, JsonView::Arr(cat_objs(m.categories)))] + seq![
                ("rawAssets"@, JsonView::Arr(asset_objs(m.raw_assets))),
            ])))),
            pe,
        ),
    ));
}

proof fn lemma_mm_norm(m: ManifestView)
    ensures
        seq![("m_GameObject"@, JsonView::Obj(header_members(m.game_object)))] + (seq![
            ("m_Enabled"@, JsonView::Num(m.enabled)),
        ] + (seq![("m_Script"@, JsonView::Obj(header_members(m.script)))] + (seq![
            ("m_Name"@, JsonView::Str(m.name)),
        ] + (seq![("categories"@, JsonView::Arr(cat_objs(m.categories)))] + seq![
            ("rawAssets"@, JsonView::Arr(asset_objs(m.raw_assets))),
        ])))) == manifest_members(m),
{
    assert(seq![("m_GameObject"@, JsonView::Obj(header_members(m.game_object)))] + (seq![
        ("m_Enabled"@, JsonView::Num(m.enabled)),
    ] + (seq![("m_Script"@, JsonView::Obj(header_members(m.script)))] + (seq![
        ("m_Name"@, JsonView::Str(m.name)),
    ] + (seq![("categories"@, JsonView::Arr(cat_objs(m.categories)))] + seq![
        ("rawAssets"@, JsonView::Arr(asset_objs(m.raw_assets))),
    ])))) =~= manifest_members(m));
}

#[verifier::spinoff_prover]
#[verifier::rlimit(100)]
proof fn lemma_manifest_parse(t: Seq<char>, m: ManifestView)
    requires
        writable(m),
        t == json_of_manifest(m),
    ensures
        sp_value(t, 0) == Some(
            (JsonView::Obj(manifest_members(m)), json_of_manifest(m).len() as int),
        ),
        json_of_manifest(m).len() == t.len(),
{
    reveal_strlit("{\n  ");
    reveal_strlit("\"");
    let h1 = json_of_header(m.game_object);
    let x1 = h1 + (",\n  "@ + text_from_enabled(m, Seq::<char>::empty()));
    assert(t.skip(0) =~= t);
    assert(t == "{\n  "@ + (json_string("m_GameObject"@) + (": "@ + x1)));
    lemma_char_at(t, 0, '{');
    lemma_skip_shift(t, 0, 4, "{\n  "@, json_string("m_GameObject"@) + (": "@ + x1));
    assert forall|k: int| 1 <= k < 4 implies is_ws(#[trigger] t[k]) by {
        assert(t.skip(0)[k] == t[k]);
    }
    lemma_char_at(t, 4, '"');
    lemma_ws_run(t, 1, 4);
    lemma_manifest_front(t, m);
    let pe = 24 + json_of_header(m.game_object).len() as int + json_int(
        m.enabled,
    ).len() as int + json_of_header(m.script).len() as int + esc_seq(m.name).len() as int
        + json_of_categories_value(m.categories).len() as int + json_of_bucket(
        m.raw_assets,
        "    "@,
        "  "@,
    ).len() as int + 82;
    let mm = manifest_members(m);
    lemma_mm_norm(m);
    assert(sp_object(t, 4) == Some((JsonView::Obj(mm), pe)));
    assert(sp_value(t, 0) == Some((JsonView::Obj(mm), pe)));
    lemma_doc_len(m);
    assert(pe == json_of_manifest(m).len());
}

proof fn lemma_header_members_read(h: UnityHeaderView)
    requires
        i64::MIN <= h.path_id <= i64::MAX,
        i32::MIN <= h.file_id <= i32::MAX,
    ensures
        sp_header_of(Some(JsonView::Obj(header_members(h)))) == Some(h),
{
    reveal_strlit("m_PathID");
    reveal_strlit("m_FileID");
    let hm = header_members(h);
    assert(("m_PathID"@)[2] == 'P' && ("m_FileID"@)[2] == 'F');
    assert("m_PathID"@ != "m_FileID"@);
    assert(jv_lookup(hm, "m_PathID"@) == Some(JsonView::Num(h.path_id)));
    assert(hm.drop_first() =~= seq![("m_FileID"@, JsonView::Num(h.file_id))]);
    assert(jv_lookup(seq![("m_FileID"@, JsonView::Num(h.file_id))], "m_FileID"@) == Some(
        JsonView::Num(h.file_id),
    ));
    assert(jv_lookup(hm, "m_FileID"@) == Some(JsonView::Num(h.file_id)));
    assert(jv_field(hm, "m_PathID"@, "path_id"@) == Some(JsonView::Num(h.path_id)));
    assert(jv_field(hm, "m_FileID"@, "file_id"@) == Some(JsonView::Num(h.file_id)));
    assert(sp_num_field(hm, "m_PathID"@, "path_id"@, i64::MIN as int, i64::MAX as int) == Some(
        h.path_id,
    ));
    assert(sp_num_field(hm, "m_FileID"@, "file_id"@, i32::MIN as int, i32::MAX as int) == Some(
        h.file_id,
    ));
    assert((UnityHeaderView { path_id: h.path_id, file_id: h.file_id }) =~= h);
}

#[verifier::spinoff_prover]
#[verifier::rlimit(100)]
proof fn lemma_manifest_members_read(m: ManifestView)
    requires
        writable(m),
        m.wf(),
        forall|k: int|
            0 <= k < m.categories.len() ==> unique_names(
                (#[trigger] m.categories[k]).encrypted_assets,
            ),
    ensures
        sp_manifest_of(JsonView::Obj(manifest_members(m))) == Some(m),
{
    reveal_strlit("m_GameObject");
    reveal_strlit("m_Enabled");
    reveal_strlit("m_Script");
    reveal_strlit("m_Name");
    reveal_strlit("categories");
    reveal_strlit("rawAssets");
    let mm = manifest_members(m);
    let kv2 = ("m_Enabled"@, JsonView::Num(m.enabled));
    let kv3 = ("m_Script"@, JsonView::Obj(header_members(m.script)));
    let kv4 = ("m_Name"@, JsonView::Str(m.name));
    let kv5 = ("categories"@, JsonView::Arr(cat_objs(m.categories)));
    let kv6 = ("rawAssets"@, JsonView::Arr(asset_objs(m.raw_assets)));
    let mm1 = seq![kv2, kv3, kv4, kv5, kv6];
    let mm2 = seq![kv3, kv4, kv5, kv6];
    let mm3 = seq![kv4, kv5, kv6];
    let mm4 = seq![kv5, kv6];
    let mm5 = seq![kv6];
    assert(mm.drop_first() =~= mm1);
    assert(mm1.drop_first() =~= mm2);
    assert(mm2.drop_first() =~= mm3);
    assert(mm3.drop_first() =~= mm4);
    assert(mm4.drop_first() =~= mm5);
    assert(("m_GameObject"@).len() == 12 && ("m_Enabled"@).len() == 9 && ("m_Script"@).len() == 8
        && ("m_Name"@).len() == 6 && ("categories"@).len() == 10 && ("rawAssets"@).len() == 9);
    assert(("m_Enabled"@)[0] == 'm' && ("rawAssets"@)[0] == 'r');
    assert(jv_lookup(mm, "m_GameObject"@) == Some(
        JsonView::Obj(header_members(m.game_object)),
    ));
    assert(jv_field(mm, "m_GameObject"@, "game_object"@) == Some(
        JsonView::Obj(header_members(m.game_object)),
    ));
    lemma_header_members_read(m.game_object);
    assert(jv_lookup(mm1, "m_Enabled"@) == Some(JsonView::Num(m.enabled)));
    assert(jv_lookup(mm, "m_Enabled"@) == Some(JsonView::Num(m.enabled)));
    assert(jv_field(mm, "m_Enabled"@, "enabled"@) == Some(JsonView::Num(m.enabled)));
    assert(sp_num_field(mm, "m_Enabled"@, "enabled"@, i32::MIN as int, i32::MAX as int) == Some(
        m.enabled,
    ));
    assert(jv_lookup(mm2, "m_Script"@) == Some(JsonView::Obj(header_members(m.script))));
    assert(jv_lookup(mm1, "m_Script"@) == Some(JsonView::Obj(header_members(m.script))));
    assert(jv_lookup(mm, "m_Script"@) == Some(JsonView::Obj(header_members(m.script))));
    assert(jv_field(mm, "m_Script"@, "script"@) == Some(
        JsonView::Obj(header_members(m.script)),
    ));
    lemma_header_members_read(m.script);
    assert(jv_lookup(mm3, "m_Name"@) == Some(JsonView::Str(m.name)));
    assert(jv_lookup(mm2, "m_Name"@) == Some(JsonView::Str(m.name)));
    assert(jv_lookup(mm1, "m_Name"@) == Some(JsonView::Str(m.name)));
    assert(jv_lookup(mm, "m_Name"@) == Some(JsonView::Str(m.name)));
    assert(jv_field(mm, "m_Name"@, "name"@) == Some(JsonView::Str(m.name)));
    assert(jv_lookup(mm4, "categories"@) == Some(JsonView::Arr(cat_objs(m.categories))));
    assert(jv_lookup(mm3, "categories"@) == Some(JsonView::Arr(cat_objs(m.categories))));
    assert(jv_lookup(mm2, "categories"@) == Some(JsonView::Arr(cat_objs(m.categories))));
    assert(jv_lookup(mm1, "categories"@) == Some(JsonView::Arr(cat_objs(m.categories))));
    assert(jv_lookup(mm, "categories"@) == Some(JsonView::Arr(cat_objs(m.categories))));
    assert(forall|k: int|
        0 <= k < m.categories.len() ==> unique_names((#[trigger] m.categories[k]).assets));
    lemma_categories_of_objs(m.categories);
    assert(jv_lookup(mm5, "rawAssets"@) == Some(JsonView::Arr(asset_objs(m.raw_assets))));
    assert(jv_lookup(mm4, "rawAssets"@) == Some(JsonView::Arr(asset_objs(m.raw_assets))));
    assert(jv_lookup(mm3, "rawAssets"@) == Some(JsonView::Arr(asset_objs(m.raw_assets))));
    assert(jv_lookup(mm2, "rawAssets"@) == Some(JsonView::Arr(asset_objs(m.raw_assets))));
    assert(jv_lookup(mm1, "rawAssets"@) == Some(JsonView::Arr(asset_objs(m.raw_assets))));
    assert(jv_lookup(mm, "rawAssets"@) == Some(JsonView::Arr(asset_objs(m.raw_assets))));
    assert(jv_field(mm, "rawAssets"@, "raw_assets"@) == Some(
        JsonView::Arr(asset_objs(m.raw_assets)),
    ));
    lemma_assets_of_objs(m.raw_assets);
    assert(Seq::<AssetView>::empty() + m.raw_assets =~= m.raw_assets);
    lemma_fww_unique_noop(Seq::<AssetView>::empty(), m.raw_assets);
    assert(sp_asset_list(JsonView::Arr(asset_objs(m.raw_assets))) == Some(m.raw_assets));
    assert((ManifestView {
        game_object: m.game_object,
        enabled: m.enabled,
        script: m.script,
        name: m.name,
        categories: m.categories,
        raw_assets: m.raw_assets,
    }) =~= m);
}

/// A written document loads back as the very manifest it was written
/// from: the writer and the loader invert each other, whole documents
/// included, for every manifest whose buckets hold no duplicate names
/// and whose metadata lies within the ranges the schema carries.
pub proof fn lemma_manifest_round_trip(m: ManifestView)
    requires
        writable(m),
        m.wf(),
        forall|k: int|
            0 <= k < m.categories.len() ==> unique_names(
                (#[trigger] m.categories[k]).encrypted_assets,
            ),
    ensures
        sp_load_manifest(json_of_manifest(m)) == Some(m),
{
    reveal_strlit("{\n  ");
    let t = json_of_manifest(m);
    lemma_manifest_parse(t, m);
    assert(t[0] == ("{\n  "@)[0]);
    assert(t[0] == '{' && !is_ws('{'));
    lemma_ws_run(t, 0, 0);
    assert(sp_ws(t, t.len() as int) == t.len());
    assert(sp_document(t) == Some(JsonView::Obj(manifest_members(m))));
    lemma_manifest_members_read(m);
}

} // verus!
