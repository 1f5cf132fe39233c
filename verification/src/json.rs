//! A small JSON reader and its specification: documents are parsed into
//! a value tree. Strings carry the single-character escapes and the
//! `\uXXXX` form, surrogate pairs included. A number is held as a
//! 64-bit signed integer where it is one; any other number - with a
//! fraction, an exponent, or beyond that range - is kept as an opaque
//! token, so that a document stays readable while a field that needs an
//! integer still rejects it. The reader is lenient on two points: an
//! integer may carry leading zeroes, and a control character may stand
//! unescaped inside a string.

use vstd::prelude::*;

verus! {

broadcast use vstd::std_specs::vec::group_vec_axioms;

/// One parsed JSON value. Object members are kept in document order,
/// duplicate keys and all.
pub enum JsonValue {
    Null,
    Bool(bool),
    Num(i64),
    NonInt,
    Str(String),
    Arr(Vec<JsonValue>),
    Obj(Vec<(String, JsonValue)>),
}

/// Mathematical image of a [`JsonValue`].
pub ghost enum JsonView {
    Null,
    Bool(bool),
    Num(int),
    NonInt,
    Str(Seq<char>),
    Arr(Seq<JsonView>),
    Obj(Seq<(Seq<char>, JsonView)>),
}

/// The image of an executable JSON tree.
pub open spec fn json_view(v: JsonValue) -> JsonView
    decreases v,
{
    match v {
        JsonValue::Null => JsonView::Null,
        JsonValue::Bool(b) => JsonView::Bool(b),
        JsonValue::Num(n) => JsonView::Num(n as int),
        JsonValue::NonInt => JsonView::NonInt,
        JsonValue::Str(s) => JsonView::Str(s@),
        JsonValue::Arr(items) => JsonView::Arr(
            Seq::new(
                items@.len(),
                |k: int|
                    if 0 <= k < items@.len() {
                        json_view(items@[k])
                    } else {
                        JsonView::Null
                    },
            ),
        ),
        JsonValue::Obj(members) => JsonView::Obj(
            Seq::new(
                members@.len(),
                |k: int|
                    if 0 <= k < members@.len() {
                        (members@[k].0@, json_view(members@[k].1))
                    } else {
                        (Seq::<char>::empty(), JsonView::Null)
                    },
            ),
        ),
    }
}

/// The images of a sequence of JSON trees.
pub open spec fn json_views(items: Seq<JsonValue>) -> Seq<JsonView> {
    Seq::new(items.len(), |k: int| json_view(items[k]))
}

/// The images of a sequence of object members.
pub open spec fn member_views(members: Seq<(String, JsonValue)>) -> Seq<(Seq<char>, JsonView)> {
    Seq::new(members.len(), |k: int| (members[k].0@, json_view(members[k].1)))
}

/// The image of an array tree, named for callers.
pub proof fn lemma_view_arr(items: Vec<JsonValue>)
    ensures
        json_view(JsonValue::Arr(items)) == JsonView::Arr(json_views(items@)),
{
    let jv = json_view(JsonValue::Arr(items));
    assert(jv->Arr_0 =~= json_views(items@));
}

/// The image of an object tree, named for callers.
pub proof fn lemma_view_obj(members: Vec<(String, JsonValue)>)
    ensures
        json_view(JsonValue::Obj(members)) == JsonView::Obj(member_views(members@)),
{
    let jv = json_view(JsonValue::Obj(members));
    assert(jv->Obj_0 =~= member_views(members@));
}

/// JSON insignificant whitespace.
pub open spec fn is_ws(c: char) -> bool {
    c == ' ' || c == '\n' || c == '\r' || c == '\t'
}

pub open spec fn is_digit(c: char) -> bool {
    '0' <= c && c <= '9'
}

pub open spec fn digit_val(c: char) -> int {
    c as int - '0' as int
}

/// The position after the whitespace run starting at `i`.
pub open spec fn sp_ws(s: Seq<char>, i: int) -> int
    decreases s.len() - i,
{
    if 0 <= i < s.len() && is_ws(s[i]) {
        sp_ws(s, i + 1)
    } else {
        i
    }
}

pub open spec fn is_hex(c: char) -> bool {
    ('0' <= c && c <= '9') || ('a' <= c && c <= 'f') || ('A' <= c && c <= 'F')
}

pub open spec fn hex_val(c: char) -> int {
    if '0' <= c && c <= '9' {
        c as int - '0' as int
    } else if 'a' <= c && c <= 'f' {
        c as int - 'a' as int + 10
    } else {
        c as int - 'A' as int + 10
    }
}

/// Whether four hex digits stand at `i`.
pub open spec fn hex4_at(s: Seq<char>, i: int) -> bool {
    &&& i + 4 <= s.len()
    &&& is_hex(s[i])
    &&& is_hex(s[i + 1])
    &&& is_hex(s[i + 2])
    &&& is_hex(s[i + 3])
}

/// The value of the four hex digits at `i`.
pub open spec fn hex4_val(s: Seq<char>, i: int) -> int {
    hex_val(s[i]) * 4096 + hex_val(s[i + 1]) * 256 + hex_val(s[i + 2]) * 16 + hex_val(s[i + 3])
}

/// What a backslash escape stands for, or nothing if unrecognised.
pub open spec fn unescape(c: char) -> Option<char> {
    if c == '"' {
        Some('"')
    } else if c == '\\' {
        Some('\\')
    } else if c == '/' {
        Some('/')
    } else if c == 'n' {
        Some('\n')
    } else if c == 'r' {
        Some('\r')
    } else if c == 't' {
        Some('\t')
    } else if c == 'b' {
        Some('\u{8}')
    } else if c == 'f' {
        Some('\u{c}')
    } else {
        None
    }
}

/// The string contents from `i` (just past the opening quote) to the
/// closing quote, unescaped, with the position after the quote.
#[verifier::opaque]
pub open spec fn sp_string_body(s: Seq<char>, i: int) -> Option<(Seq<char>, int)>
    decreases s.len() - i,
{
    if i < 0 || i >= s.len() {
        None
    } else if s[i] == '"' {
        Some((Seq::<char>::empty(), i + 1))
    } else if s[i] == '\\' {
        if i + 1 < s.len() {
            if s[i + 1] == 'u' {
                if hex4_at(s, i + 2) {
                    let v = hex4_val(s, i + 2);
                    if 0xD800 <= v <= 0xDBFF {
                        if i + 8 <= s.len() && s[i + 6] == '\\' && s[i + 7] == 'u' && hex4_at(
                            s,
                            i + 8,
                        ) {
                            let w = hex4_val(s, i + 8);
                            if 0xDC00 <= w <= 0xDFFF {
                                let cp = 0x10000 + (v - 0xD800) * 0x400 + (w - 0xDC00);
                                match sp_string_body(s, i + 12) {
                                    None => None,
                                    Some((t, j)) => Some((seq![(cp as u32) as char] + t, j)),
                                }
                            } else {
                                None
                            }
                        } else {
                            None
                        }
                    } else if 0xDC00 <= v <= 0xDFFF {
                        None
                    } else {
                        match sp_string_body(s, i + 6) {
                            None => None,
                            Some((t, j)) => Some((seq![(v as u32) as char] + t, j)),
                        }
                    }
                } else {
                    None
                }
            } else {
                match unescape(s[i + 1]) {
                    None => None,
                    Some(c) => match sp_string_body(s, i + 2) {
                        None => None,
                        Some((t, j)) => Some((seq![c] + t, j)),
                    },
                }
            }
        } else {
            None
        }
    } else {
        match sp_string_body(s, i + 1) {
            None => None,
            Some((t, j)) => Some((seq![s[i]] + t, j)),
        }
    }
}

/// A quoted string starting at `i`.
pub open spec fn sp_string(s: Seq<char>, i: int) -> Option<(Seq<char>, int)> {
    if 0 <= i < s.len() && s[i] == '"' {
        sp_string_body(s, i + 1)
    } else {
        None
    }
}

/// The position after the digit run starting at `i`.
pub open spec fn digits_end(s: Seq<char>, i: int) -> int
    decreases s.len() - i,
{
    if 0 <= i < s.len() && is_digit(s[i]) {
        digits_end(s, i + 1)
    } else {
        i
    }
}

/// The value of the digits at positions `i` up to `j`.
pub open spec fn digits_value(s: Seq<char>, i: int, j: int) -> int
    decreases j - i,
{
    if i < j {
        digits_value(s, i, j - 1) * 10 + digit_val(s[j - 1])
    } else {
        0
    }
}

/// A number literal starting at `i`: an optional minus sign, a digit
/// run, and an optional fraction and exponent. One that is an integer
/// within 64-bit signed range is held as its value; any other number is
/// held as the opaque non-integer token.
#[verifier::opaque]
pub open spec fn sp_number(s: Seq<char>, i: int) -> Option<(JsonView, int)> {
    let neg = 0 <= i < s.len() && s[i] == '-';
    let d0 = if neg {
        i + 1
    } else {
        i
    };
    let j1 = digits_end(s, d0);
    if j1 == d0 {
        None
    } else if j1 < s.len() && s[j1] == '.' {
        let j2 = digits_end(s, j1 + 1);
        if j2 == j1 + 1 {
            None
        } else {
            sp_exponent(s, j2, true)
        }
    } else {
        match sp_exponent(s, j1, false) {
            None => None,
            Some((JsonView::NonInt, j3)) => Some((JsonView::NonInt, j3)),
            Some((_, _)) => {
                let v = if neg {
                    -digits_value(s, d0, j1)
                } else {
                    digits_value(s, d0, j1)
                };
                if i64::MIN <= v <= i64::MAX {
                    Some((JsonView::Num(v), j1))
                } else {
                    Some((JsonView::NonInt, j1))
                }
            },
        }
    }
}

/// The optional exponent part at `i`. Yields the non-integer token past
/// it when one stands there (or when the number already had a fraction),
/// and the null placeholder at `i` itself when none does.
#[verifier::opaque]
pub open spec fn sp_exponent(s: Seq<char>, i: int, frac: bool) -> Option<(JsonView, int)> {
    if 0 <= i < s.len() && (s[i] == 'e' || s[i] == 'E') {
        let e0 = if i + 1 < s.len() && (s[i + 1] == '+' || s[i + 1] == '-') {
            i + 2
        } else {
            i + 1
        };
        let e1 = digits_end(s, e0);
        if e1 == e0 {
            None
        } else {
            Some((JsonView::NonInt, e1))
        }
    } else if frac {
        Some((JsonView::NonInt, i))
    } else {
        Some((JsonView::Null, i))
    }
}

/// A JSON value starting at `i`, with the position after it. Leading
/// whitespace is not accepted here; the positions handed to the array and
/// object rules are already past it.
pub open spec fn sp_value(s: Seq<char>, i: int) -> Option<(JsonView, int)>
    decreases s.len() - i, 0int,
{
    if i < 0 || i >= s.len() {
        None
    } else if s[i] == '"' {
        match sp_string(s, i) {
            None => None,
            Some((t, j)) => Some((JsonView::Str(t), j)),
        }
    } else if s[i] == '{' {
        let i2 = sp_ws(s, i + 1);
        if i2 > i && i2 <= s.len() {
            sp_object(s, i2)
        } else {
            None
        }
    } else if s[i] == '[' {
        let i2 = sp_ws(s, i + 1);
        if i2 > i && i2 <= s.len() {
            sp_array(s, i2)
        } else {
            None
        }
    } else if s[i] == 't' {
        if i + 4 <= s.len() && s[i + 1] == 'r' && s[i + 2] == 'u' && s[i + 3] == 'e' {
            Some((JsonView::Bool(true), i + 4))
        } else {
            None
        }
    } else if s[i] == 'f' {
        if i + 5 <= s.len() && s[i + 1] == 'a' && s[i + 2] == 'l' && s[i + 3] == 's' && s[i + 4]
            == 'e' {
            Some((JsonView::Bool(false), i + 5))
        } else {
            None
        }
    } else if s[i] == 'n' {
        if i + 4 <= s.len() && s[i + 1] == 'u' && s[i + 2] == 'l' && s[i + 3] == 'l' {
            Some((JsonView::Null, i + 4))
        } else {
            None
        }
    } else if s[i] == '-' || is_digit(s[i]) {
        sp_number(s, i)
    } else {
        None
    }
}

/// The rest of an array, from the position (past whitespace) after `[`.
pub open spec fn sp_array(s: Seq<char>, i: int) -> Option<(JsonView, int)>
    decreases s.len() - i, 2int,
{
    if 0 <= i < s.len() && s[i] == ']' {
        Some((JsonView::Arr(Seq::empty()), i + 1))
    } else {
        match sp_elements(s, i) {
            None => None,
            Some((items, j)) => Some((JsonView::Arr(items), j)),
        }
    }
}

/// One or more comma-separated array elements and the closing bracket.
pub open spec fn sp_elements(s: Seq<char>, i: int) -> Option<(Seq<JsonView>, int)>
    decreases s.len() - i, 1int,
{
    match sp_value(s, i) {
        None => None,
        Some((v, j)) => {
            let k = sp_ws(s, j);
            if 0 <= k < s.len() && s[k] == ',' {
                let n = sp_ws(s, k + 1);
                if n > i && n <= s.len() {
                    match sp_elements(s, n) {
                        None => None,
                        Some((rest, e)) => Some((seq![v] + rest, e)),
                    }
                } else {
                    None
                }
            } else if 0 <= k < s.len() && s[k] == ']' {
                Some((seq![v], k + 1))
            } else {
                None
            }
        },
    }
}

/// The rest of an object, from the position (past whitespace) after `{`.
pub open spec fn sp_object(s: Seq<char>, i: int) -> Option<(JsonView, int)>
    decreases s.len() - i, 2int,
{
    if 0 <= i < s.len() && s[i] == '}' {
        Some((JsonView::Obj(Seq::empty()), i + 1))
    } else {
        match sp_members(s, i) {
            None => None,
            Some((members, j)) => Some((JsonView::Obj(members), j)),
        }
    }
}

/// One or more `"key": value` members and the closing brace.
pub open spec fn sp_members(s: Seq<char>, i: int) -> Option<(Seq<(Seq<char>, JsonView)>, int)>
    decreases s.len() - i, 1int,
{
    match sp_string(s, i) {
        None => None,
        Some((key, j)) => {
            let k = sp_ws(s, j);
            if 0 <= k < s.len() && s[k] == ':' {
                let vi = sp_ws(s, k + 1);
                if vi > i && vi <= s.len() {
                    match sp_value(s, vi) {
                        None => None,
                        Some((v, j2)) => {
                            let k2 = sp_ws(s, j2);
                            if 0 <= k2 < s.len() && s[k2] == ',' {
                                let n = sp_ws(s, k2 + 1);
                                if n > i && n <= s.len() {
                                    match sp_members(s, n) {
                                        None => None,
                                        Some((rest, e)) => Some((seq![(key, v)] + rest, e)),
                                    }
                                } else {
                                    None
                                }
                            } else if 0 <= k2 < s.len() && s[k2] == '}' {
                                Some((seq![(key, v)], k2 + 1))
                            } else {
                                None
                            }
                        },
                    }
                } else {
                    None
                }
            } else {
                None
            }
        },
    }
}

/// A whole document: one value surrounded by nothing but whitespace.
pub open spec fn sp_document(s: Seq<char>) -> Option<JsonView> {
    match sp_value(s, sp_ws(s, 0)) {
        None => None,
        Some((v, j)) => if sp_ws(s, j) == s.len() {
            Some(v)
        } else {
            None
        },
    }
}

/// Relies on `char::from_u32`: the scalar value as a character, or
/// nothing where the value is a surrogate or beyond the last code point.
pub assume_specification[ char::from_u32 ](v: u32) -> (r: Option<char>)
    ensures
        r == (if v < 0xD800 || (0xE000 <= v && v <= 0x10FFFF) {
            Some(v as char)
        } else {
            None::<char>
        }),
;

/// Relies on `String::push`: it appends the one character.
pub assume_specification[ String::push ](s: &mut String, c: char)
    ensures
        final(s)@ == old(s)@.push(c),
;

/// The characters of `text`, one vector entry each.
pub fn to_chars(text: &str) -> (v: Vec<char>)
    ensures
        v@ == text@,
{
    let n = text.unicode_len();
    let mut v: Vec<char> = Vec::new();
    let mut i: usize = 0;
    while i < n
        invariant
            n == text@.len(),
            0 <= i <= n,
            v@ == text@.subrange(0, i as int),
        decreases n - i,
    {
        v.push(text.get_char(i));
        i += 1;
        proof {
            assert(v@ =~= text@.subrange(0, i as int));
        }
    }
    proof {
        assert(text@.subrange(0, n as int) =~= text@);
    }
    v
}

/// The position after the whitespace run starting at `i`.
#[verifier::loop_isolation(false)]
fn skip_ws(s: &Vec<char>, i: usize) -> (j: usize)
    requires
        i <= s@.len(),
    ensures
        j == sp_ws(s@, i as int),
        i <= j <= s@.len(),
{
    let mut j = i;
    while j < s.len() && (s[j] == ' ' || s[j] == '\n' || s[j] == '\r' || s[j] == '\t')
        invariant
            i <= j <= s@.len(),
            sp_ws(s@, i as int) == sp_ws(s@, j as int),
        decreases s@.len() - j,
    {
        j += 1;
    }
    j
}

fn hex_digit(c: char) -> (r: Option<u32>)
    ensures
        match r {
            Some(v) => is_hex(c) && v as int == hex_val(c) && v < 16,
            None => !is_hex(c),
        },
{
    if c >= '0' && c <= '9' {
        Some((c as u32) - ('0' as u32))
    } else if c >= 'a' && c <= 'f' {
        Some((c as u32) - ('a' as u32) + 10)
    } else if c >= 'A' && c <= 'F' {
        Some((c as u32) - ('A' as u32) + 10)
    } else {
        None
    }
}

/// The value of the four hex digits at `k`, if four stand there.
fn hex4(s: &Vec<char>, k: usize) -> (r: Option<u32>)
    requires
        k <= s@.len(),
    ensures
        match r {
            Some(v) => hex4_at(s@, k as int) && v as int == hex4_val(s@, k as int) && v
                <= 0xFFFF,
            None => !hex4_at(s@, k as int),
        },
{
    if s.len() - k < 4 {
        return None;
    }
    let d0 = match hex_digit(s[k]) {
        Some(d) => d,
        None => {
            return None;
        },
    };
    let d1 = match hex_digit(s[k + 1]) {
        Some(d) => d,
        None => {
            return None;
        },
    };
    let d2 = match hex_digit(s[k + 2]) {
        Some(d) => d,
        None => {
            return None;
        },
    };
    let d3 = match hex_digit(s[k + 3]) {
        Some(d) => d,
        None => {
            return None;
        },
    };
    Some(d0 * 4096 + d1 * 256 + d2 * 16 + d3)
}

fn unescape_exec(c: char) -> (r: Option<char>)
    ensures
        r == unescape(c),
{
    if c == '"' {
        Some('"')
    } else if c == '\\' {
        Some('\\')
    } else if c == '/' {
        Some('/')
    } else if c == 'n' {
        Some('\n')
    } else if c == 'r' {
        Some('\r')
    } else if c == 't' {
        Some('\t')
    } else if c == 'b' {
        Some('\u{8}')
    } else if c == 'f' {
        Some('\u{c}')
    } else {
        None
    }
}

/// A quoted string starting at `i`, unescaped.
#[verifier::loop_isolation(false)]
fn parse_string(s: &Vec<char>, i: usize) -> (r: Option<(String, usize)>)
    requires
        i <= s@.len(),
    ensures
        ({
            let sp = sp_string(s@, i as int);
            match r {
                None => sp is None,
                Some((t, j)) => sp == Some((t@, j as int)) && i < j <= s@.len(),
            }
        }),
{
    proof {
        reveal(sp_string_body);
    }
    if i >= s.len() {
        return None;
    }
    if s[i] != '"' {
        return None;
    }
    let mut acc = String::new();
    let mut p = i + 1;
    loop
        invariant
            i + 1 <= p <= s@.len(),
            sp_string_body(s@, i + 1) == (match sp_string_body(s@, p as int) {
                None => None::<(Seq<char>, int)>,
                Some((t, j)) => Some((acc@ + t, j)),
            }),
        decreases s@.len() - p,
    {
        proof {
            reveal(sp_string_body);
        }
        if p >= s.len() {
            return None;
        }
        let c = s[p];
        if c == '"' {
            proof {
                assert(acc@ + Seq::<char>::empty() =~= acc@);
            }
            return Some((acc, p + 1));
        } else if c == '\\' {
            if p + 1 >= s.len() {
                return None;
            }
            let e = s[p + 1];
            if e == 'u' {
                let v = match hex4(s, p + 2) {
                    Some(v) => v,
                    None => {
                        return None;
                    },
                };
                if 0xD800 <= v && v <= 0xDBFF {
                    if !(s.len() - p >= 8 && s[p + 6] == '\\' && s[p + 7] == 'u') {
                        return None;
                    }
                    let w = match hex4(s, p + 8) {
                        Some(w) => w,
                        None => {
                            return None;
                        },
                    };
                    if !(0xDC00 <= w && w <= 0xDFFF) {
                        return None;
                    }
                    let cp = 0x10000 + (v - 0xD800) * 0x400 + (w - 0xDC00);
                    let u = match char::from_u32(cp) {
                        Some(u) => u,
                        None => {
                            proof {
                                assert(false);
                            }
                            return None;
                        },
                    };
                    let ghost acc0 = acc@;
                    acc.push(u);
                    proof {
                        assert(acc@ =~= acc0 + seq![u]);
                        match sp_string_body(s@, p + 12) {
                            None => {},
                            Some((tt, jj)) => {
                                assert(acc0 + (seq![u] + tt) =~= acc@ + tt);
                            },
                        }
                    }
                    p = p + 12;
                    continue ;
                }
                if 0xDC00 <= v && v <= 0xDFFF {
                    return None;
                }
                let u = match char::from_u32(v) {
                    Some(u) => u,
                    None => {
                        proof {
                            assert(false);
                        }
                        return None;
                    },
                };
                let ghost acc0 = acc@;
                acc.push(u);
                proof {
                    assert(acc@ =~= acc0 + seq![u]);
                    match sp_string_body(s@, p + 6) {
                        None => {},
                        Some((tt, jj)) => {
                            assert(acc0 + (seq![u] + tt) =~= acc@ + tt);
                        },
                    }
                }
                p = p + 6;
                continue ;
            }
            match unescape_exec(e) {
                None => {
                    return None;
                },
                Some(u) => {
                    let ghost acc0 = acc@;
                    acc.push(u);
                    proof {
                        assert(acc@ =~= acc0 + seq![u]);
                        match sp_string_body(s@, p + 2) {
                            None => {},
                            Some((t, j)) => {
                                assert(acc0 + (seq![u] + t) =~= acc@ + t);
                            },
                        }
                    }
                    p = p + 2;
                },
            }
        } else {
            let ghost acc0 = acc@;
            acc.push(c);
            proof {
                assert(acc@ =~= acc0 + seq![c]);
                match sp_string_body(s@, p + 1) {
                    None => {},
                    Some((t, j)) => {
                        assert(acc0 + (seq![c] + t) =~= acc@ + t);
                    },
                }
            }
            p = p + 1;
        }
    }
}

proof fn lemma_digits_end(s: Seq<char>, i: int)
    requires
        0 <= i <= s.len(),
    ensures
        i <= digits_end(s, i) <= s.len(),
        forall|m: int| i <= m < digits_end(s, i) ==> is_digit(s[m]),
        digits_end(s, i) < s.len() ==> !is_digit(s[digits_end(s, i)]),
    decreases s.len() - i,
{
    if i < s.len() && is_digit(s[i]) {
        lemma_digits_end(s, i + 1);
    }
}

proof fn lemma_digits_value_nonneg(s: Seq<char>, i: int, j: int)
    requires
        forall|m: int| i <= m < j ==> is_digit(s[m]),
    ensures
        digits_value(s, i, j) >= 0,
    decreases j - i,
{
    if i < j {
        lemma_digits_value_nonneg(s, i, j - 1);
    }
}

proof fn lemma_digits_value_mono(s: Seq<char>, i: int, j: int, k: int)
    requires
        i <= j <= k,
        forall|m: int| i <= m < k ==> is_digit(s[m]),
    ensures
        digits_value(s, i, j) <= digits_value(s, i, k),
    decreases k - j,
{
    if j < k {
        lemma_digits_value_mono(s, i, j, k - 1);
        lemma_digits_value_nonneg(s, i, k - 1);
    }
}

/// The position after the digit run starting at `k`.
fn scan_digits(s: &Vec<char>, k: usize) -> (j: usize)
    requires
        k <= s@.len(),
    ensures
        j as int == digits_end(s@, k as int),
        k <= j <= s@.len(),
{
    let mut j = k;
    while j < s.len() && s[j] >= '0' && s[j] <= '9'
        invariant
            k <= j <= s@.len(),
            digits_end(s@, k as int) == digits_end(s@, j as int),
        decreases s@.len() - j,
    {
        j += 1;
    }
    j
}

/// The position after the optional exponent part at `k`: `Some(k)` when
/// none stands there, the position past it when one does, nothing when
/// one starts but is malformed.
fn exponent_end(s: &Vec<char>, k: usize) -> (r: Option<usize>)
    requires
        k <= s@.len(),
    ensures
        match r {
            None => sp_exponent(s@, k as int, true) is None && sp_exponent(
                s@,
                k as int,
                false,
            ) is None,
            Some(e) => k <= e <= s@.len() && sp_exponent(s@, k as int, true) == Some(
                (JsonView::NonInt, e as int),
            ) && (e > k ==> sp_exponent(s@, k as int, false) == Some(
                (JsonView::NonInt, e as int),
            )) && (e == k ==> sp_exponent(s@, k as int, false) == Some(
                (JsonView::Null, k as int),
            )),
        },
{
    proof {
        reveal(sp_exponent);
    }
    if k < s.len() && (s[k] == 'e' || s[k] == 'E') {
        let e0 = if k + 1 < s.len() && (s[k + 1] == '+' || s[k + 1] == '-') {
            k + 2
        } else {
            k + 1
        };
        let e1 = scan_digits(s, e0);
        if e1 == e0 {
            None
        } else {
            Some(e1)
        }
    } else {
        Some(k)
    }
}

/// A number literal starting at `i`; an integer in 64-bit signed range
/// comes back as its value, any other number as the opaque token.
#[verifier::loop_isolation(false)]
fn parse_number(s: &Vec<char>, i: usize) -> (r: Option<(JsonValue, usize)>)
    requires
        i <= s@.len(),
    ensures
        ({
            let sp = sp_number(s@, i as int);
            match r {
                None => sp is None,
                Some((v, j)) => sp == Some((json_view(v), j as int)) && i < j <= s@.len(),
            }
        }),
{
    proof {
        reveal(sp_number);
    }
    let mut neg = false;
    let mut d0 = i;
    if i < s.len() && s[i] == '-' {
        neg = true;
        d0 = i + 1;
    }
    proof {
        lemma_digits_end(s@, d0 as int);
    }
    let ghost de = digits_end(s@, d0 as int);
    let mut j = d0;
    let mut mag: u64 = 0;
    let mut over = false;
    while j < s.len() && s[j] >= '0' && s[j] <= '9'
        invariant
            d0 <= j <= s@.len(),
            j <= de,
            !over ==> mag as int == digits_value(s@, d0 as int, j as int) && mag
                <= 9223372036854775808u64,
            over ==> digits_value(s@, d0 as int, j as int) > 9223372036854775808int,
        decreases s@.len() - j,
    {
        let c = s[j];
        let d = (c as u32) - ('0' as u32);
        let d64 = d as u64;
        proof {
            assert(is_digit(s@[j as int]));
            assert(d64 as int == digit_val(s@[j as int]));
            assert(j < de);
            assert(digits_value(s@, d0 as int, j + 1) == digits_value(s@, d0 as int, j as int)
                * 10 + digit_val(s@[j as int]));
            lemma_digits_value_nonneg(s@, d0 as int, j as int);
        }
        if over {
        } else if mag > 922337203685477580u64 {
            over = true;
            proof {
                assert(digits_value(s@, d0 as int, j + 1) > 9223372036854775808int);
            }
        } else {
            let mag10 = mag * 10;
            if mag10 > 9223372036854775808u64 - d64 {
                over = true;
                proof {
                    assert(digits_value(s@, d0 as int, j + 1) > 9223372036854775808int);
                }
            } else {
                mag = mag10 + d64;
            }
        }
        j += 1;
    }
    proof {
        assert(j == de) by {
            if j < de {
                assert(is_digit(s@[j as int]));
            }
        }
    }
    if j == d0 {
        return None;
    }
    if j < s.len() && s[j] == '.' {
        let f = scan_digits(s, j + 1);
        if f == j + 1 {
            return None;
        }
        match exponent_end(s, f) {
            None => {
                return None;
            },
            Some(e) => {
                return Some((JsonValue::NonInt, e));
            },
        }
    }
    match exponent_end(s, j) {
        None => {
            return None;
        },
        Some(e) => {
            if e > j {
                return Some((JsonValue::NonInt, e));
            }
            if over {
                return Some((JsonValue::NonInt, j));
            }
            if neg {
                if mag == 9223372036854775808u64 {
                    return Some((JsonValue::Num(i64::MIN), j));
                }
                return Some((JsonValue::Num(-(mag as i64)), j));
            } else {
                if mag > 9223372036854775807u64 {
                    return Some((JsonValue::NonInt, j));
                }
                return Some((JsonValue::Num(mag as i64), j));
            }
        },
    }
}

/// A JSON value starting at `i` (no leading whitespace).
#[verifier::loop_isolation(false)]
pub fn parse_value(s: &Vec<char>, i: usize) -> (r: Option<(JsonValue, usize)>)
    requires
        i <= s@.len(),
    ensures
        ({
            let sp = sp_value(s@, i as int);
            match r {
                None => sp is None,
                Some((v, j)) => sp == Some((json_view(v), j as int)) && i < j <= s@.len(),
            }
        }),
    decreases s@.len() - i, 0int,
{
    if i >= s.len() {
        return None;
    }
    let c = s[i];
    if c == '"' {
        match parse_string(s, i) {
            None => None,
            Some((t, j)) => Some((JsonValue::Str(t), j)),
        }
    } else if c == '{' {
        let i2 = skip_ws(s, i + 1);
        parse_object(s, i2)
    } else if c == '[' {
        let i2 = skip_ws(s, i + 1);
        parse_array(s, i2)
    } else if c == 't' {
        if s.len() - i >= 4 && s[i + 1] == 'r' && s[i + 2] == 'u' && s[i + 3] == 'e' {
            Some((JsonValue::Bool(true), i + 4))
        } else {
            None
        }
    } else if c == 'f' {
        if s.len() - i >= 5 && s[i + 1] == 'a' && s[i + 2] == 'l' && s[i + 3] == 's' && s[i + 4]
            == 'e' {
            Some((JsonValue::Bool(false), i + 5))
        } else {
            None
        }
    } else if c == 'n' {
        if s.len() - i >= 4 && s[i + 1] == 'u' && s[i + 2] == 'l' && s[i + 3] == 'l' {
            Some((JsonValue::Null, i + 4))
        } else {
            None
        }
    } else if c == '-' || (c >= '0' && c <= '9') {
        parse_number(s, i)
    } else {
        None
    }
}

/// The rest of an array, from the position (past whitespace) after `[`.
#[verifier::loop_isolation(false)]
fn parse_array(s: &Vec<char>, i: usize) -> (r: Option<(JsonValue, usize)>)
    requires
        i <= s@.len(),
    ensures
        ({
            let sp = sp_array(s@, i as int);
            match r {
                None => sp is None,
                Some((v, j)) => sp == Some((json_view(v), j as int)) && i < j <= s@.len(),
            }
        }),
    decreases s@.len() - i, 2int,
{
    if i < s.len() && s[i] == ']' {
        let items: Vec<JsonValue> = Vec::new();
        proof {
            let jv = json_view(JsonValue::Arr(items));
            assert(jv->Arr_0 =~= Seq::<JsonView>::empty());
            assert(jv == JsonView::Arr(Seq::<JsonView>::empty()));
        }
        return Some((JsonValue::Arr(items), i + 1));
    }
    match parse_elements(s, i) {
        None => None,
        Some((items, j)) => {
            proof {
                let jv = json_view(JsonValue::Arr(items));
                assert(jv->Arr_0 =~= json_views(items@));
                assert(jv == JsonView::Arr(json_views(items@)));
            }
            Some((JsonValue::Arr(items), j))
        },
    }
}

/// One or more comma-separated elements and the closing bracket.
#[verifier::loop_isolation(false)]
fn parse_elements(s: &Vec<char>, i: usize) -> (r: Option<(Vec<JsonValue>, usize)>)
    requires
        i <= s@.len(),
    ensures
        ({
            let sp = sp_elements(s@, i as int);
            match r {
                None => sp is None,
                Some((items, j)) => sp == Some((json_views(items@), j as int)) && i < j
                    <= s@.len(),
            }
        }),
    decreases s@.len() - i, 1int,
{
    match parse_value(s, i) {
        None => None,
        Some((v, j)) => {
            let k = skip_ws(s, j);
            if k < s.len() && s[k] == ',' {
                let n = skip_ws(s, k + 1);
                match parse_elements(s, n) {
                    None => None,
                    Some((rest, e)) => {
                        let ghost rest0 = rest@;
                        let mut items = rest;
                        items.insert(0, v);
                        proof {
                            assert(json_views(items@) =~= seq![json_view(v)] + json_views(rest0));
                        }
                        Some((items, e))
                    },
                }
            } else if k < s.len() && s[k] == ']' {
                let mut items: Vec<JsonValue> = Vec::new();
                items.push(v);
                proof {
                    assert(json_views(items@) =~= seq![json_view(v)]);
                }
                Some((items, k + 1))
            } else {
                None
            }
        },
    }
}

/// The rest of an object, from the position (past whitespace) after `{`.
#[verifier::loop_isolation(false)]
fn parse_object(s: &Vec<char>, i: usize) -> (r: Option<(JsonValue, usize)>)
    requires
        i <= s@.len(),
    ensures
        ({
            let sp = sp_object(s@, i as int);
            match r {
                None => sp is None,
                Some((v, j)) => sp == Some((json_view(v), j as int)) && i < j <= s@.len(),
            }
        }),
    decreases s@.len() - i, 2int,
{
    if i < s.len() && s[i] == '}' {
        let members: Vec<(String, JsonValue)> = Vec::new();
        proof {
            let jv = json_view(JsonValue::Obj(members));
            assert(jv->Obj_0 =~= Seq::<(Seq<char>, JsonView)>::empty());
            assert(jv == JsonView::Obj(Seq::<(Seq<char>, JsonView)>::empty()));
        }
        return Some((JsonValue::Obj(members), i + 1));
    }
    match parse_members(s, i) {
        None => None,
        Some((members, j)) => {
            proof {
                let jv = json_view(JsonValue::Obj(members));
                assert(jv->Obj_0 =~= member_views(members@));
                assert(jv == JsonView::Obj(member_views(members@)));
            }
            Some((JsonValue::Obj(members), j))
        },
    }
}

/// One or more `"key": value` members and the closing brace.
#[verifier::loop_isolation(false)]
fn parse_members(s: &Vec<char>, i: usize) -> (r: Option<(Vec<(String, JsonValue)>, usize)>)
    requires
        i <= s@.len(),
    ensures
        ({
            let sp = sp_members(s@, i as int);
            match r {
                None => sp is None,
                Some((members, j)) => sp == Some((member_views(members@), j as int)) && i < j
                    <= s@.len(),
            }
        }),
    decreases s@.len() - i, 1int,
{
    match parse_string(s, i) {
        None => None,
        Some((key, j)) => {
            let k = skip_ws(s, j);
            if k < s.len() && s[k] == ':' {
                let vi = skip_ws(s, k + 1);
                match parse_value(s, vi) {
                    None => None,
                    Some((v, j2)) => {
                        let k2 = skip_ws(s, j2);
                        if k2 < s.len() && s[k2] == ',' {
                            let n = skip_ws(s, k2 + 1);
                            match parse_members(s, n) {
                                None => None,
                                Some((rest, e)) => {
                                    let ghost rest0 = rest@;
                                    let ghost kv = (key@, json_view(v));
                                    let mut members = rest;
                                    members.insert(0, (key, v));
                                    proof {
                                        assert(member_views(members@) =~= seq![kv] + member_views(
                                            rest0,
                                        ));
                                    }
                                    Some((members, e))
                                },
                            }
                        } else if k2 < s.len() && s[k2] == '}' {
                            let ghost kv = (key@, json_view(v));
                            let mut members: Vec<(String, JsonValue)> = Vec::new();
                            members.push((key, v));
                            proof {
                                assert(member_views(members@) =~= seq![kv]);
                            }
                            Some((members, k2 + 1))
                        } else {
                            None
                        }
                    },
                }
            } else {
                None
            }
        },
    }
}

/// A whole document: one value surrounded by nothing but whitespace.
pub fn parse_document(text: &str) -> (r: Option<JsonValue>)
    ensures
        match r {
            None => sp_document(text@) is None,
            Some(v) => sp_document(text@) == Some(json_view(v)),
        },
{
    let chars = to_chars(text);
    let i0 = skip_ws(&chars, 0);
    match parse_value(&chars, i0) {
        None => None,
        Some((v, j)) => {
            let e = skip_ws(&chars, j);
            if e == chars.len() {
                Some(v)
            } else {
                None
            }
        },
    }
}

} // verus!
