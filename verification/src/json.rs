//! A small JSON reader and writer: integers only, objects kept in key order.
//!
//! `Json` is the mathematical value; `Value` is the executable one, and
//! `v@` is its `Json`. Object entries are kept sorted by key (code-point
//! order, which is byte order on UTF-8) with no key twice, as a
//! `BTreeMap<String, Value>` keeps them.

use vstd::prelude::*;
use crate::text::{char_from, char_of_code, chars_of, dec_int, digit_run_end, digit_run_end_exec, hex_value, is_ascii_ws, is_ascii_ws_exec, is_control, is_control_exec, is_digit, is_digit_exec, is_hex_digit, lemma_digit_run_end, owned, parse_i64_at, parse_i64_spec, push_int, text_eq};

verus! {

// ---- values ----------------------------------------------------------------------

pub enum Json {
    Null,
    Bool(bool),
    Number(int),
    Str(Seq<char>),
    Arr(Seq<Json>),
    Obj(Seq<(Seq<char>, Json)>),
}

#[derive(Debug, PartialEq)]
pub enum Value {
    Null,
    Bool(bool),
    Number(i64),
    String(String),
    Array(Vec<Value>),
    Object(Vec<(String, Value)>),
}

pub open spec fn json_of(v: Value) -> Json
    decreases v,
{
    match v {
        Value::Null => Json::Null,
        Value::Bool(b) => Json::Bool(b),
        Value::Number(n) => Json::Number(n as int),
        Value::String(s) => Json::Str(s@),
        Value::Array(items) => {
            proof {
                assert(decreases_to!(v => items));
            }
            Json::Arr(json_items(items@))
        },
        Value::Object(entries) => {
            proof {
                assert(decreases_to!(v => entries));
            }
            Json::Obj(json_entries(entries@))
        },
    }
}

pub open spec fn json_items(items: Seq<Value>) -> Seq<Json>
    decreases items,
{
    if items.len() == 0 {
        Seq::empty()
    } else {
        json_items(items.drop_last()).push(json_of(items.last()))
    }
}

pub open spec fn json_entries(entries: Seq<(String, Value)>) -> Seq<(Seq<char>, Json)>
    decreases entries,
{
    if entries.len() == 0 {
        Seq::empty()
    } else {
        let (k, v) = entries.last();
        json_entries(entries.drop_last()).push((k@, json_of(v)))
    }
}

impl View for Value {
    type V = Json;

    open spec fn view(&self) -> Json {
        json_of(*self)
    }
}


// ---- writing -----------------------------------------------------------------------

pub open spec fn hex_lower(d: int) -> char {
    if d < 10 {
        (d + 48) as char
    } else {
        (d + 87) as char
    }
}

/// How one char of a string is written between the quotes.
pub open spec fn escape_char(c: char) -> Seq<char> {
    if c == '"' {
        seq!['\\', '"']
    } else if c == '\\' {
        seq!['\\', '\\']
    } else if c == '\n' {
        seq!['\\', 'n']
    } else if c == '\r' {
        seq!['\\', 'r']
    } else if c == '\t' {
        seq!['\\', 't']
    } else if is_control(c) {
        let u = c as u32;
        seq![
            '\\',
            'u',
            hex_lower((u / 4096) as int),
            hex_lower((u / 256 % 16) as int),
            hex_lower((u / 16 % 16) as int),
            hex_lower((u % 16) as int),
        ]
    } else {
        seq![c]
    }
}

pub open spec fn escape_chars(s: Seq<char>) -> Seq<char>
    decreases s.len(),
{
    if s.len() == 0 {
        Seq::empty()
    } else {
        escape_chars(s.drop_last()) + escape_char(s.last())
    }
}

pub open spec fn quoted(s: Seq<char>) -> Seq<char> {
    seq!['"'] + escape_chars(s) + seq!['"']
}

/// The text `stringify` writes for a value.
pub open spec fn show(j: Json) -> Seq<char>
    decreases j,
{
    match j {
        Json::Null => "null"@,
        Json::Bool(b) => if b {
            "true"@
        } else {
            "false"@
        },
        Json::Number(n) => dec_int(n),
        Json::Str(t) => quoted(t),
        Json::Arr(items) => seq!['['] + show_items(items) + seq![']'],
        Json::Obj(entries) => seq!['{'] + show_entries(entries) + seq!['}'],
    }
}

pub open spec fn show_items(items: Seq<Json>) -> Seq<char>
    decreases items,
{
    if items.len() == 0 {
        Seq::empty()
    } else if items.len() == 1 {
        show(items[0])
    } else {
        show_items(items.drop_last()) + seq![','] + show(items.last())
    }
}

pub open spec fn show_entries(entries: Seq<(Seq<char>, Json)>) -> Seq<char>
    decreases entries,
{
    if entries.len() == 0 {
        Seq::empty()
    } else if entries.len() == 1 {
        quoted(entries[0].0) + seq![':'] + show(entries[0].1)
    } else {
        show_entries(entries.drop_last()) + seq![','] + quoted(entries.last().0) + seq![':'] + show(
            entries.last().1,
        )
    }
}

fn hex_lower_exec(d: u32) -> (c: char)
    requires
        d < 16,
    ensures
        c == hex_lower(d as int),
{
    if d < 10 {
        char_from(d + 48)
    } else {
        char_from(d + 87)
    }
}

fn write_string(out: &mut String, s: &str)
    ensures
        final(out)@ == old(out)@ + quoted(s@),
{
    let cs = chars_of(s);
    out.push('"');
    let mut i: usize = 0;
    while i < cs.len()
        invariant
            i <= cs@.len(),
            cs@ == s@,
            out@ == old(out)@ + seq!['"'] + escape_chars(cs@.take(i as int)),
        decreases cs@.len() - i,
    {
        let c = cs[i];
        if c == '"' {
            out.push_str("\\\"");
            proof { reveal_strlit("\\\""); }
        } else if c == '\\' {
            out.push_str("\\\\");
            proof { reveal_strlit("\\\\"); }
        } else if c == '\n' {
            out.push_str("\\n");
            proof { reveal_strlit("\\n"); }
        } else if c == '\r' {
            out.push_str("\\r");
            proof { reveal_strlit("\\r"); }
        } else if c == '\t' {
            out.push_str("\\t");
            proof { reveal_strlit("\\t"); }
        } else if is_control_exec(c) {
            let u = c as u32;
            out.push('\\');
            out.push('u');
            out.push(hex_lower_exec(u / 4096));
            out.push(hex_lower_exec(u / 256 % 16));
            out.push(hex_lower_exec(u / 16 % 16));
            out.push(hex_lower_exec(u % 16));
            assert(escape_char(c) == seq![
                '\\',
                'u',
                hex_lower((u / 4096) as int),
                hex_lower((u / 256 % 16) as int),
                hex_lower((u / 16 % 16) as int),
                hex_lower((u % 16) as int),
            ]);
        } else {
            out.push(c);
        }
        proof {
            assert(cs@.take(i + 1).drop_last() =~= cs@.take(i as int));
            assert(cs@.take(i + 1).last() == c);
            assert(out@ =~= old(out)@ + seq!['"'] + escape_chars(cs@.take(i as int)) + escape_char(c));
        }
        i = i + 1;
        assert(out@ =~= old(out)@ + seq!['"'] + escape_chars(cs@.take(i as int)));
    }
    out.push('"');
    assert(cs@.take(i as int) =~= s@);
    assert(out@ =~= old(out)@ + quoted(s@));
}

fn write_value(out: &mut String, value: &Value)
    ensures
        final(out)@ == old(out)@ + show(value@),
    decreases value,
{
    match value {
        Value::Null => {
            out.push_str("null");
        },
        Value::Bool(b) => {
            if *b {
                out.push_str("true");
            } else {
                out.push_str("false");
            }
        },
        Value::Number(n) => {
            push_int(out, *n);
        },
        Value::String(s) => {
            write_string(out, s.as_str());
        },
        Value::Array(items) => {
            out.push('[');
            let mut i: usize = 0;
            while i < items.len()
                invariant
                    i <= items@.len(),
                    *value == Value::Array(*items),
                    out@ == old(out)@ + seq!['['] + show_items(json_items(items@.take(i as int))),
                decreases items@.len() - i,
            {
                proof {
                    assert(items@.take(i + 1).drop_last() =~= items@.take(i as int));
                    lemma_json_items_len(items@.take(i as int));
                }
                if i > 0 {
                    out.push(',');
                }
                assert(decreases_to!(*value => (*value)->Array_0));
                assert(decreases_to!(*items => items@));
                assert(decreases_to!(items@ => items@[i as int]));
                assert(decreases_to!(*value => items@[i as int]));
                write_value(out, &items[i]);
                i = i + 1;
                proof {
                    let t = json_items(items@.take(i as int));
                    assert(t.drop_last() =~= json_items(items@.take(i - 1)));
                    if i == 1 {
                        assert(t =~= seq![json_of(items@[0])]);
                    }
                }
                assert(out@ =~= old(out)@ + seq!['['] + show_items(json_items(items@.take(i as int))));
            }
            out.push(']');
            assert(items@.take(i as int) =~= items@);
        },
        Value::Object(entries) => {
            out.push('{');
            let mut i: usize = 0;
            while i < entries.len()
                invariant
                    i <= entries@.len(),
                    *value == Value::Object(*entries),
                    out@ == old(out)@ + seq!['{'] + show_entries(json_entries(entries@.take(i as int))),
                decreases entries@.len() - i,
            {
                proof {
                    assert(entries@.take(i + 1).drop_last() =~= entries@.take(i as int));
                    lemma_json_entries_len(entries@.take(i as int));
                }
                if i > 0 {
                    out.push(',');
                }
                let (k, v) = &entries[i];
                write_string(out, k.as_str());
                out.push(':');
                assert(decreases_to!(*value => (*value)->Object_0));
                assert(decreases_to!(*entries => entries@));
                assert(decreases_to!(entries@ => entries@[i as int]));
                assert(decreases_to!(entries@[i as int] => entries@[i as int].1));
                assert(decreases_to!(*value => entries@[i as int].1));
                write_value(out, v);
                i = i + 1;
                proof {
                    let t = json_entries(entries@.take(i as int));
                    assert(t.drop_last() =~= json_entries(entries@.take(i - 1)));
                    if i == 1 {
                        assert(t =~= seq![(entries@[0].0@, json_of(entries@[0].1))]);
                    }
                }
                assert(out@ =~= old(out)@ + seq!['{'] + show_entries(json_entries(entries@.take(i as int))));
            }
            out.push('}');
            assert(entries@.take(i as int) =~= entries@);
        },
    }
}

pub proof fn lemma_json_items_len(items: Seq<Value>)
    ensures
        json_items(items).len() == items.len(),
        forall|k: int| 0 <= k < items.len() ==> #[trigger] json_items(items)[k] == json_of(items[k]),
    decreases items.len(),
{
    if items.len() > 0 {
        lemma_json_items_len(items.drop_last());
    }
}

pub proof fn lemma_json_entries_len(entries: Seq<(String, Value)>)
    ensures
        json_entries(entries).len() == entries.len(),
        forall|k: int| 0 <= k < entries.len() ==> #[trigger] json_entries(entries)[k] == (entries[k].0@, json_of(entries[k].1)),
    decreases entries.len(),
{
    if entries.len() > 0 {
        lemma_json_entries_len(entries.drop_last());
    }
}

/// The JSON text of a value.
pub fn stringify(value: &Value) -> (out: String)
    ensures
        out@ == show(value@),
{
    let mut out = String::new();
    write_value(&mut out, value);
    assert(out@ =~= show(value@));
    out
}


// ---- objects ---------------------------------------------------------------------

/// Code-point order on keys, which is the byte order of their UTF-8.
pub open spec fn key_lt(a: Seq<char>, b: Seq<char>) -> bool
    decreases a.len(),
{
    if a.len() == 0 {
        b.len() > 0
    } else if b.len() == 0 {
        false
    } else if a[0] != b[0] {
        a[0] < b[0]
    } else {
        key_lt(a.drop_first(), b.drop_first())
    }
}

pub proof fn lemma_key_order(a: Seq<char>, b: Seq<char>)
    ensures
        a != b ==> (key_lt(a, b) <==> !key_lt(b, a)),
        !key_lt(a, a),
        key_lt(a, b) ==> a != b,
    decreases a.len(),
{
    if a.len() == 0 && b.len() == 0 {
        assert(a =~= b);
    }
    if a.len() > 0 && b.len() > 0 && a[0] == b[0] {
        lemma_key_order(a.drop_first(), b.drop_first());
        if a.drop_first() == b.drop_first() {
            assert(a =~= seq![a[0]] + a.drop_first());
            assert(b =~= seq![b[0]] + b.drop_first());
        }
    }
    if a.len() > 0 {
        lemma_key_order(a.drop_first(), a.drop_first());
    }
}

/// `BTreeMap::insert`: a new key goes to its place in key order; an
/// existing key keeps its place and takes the new value.
pub open spec fn obj_insert(m: Seq<(Seq<char>, Json)>, k: Seq<char>, v: Json) -> Seq<
    (Seq<char>, Json),
>
    decreases m.len(),
{
    if m.len() == 0 {
        seq![(k, v)]
    } else if m[0].0 == k {
        seq![(k, v)] + m.drop_first()
    } else if key_lt(k, m[0].0) {
        seq![(k, v)] + m
    } else {
        seq![m[0]] + obj_insert(m.drop_first(), k, v)
    }
}

/// The value under key `k`, if any.
pub open spec fn obj_get(m: Seq<(Seq<char>, Json)>, k: Seq<char>) -> Option<Json>
    decreases m.len(),
{
    if m.len() == 0 {
        None
    } else if m[0].0 == k {
        Some(m[0].1)
    } else {
        obj_get(m.drop_first(), k)
    }
}

/// `value.get(key)`: the member of an object, `None` for anything else.
pub open spec fn json_get(j: Json, k: Seq<char>) -> Option<Json> {
    match j {
        Json::Obj(m) => obj_get(m, k),
        _ => None,
    }
}

// ---- reading -----------------------------------------------------------------------

pub open spec fn skip_ws(s: Seq<char>, i: int) -> int
    decreases s.len() - i,
{
    if 0 <= i < s.len() && is_ascii_ws(s[i]) {
        skip_ws(s, i + 1)
    } else {
        i
    }
}

pub proof fn lemma_skip_ws(s: Seq<char>, i: int)
    ensures
        skip_ws(s, i) >= i,
        0 <= i <= s.len() ==> skip_ws(s, i) <= s.len(),
        0 <= skip_ws(s, i) < s.len() && i >= 0 ==> !is_ascii_ws(s[skip_ws(s, i)]),
    decreases s.len() - i,
{
    if 0 <= i < s.len() && is_ascii_ws(s[i]) {
        lemma_skip_ws(s, i + 1);
    }
}

pub open spec fn hex_digits_value(s: Seq<char>) -> int
    decreases s.len(),
{
    if s.len() == 0 {
        0
    } else {
        hex_digits_value(s.drop_last()) * 16 + hex_value(s.last())
    }
}

pub open spec fn all_hex(s: Seq<char>) -> bool {
    forall|k: int| 0 <= k < s.len() ==> is_hex_digit(#[trigger] s[k])
}

/// `u32::from_str_radix(h, 16)` on the four chars after `\u`: an optional `+`,
/// then hex digits.
pub open spec fn hex4(h: Seq<char>) -> Option<int> {
    let body = if h.len() > 0 && h[0] == '+' {
        h.drop_first()
    } else {
        h
    };
    if body.len() > 0 && all_hex(body) {
        Some(hex_digits_value(body))
    } else {
        None
    }
}

/// The rest of a string body from `i`, after `acc` has been read.
pub open spec fn p_string_rest(s: Seq<char>, i: int, acc: Seq<char>) -> Result<
    (Seq<char>, int),
    Seq<char>,
>
    decreases s.len() - i,
{
    if i < 0 || i >= s.len() {
        Err("unterminated string"@)
    } else if s[i] == '"' {
        Ok((acc, i + 1))
    } else if s[i] == '\\' {
        if i + 1 >= s.len() {
            Err("bad escape"@)
        } else {
            let e = s[i + 1];
            if e == '"' || e == '\\' || e == '/' {
                p_string_rest(s, i + 2, acc.push(e))
            } else if e == 'n' {
                p_string_rest(s, i + 2, acc.push('\n'))
            } else if e == 'r' {
                p_string_rest(s, i + 2, acc.push('\r'))
            } else if e == 't' {
                p_string_rest(s, i + 2, acc.push('\t'))
            } else if e == 'u' {
                if i + 6 > s.len() {
                    Err("bad \\u"@)
                } else {
                    match hex4(s.subrange(i + 2, i + 6)) {
                        Some(n) => if 0xD800 <= n <= 0xDFFF {
                            Err("bad \\u"@)
                        } else {
                            p_string_rest(s, i + 6, acc.push(n as char))
                        },
                        None => Err("bad \\u"@),
                    }
                }
            } else {
                Err("bad escape"@)
            }
        }
    } else if (s[i] as u32) < 0x20 {
        Err("raw control in string"@)
    } else {
        p_string_rest(s, i + 1, acc.push(s[i]))
    }
}

pub proof fn lemma_string_rest_advances(s: Seq<char>, i: int, acc: Seq<char>)
    ensures
        p_string_rest(s, i, acc) matches Ok((_, k)) ==> i < k <= s.len(),
    decreases s.len() - i,
{
    if 0 <= i < s.len() && s[i] != '"' {
        if s[i] == '\\' {
            if i + 1 < s.len() {
                let e = s[i + 1];
                if e == '"' || e == '\\' || e == '/' {
                    lemma_string_rest_advances(s, i + 2, acc.push(e));
                } else if e == 'n' {
                    lemma_string_rest_advances(s, i + 2, acc.push('\n'));
                } else if e == 'r' {
                    lemma_string_rest_advances(s, i + 2, acc.push('\r'));
                } else if e == 't' {
                    lemma_string_rest_advances(s, i + 2, acc.push('\t'));
                } else if e == 'u' && i + 6 <= s.len() {
                    match hex4(s.subrange(i + 2, i + 6)) {
                        Some(n) => {
                            lemma_string_rest_advances(s, i + 6, acc.push(n as char));
                        },
                        None => {},
                    }
                }
            }
        } else {
            lemma_string_rest_advances(s, i + 1, acc.push(s[i]));
        }
    }
}

/// A number: `-`, then `0` or a digit run not starting with `0`; no fraction or
/// exponent; its value as an `i64`.
pub open spec fn p_number(s: Seq<char>, j: int) -> Result<(Json, int), Seq<char>> {
    let i1 = if 0 <= j < s.len() && s[j] == '-' {
        j + 1
    } else {
        j
    };
    if !(0 <= i1 < s.len() && is_digit(s[i1])) {
        Err("invalid number"@)
    } else {
        let i2 = if s[i1] == '0' {
            i1 + 1
        } else {
            digit_run_end(s, i1)
        };
        if i2 < s.len() && (s[i2] == '.' || s[i2] == 'e' || s[i2] == 'E') {
            Err("floats not supported"@)
        } else {
            match parse_i64_spec(s.subrange(j, i2)) {
                Some(n) => Ok((Json::Number(n), i2)),
                None => Err("invalid number"@),
            }
        }
    }
}

pub open spec fn p_ident(s: Seq<char>, j: int, word: Seq<char>, v: Json) -> Result<
    (Json, int),
    Seq<char>,
> {
    if 0 <= j && j + word.len() <= s.len() && s.subrange(j, j + word.len()) == word {
        Ok((v, j + word.len()))
    } else {
        Err("invalid json"@)
    }
}

/// How many arrays and objects may enclose one another. Reading recurses
/// once per level; this many levels fit well within the 2 MiB stack of a
/// spawned thread, so text nested deeper is refused instead of ending the
/// process.
pub const MAX_JSON_DEPTH: usize = 6000;

pub open spec fn too_deep() -> Seq<char> {
    "json nested too deeply"@
}

/// A value after optional whitespace at `i`, inside `d` arrays and objects,
/// and where it ends.
pub open spec fn p_value(s: Seq<char>, i: int, d: int) -> Result<(Json, int), Seq<char>>
    decreases s.len() + 1 - i, 2int,
{
    let j = skip_ws(s, i);
    proof {
        lemma_skip_ws(s, i);
    }
    if j < 0 || j >= s.len() {
        Err("invalid json"@)
    } else if (s[j] == '{' || s[j] == '[') && d >= MAX_JSON_DEPTH {
        Err(too_deep())
    } else if s[j] == '{' {
        p_object(s, j, d + 1)
    } else if s[j] == '[' {
        p_array(s, j, d + 1)
    } else if s[j] == '"' {
        match p_string_rest(s, j + 1, Seq::empty()) {
            Ok((t, k)) => Ok((Json::Str(t), k)),
            Err(e) => Err(e),
        }
    } else if s[j] == 't' {
        p_ident(s, j, "true"@, Json::Bool(true))
    } else if s[j] == 'f' {
        p_ident(s, j, "false"@, Json::Bool(false))
    } else if s[j] == 'n' {
        p_ident(s, j, "null"@, Json::Null)
    } else if s[j] == '-' || is_digit(s[j]) {
        p_number(s, j)
    } else {
        Err("invalid json"@)
    }
}

/// An object whose `{` is at `j`.
pub open spec fn p_object(s: Seq<char>, j: int, d: int) -> Result<(Json, int), Seq<char>>
    decreases s.len() + 1 - j, 1int
        when 0 <= j < s.len()
{
    let k = skip_ws(s, j + 1);
    if 0 <= k < s.len() && s[k] == '}' {
        Ok((Json::Obj(Seq::empty()), k + 1))
    } else {
        p_members(s, j + 1, Seq::empty(), d)
    }
}

/// The members of an object from `m`, just after `{` or `,`.
pub open spec fn p_members(s: Seq<char>, m: int, acc: Seq<(Seq<char>, Json)>, d: int) -> Result<
    (Json, int),
    Seq<char>,
>
    decreases s.len() + 1 - m, 3int,
{
    let k = skip_ws(s, m);
    proof {
        lemma_skip_ws(s, m);
    }
    if !(0 <= k < s.len() && s[k] == '"') {
        Err("object key must be a string"@)
    } else {
        match p_string_rest(s, k + 1, Seq::empty()) {
            Err(e) => Err(e),
            Ok((key, k2)) => {
                let k3 = skip_ws(s, k2);
                proof {
                    lemma_string_rest_advances(s, k + 1, Seq::empty());
                    lemma_skip_ws(s, k2);
                }
                if !(0 <= k3 < s.len() && s[k3] == ':') {
                    Err("expected :"@)
                } else {
                    match p_value(s, k3 + 1, d) {
                        Err(e) => Err(e),
                        Ok((v, k4)) => {
                            let acc2 = obj_insert(acc, key, v);
                            let k5 = skip_ws(s, k4);
                            proof {
                                lemma_skip_ws(s, k4);
                            }
                            if 0 <= k5 < s.len() && s[k5] == ',' {
                                // a value always consumes input (`lemma_value_advances`);
                                // the test makes the descent evident
                                if k4 > k3 {
                                    p_members(s, k5 + 1, acc2, d)
                                } else {
                                    Err("invalid json"@)
                                }
                            } else if 0 <= k5 < s.len() && s[k5] == '}' {
                                Ok((Json::Obj(acc2), k5 + 1))
                            } else {
                                Err("expected }"@)
                            }
                        },
                    }
                }
            },
        }
    }
}

/// An array whose `[` is at `j`.
pub open spec fn p_array(s: Seq<char>, j: int, d: int) -> Result<(Json, int), Seq<char>>
    decreases s.len() + 1 - j, 1int
        when 0 <= j < s.len()
{
    let k = skip_ws(s, j + 1);
    if 0 <= k < s.len() && s[k] == ']' {
        Ok((Json::Arr(Seq::empty()), k + 1))
    } else {
        p_elems(s, j + 1, Seq::empty(), d)
    }
}

/// The elements of an array from `m`, just after `[` or `,`.
pub open spec fn p_elems(s: Seq<char>, m: int, acc: Seq<Json>, d: int) -> Result<(Json, int), Seq<char>>
    decreases s.len() + 1 - m, 3int,
{
    match p_value(s, m, d) {
        Err(e) => Err(e),
        Ok((v, k)) => {
            let k2 = skip_ws(s, k);
            proof {
                lemma_skip_ws(s, k);
            }
            if 0 <= k2 < s.len() && s[k2] == ',' {
                // see `p_members`
                if k > m {
                    p_elems(s, k2 + 1, acc.push(v), d)
                } else {
                    Err("invalid json"@)
                }
            } else if 0 <= k2 < s.len() && s[k2] == ']' {
                Ok((Json::Arr(acc.push(v)), k2 + 1))
            } else {
                Err("expected ]"@)
            }
        },
    }
}

/// `parse(text)`: one value, with nothing but whitespace around it, nested
/// no deeper than `MAX_JSON_DEPTH`.
pub open spec fn parse_json(s: Seq<char>) -> Result<Json, Seq<char>> {
    match p_value(s, skip_ws(s, 0), 0) {
        Err(e) => Err(e),
        Ok((v, k)) => if skip_ws(s, k) != s.len() {
            Err("trailing json"@)
        } else {
            Ok(v)
        },
    }
}


proof fn lemma_number_advances(s: Seq<char>, j: int)
    requires
        0 <= j,
    ensures
        p_number(s, j) matches Ok((_, k)) ==> j < k <= s.len(),
{
    let i1 = if 0 <= j < s.len() && s[j] == '-' {
        j + 1
    } else {
        j
    };
    if 0 <= i1 < s.len() && is_digit(s[i1]) && s[i1] != '0' {
        lemma_digit_run_end(s, i1 + 1);
    }
}

proof fn lemma_ident_advances(s: Seq<char>, j: int, word: Seq<char>, v: Json)
    requires
        word.len() > 0,
    ensures
        p_ident(s, j, word, v) matches Ok((_, k)) ==> j < k <= s.len(),
{
}

/// A value that parses always consumes input, and ends within the text.
pub proof fn lemma_value_advances(s: Seq<char>, i: int, d: int)
    requires
        0 <= i,
    ensures
        p_value(s, i, d) matches Ok((_, k)) ==> i < k <= s.len(),
    decreases s.len() + 1 - i, 2int,
{
    let j = skip_ws(s, i);
    lemma_skip_ws(s, i);
    reveal_strlit("true");
    reveal_strlit("false");
    reveal_strlit("null");
    if 0 <= j < s.len() {
        if s[j] == '{' {
            lemma_object_advances(s, j, d + 1);
        } else if s[j] == '[' {
            lemma_array_advances(s, j, d + 1);
        } else if s[j] == '"' {
            lemma_string_rest_advances(s, j + 1, Seq::empty());
        } else if s[j] == 't' {
            lemma_ident_advances(s, j, "true"@, Json::Bool(true));
        } else if s[j] == 'f' {
            lemma_ident_advances(s, j, "false"@, Json::Bool(false));
        } else if s[j] == 'n' {
            lemma_ident_advances(s, j, "null"@, Json::Null);
        } else {
            lemma_number_advances(s, j);
        }
    }
}

proof fn lemma_object_advances(s: Seq<char>, j: int, d: int)
    requires
        0 <= j < s.len(),
    ensures
        p_object(s, j, d) matches Ok((_, k)) ==> j < k <= s.len(),
    decreases s.len() + 1 - j, 1int,
{
    lemma_skip_ws(s, j + 1);
    lemma_members_advances(s, j + 1, Seq::empty(), d);
}

proof fn lemma_members_advances(s: Seq<char>, m: int, acc: Seq<(Seq<char>, Json)>, d: int)
    requires
        0 <= m,
    ensures
        p_members(s, m, acc, d) matches Ok((_, k)) ==> m < k <= s.len(),
    decreases s.len() + 1 - m, 3int,
{
    let k = skip_ws(s, m);
    lemma_skip_ws(s, m);
    if 0 <= k < s.len() && s[k] == '"' {
        lemma_string_rest_advances(s, k + 1, Seq::empty());
        match p_string_rest(s, k + 1, Seq::empty()) {
            Ok((key, k2)) => {
                let k3 = skip_ws(s, k2);
                lemma_skip_ws(s, k2);
                if 0 <= k3 < s.len() && s[k3] == ':' {
                    lemma_value_advances(s, k3 + 1, d);
                    match p_value(s, k3 + 1, d) {
                        Ok((v, k4)) => {
                            let k5 = skip_ws(s, k4);
                            lemma_skip_ws(s, k4);
                            if 0 <= k5 < s.len() && s[k5] == ',' && k4 > k3 {
                                lemma_members_advances(s, k5 + 1, obj_insert(acc, key, v), d);
                            }
                        },
                        Err(_) => {},
                    }
                }
            },
            Err(_) => {},
        }
    }
}

proof fn lemma_array_advances(s: Seq<char>, j: int, d: int)
    requires
        0 <= j < s.len(),
    ensures
        p_array(s, j, d) matches Ok((_, k)) ==> j < k <= s.len(),
    decreases s.len() + 1 - j, 1int,
{
    lemma_skip_ws(s, j + 1);
    lemma_elems_advances(s, j + 1, Seq::empty(), d);
}

proof fn lemma_elems_advances(s: Seq<char>, m: int, acc: Seq<Json>, d: int)
    requires
        0 <= m,
    ensures
        p_elems(s, m, acc, d) matches Ok((_, k)) ==> m < k <= s.len(),
    decreases s.len() + 1 - m, 3int,
{
    lemma_value_advances(s, m, d);
    match p_value(s, m, d) {
        Ok((v, k)) => {
            let k2 = skip_ws(s, k);
            lemma_skip_ws(s, k);
            if 0 <= k2 < s.len() && s[k2] == ',' && k > m {
                lemma_elems_advances(s, k2 + 1, acc.push(v), d);
            }
        },
        Err(_) => {},
    }
}


// ---- reading, executable -----------------------------------------------------------

pub open spec fn value_result(r: Result<(Value, usize), String>) -> Result<(Json, int), Seq<char>> {
    match r {
        Ok((v, k)) => Ok((v@, k as int)),
        Err(e) => Err(e@),
    }
}

pub open spec fn text_pos_result(r: Result<(String, usize), String>) -> Result<
    (Seq<char>, int),
    Seq<char>,
> {
    match r {
        Ok((t, k)) => Ok((t@, k as int)),
        Err(e) => Err(e@),
    }
}

proof fn lemma_key_lt_skip(a: Seq<char>, b: Seq<char>, i: int)
    requires
        0 <= i <= a.len(),
        i <= b.len(),
        forall|q: int| 0 <= q < i ==> a[q] == b[q],
    ensures
        key_lt(a, b) == key_lt(a.skip(i), b.skip(i)),
    decreases i,
{
    if i > 0 {
        lemma_key_lt_skip(a.drop_first(), b.drop_first(), i - 1);
        assert(a.drop_first().skip(i - 1) =~= a.skip(i));
        assert(b.drop_first().skip(i - 1) =~= b.skip(i));
    } else {
        assert(a.skip(0) =~= a);
        assert(b.skip(0) =~= b);
    }
}

pub fn key_lt_exec(a: &[char], b: &[char]) -> (r: bool)
    ensures
        r == key_lt(a@, b@),
{
    let mut i: usize = 0;
    while i < a.len() && i < b.len() && a[i] == b[i]
        invariant
            i <= a@.len(),
            i <= b@.len(),
            forall|q: int| 0 <= q < i ==> a@[q] == b@[q],
        decreases a@.len() - i,
    {
        i = i + 1;
    }
    proof {
        lemma_key_lt_skip(a@, b@, i as int);
    }
    if i == a.len() {
        i < b.len()
    } else if i == b.len() {
        false
    } else {
        a[i] < b[i]
    }
}

proof fn lemma_entries_insert(x: Seq<(String, Value)>, p: int, e: (String, Value))
    requires
        0 <= p <= x.len(),
    ensures
        json_entries(x.insert(p, e)) == json_entries(x).take(p) + seq![(e.0@, json_of(e.1))]
            + json_entries(x).skip(p),
{
    lemma_json_entries_len(x);
    lemma_json_entries_len(x.insert(p, e));
    assert(json_entries(x.insert(p, e)) =~= json_entries(x).take(p) + seq![(e.0@, json_of(e.1))]
        + json_entries(x).skip(p));
}

proof fn lemma_entries_remove(x: Seq<(String, Value)>, p: int)
    requires
        0 <= p < x.len(),
    ensures
        json_entries(x.remove(p)) == json_entries(x).take(p) + json_entries(x).skip(p + 1),
{
    lemma_json_entries_len(x);
    lemma_json_entries_len(x.remove(p));
    assert(json_entries(x.remove(p)) =~= json_entries(x).take(p) + json_entries(x).skip(p + 1));
}

/// `BTreeMap::insert` on the entries.
pub fn insert_entry(entries: &mut Vec<(String, Value)>, key: String, v: Value)
    ensures
        json_entries(final(entries)@) == obj_insert(json_entries(old(entries)@), key@, v@),
{
    let ghost big_m = json_entries(entries@);
    let kc = chars_of(key.as_str());
    proof {
        lemma_json_entries_len(entries@);
        assert(big_m.skip(0) =~= big_m);
        assert(big_m.take(0) + big_m.skip(0) =~= big_m);
    }
    let mut p: usize = 0;
    while p < entries.len() && key_lt_exec(chars_of(entries[p].0.as_str()).as_slice(), kc.as_slice())
        invariant
            p <= entries@.len(),
            entries@ == old(entries)@,
            big_m == json_entries(entries@),
            big_m.len() == entries@.len(),
            kc@ == key@,
            forall|q: int| 0 <= q < entries@.len() ==> #[trigger] big_m[q] == (entries@[q].0@, json_of(entries@[q].1)),
            obj_insert(big_m, key@, v@) == big_m.take(p as int) + obj_insert(big_m.skip(p as int), key@, v@),
        decreases entries@.len() - p,
    {
        proof {
            let t = big_m.skip(p as int);
            lemma_key_order(big_m[p as int].0, key@);
            assert(t[0] == big_m[p as int]);
            assert(t.drop_first() =~= big_m.skip(p + 1));
            assert(big_m.take(p as int) + seq![big_m[p as int]] =~= big_m.take(p + 1));
            assert(big_m.take(p as int) + (seq![big_m[p as int]] + obj_insert(big_m.skip(p + 1), key@, v@))
                =~= big_m.take(p + 1) + obj_insert(big_m.skip(p + 1), key@, v@));
        }
        p = p + 1;
    }
    let ghost t = big_m.skip(p as int);
    if p < entries.len() {
        let ec = chars_of(entries[p].0.as_str());
        if text_eq(ec.as_slice(), 0, ec.len(), key.as_str()) {
            proof {
                assert(ec@.subrange(0, ec@.len() as int) =~= ec@);
                lemma_entries_remove(entries@, p as int);
            }
            let ghost before = entries@;
            entries.remove(p);
            proof {
                lemma_entries_insert(entries@, p as int, (key, v));
            }
            entries.insert(p, (key, v));
            proof {
                assert(t[0] == big_m[p as int]);
                assert(t.drop_first() =~= big_m.skip(p + 1));
                let r = json_entries(before.remove(p as int));
                assert(r.take(p as int) =~= big_m.take(p as int));
                assert(r.skip(p as int) =~= big_m.skip(p + 1));
            }
            return;
        }
        proof {
            assert(ec@.subrange(0, ec@.len() as int) =~= ec@);
            lemma_key_order(big_m[p as int].0, key@);
            assert(t[0] == big_m[p as int]);
        }
    } else {
        assert(t =~= Seq::<(Seq<char>, Json)>::empty());
    }
    proof {
        lemma_entries_insert(entries@, p as int, (key, v));
    }
    entries.insert(p, (key, v));
}

fn skip_ws_exec(s: &[char], i: usize) -> (j: usize)
    requires
        i <= s@.len(),
    ensures
        j == skip_ws(s@, i as int),
        i <= j <= s@.len(),
{
    let mut j = i;
    while j < s.len() && is_ascii_ws_exec(s[j])
        invariant
            i <= j <= s@.len(),
            skip_ws(s@, j as int) == skip_ws(s@, i as int),
        decreases s@.len() - j,
    {
        j = j + 1;
    }
    j
}

fn hex_value_exec(c: char) -> (v: u32)
    requires
        is_hex_digit(c),
    ensures
        v == hex_value(c),
        v < 16,
{
    if '0' <= c && c <= '9' {
        (c as u32) - 48
    } else if 'a' <= c && c <= 'f' {
        (c as u32) - 87
    } else {
        (c as u32) - 55
    }
}

fn is_hex_digit_exec(c: char) -> (b: bool)
    ensures
        b == is_hex_digit(c),
{
    ('0' <= c && c <= '9') || ('a' <= c && c <= 'f') || ('A' <= c && c <= 'F')
}

proof fn lemma_hex_bound(s: Seq<char>)
    requires
        all_hex(s),
    ensures
        0 <= hex_digits_value(s) < pow16(s.len()),
    decreases s.len(),
{
    if s.len() > 0 {
        lemma_hex_bound(s.drop_last());
    }
}

pub open spec fn pow16(n: nat) -> int
    decreases n,
{
    if n == 0 {
        1
    } else {
        16 * pow16((n - 1) as nat)
    }
}

/// The code point of the four chars at `i` after a `\u`.
fn hex4_at(s: &[char], i: usize) -> (r: Option<u32>)
    requires
        i + 4 <= s@.len(),
    ensures
        r matches Some(n) ==> hex4(s@.subrange(i as int, i + 4)) == Some(n as int),
        r is None ==> hex4(s@.subrange(i as int, i + 4)) is None,
{
    let ghost h = s@.subrange(i as int, i + 4);
    let start = if s[i] == '+' {
        i + 1
    } else {
        i
    };
    let ghost body = s@.subrange(start as int, i + 4);
    assert(h[0] == '+' ==> h.drop_first() =~= body);
    assert(h[0] != '+' ==> h =~= body);
    let n = s.len();
    let end = i + 4;
    let mut k = start;
    let mut v: u32 = 0;
    while k < end
        invariant
            end == i + 4,
            start <= k <= i + 4 <= s@.len(),
            i <= start <= i + 1,
            h == s@.subrange(i as int, i + 4),
            h[0] == '+' ==> h.drop_first() == body,
            h[0] != '+' ==> h == body,
            body == s@.subrange(start as int, i + 4),
            all_hex(s@.subrange(start as int, k as int)),
            v == hex_digits_value(s@.subrange(start as int, k as int)),
            v < pow16((k - start) as nat),
        decreases i + 4 - k,
    {
        if !is_hex_digit_exec(s[k]) {
            assert(!is_hex_digit(body[k - start]));
            return None;
        }
        assert(s@.subrange(start as int, k + 1).drop_last() =~= s@.subrange(start as int, k as int));
        proof {
            reveal_with_fuel(pow16, 5);
            let d = (k - start) as nat;
            assert(d <= 3);
            assert(pow16(0) == 1 && pow16(1) == 16 && pow16(2) == 256 && pow16(3) == 4096);
            assert(pow16(d) <= 4096);
        }
        v = v * 16 + hex_value_exec(s[k]);
        k = k + 1;
        assert(all_hex(s@.subrange(start as int, k as int)));
    }
    if start == i + 4 {
        return None;
    }
    Some(v)
}

/// A string whose opening quote is at `j`.
fn parse_string_at(s: &[char], j: usize) -> (r: Result<(String, usize), String>)
    requires
        j < s@.len(),
    ensures
        text_pos_result(r) == p_string_rest(s@, j + 1, Seq::empty()),
{
    let n = s.len();
    let mut out = String::new();
    let mut i = j + 1;
    loop
        invariant
            j < i <= s@.len() + 1,
            p_string_rest(s@, j + 1, Seq::empty()) == p_string_rest(s@, i as int, out@),
        decreases s@.len() + 1 - i,
    {
        if i >= s.len() {
            return Err(owned("unterminated string"));
        }
        let c = s[i];
        if c == '"' {
            return Ok((out, i + 1));
        } else if c == '\\' {
            if i + 1 >= s.len() {
                return Err(owned("bad escape"));
            }
            let e = s[i + 1];
            if e == '"' || e == '\\' || e == '/' {
                out.push(e);
                i = i + 2;
            } else if e == 'n' {
                out.push('\n');
                i = i + 2;
            } else if e == 'r' {
                out.push('\r');
                i = i + 2;
            } else if e == 't' {
                out.push('\t');
                i = i + 2;
            } else if e == 'u' {
                if s.len() - i < 6 {
                    return Err(owned("bad \\u"));
                }
                match hex4_at(s, i + 2) {
                    Some(n) => {
                        match char_of_code(n) {
                            Some(ch) => {
                                out.push(ch);
                                i = i + 6;
                            },
                            None => {
                                proof {
                                    let h = s@.subrange(i + 2, i + 6);
                                    if h[0] == '+' {
                                        lemma_hex_bound(h.drop_first());
                                    } else {
                                        lemma_hex_bound(h);
                                    }
                                    reveal_with_fuel(pow16, 5);
                                }
                                return Err(owned("bad \\u"));
                            },
                        }
                    },
                    None => {
                        return Err(owned("bad \\u"));
                    },
                }
            } else {
                return Err(owned("bad escape"));
            }
        } else if (c as u32) < 0x20 {
            return Err(owned("raw control in string"));
        } else {
            out.push(c);
            i = i + 1;
        }
    }
}


fn parse_number_at(s: &[char], j: usize) -> (r: Result<(Value, usize), String>)
    requires
        j < s@.len(),
    ensures
        value_result(r) == p_number(s@, j as int),
{
    let i1 = if s[j] == '-' {
        j + 1
    } else {
        j
    };
    if !(i1 < s.len() && is_digit_exec(s[i1])) {
        return Err(owned("invalid number"));
    }
    let i2 = if s[i1] == '0' {
        i1 + 1
    } else {
        digit_run_end_exec(s, i1)
    };
    proof {
        lemma_digit_run_end(s@, i1 as int);
    }
    if i2 < s.len() && (s[i2] == '.' || s[i2] == 'e' || s[i2] == 'E') {
        return Err(owned("floats not supported"));
    }
    match parse_i64_at(s, j, i2) {
        Some(n) => Ok((Value::Number(n), i2)),
        None => Err(owned("invalid number")),
    }
}

fn parse_ident_at(s: &[char], j: usize, word: &str, v: Value) -> (r: Result<(Value, usize), String>)
    requires
        j <= s@.len(),
    ensures
        value_result(r) == p_ident(s@, j as int, word@, v@),
{
    let w = chars_of(word);
    if s.len() - j < w.len() {
        return Err(owned("invalid json"));
    }
    if text_eq(s, j, j + w.len(), word) {
        Ok((v, j + w.len()))
    } else {
        Err(owned("invalid json"))
    }
}

/// A value after optional whitespace at `i`.
fn parse_value_at(s: &[char], i: usize, d: usize) -> (r: Result<(Value, usize), String>)
    requires
        i <= s@.len(),
        d <= MAX_JSON_DEPTH,
    ensures
        value_result(r) == p_value(s@, i as int, d as int),
    decreases s@.len() + 1 - i, 2int,
{
    let j = skip_ws_exec(s, i);
    if j >= s.len() {
        return Err(owned("invalid json"));
    }
    let c = s[j];
    if (c == '{' || c == '[') && d >= MAX_JSON_DEPTH {
        Err(owned("json nested too deeply"))
    } else if c == '{' {
        parse_object_at(s, j, d + 1)
    } else if c == '[' {
        parse_array_at(s, j, d + 1)
    } else if c == '"' {
        match parse_string_at(s, j) {
            Ok((t, k)) => Ok((Value::String(t), k)),
            Err(e) => Err(e),
        }
    } else if c == 't' {
        parse_ident_at(s, j, "true", Value::Bool(true))
    } else if c == 'f' {
        parse_ident_at(s, j, "false", Value::Bool(false))
    } else if c == 'n' {
        parse_ident_at(s, j, "null", Value::Null)
    } else if c == '-' || is_digit_exec(c) {
        parse_number_at(s, j)
    } else {
        Err(owned("invalid json"))
    }
}

/// An object whose `{` is at `j`.
fn parse_object_at(s: &[char], j: usize, d: usize) -> (r: Result<(Value, usize), String>)
    requires
        j < s@.len(),
        d <= MAX_JSON_DEPTH,
    ensures
        value_result(r) == p_object(s@, j as int, d as int),
    decreases s@.len() + 1 - j, 1int,
{
    assert(j < s.len());
    let k0 = skip_ws_exec(s, j + 1);
    if k0 < s.len() && s[k0] == '}' {
        let empty: Vec<(String, Value)> = Vec::new();
        proof {
            assert(json_entries(empty@) =~= Seq::<(Seq<char>, Json)>::empty());
        }
        return Ok((Value::Object(empty), k0 + 1));
    }
    let mut entries: Vec<(String, Value)> = Vec::new();
    let mut m = j + 1;
    assert(json_entries(entries@) =~= Seq::<(Seq<char>, Json)>::empty());
    loop
        invariant
            j < m <= s@.len(),
            d <= MAX_JSON_DEPTH,
            p_object(s@, j as int, d as int) == p_members(s@, m as int, json_entries(entries@), d as int),
        decreases s@.len() + 1 - m,
    {
        let k = skip_ws_exec(s, m);
        if !(k < s.len() && s[k] == '"') {
            return Err(owned("object key must be a string"));
        }
        let (key, k2) = match parse_string_at(s, k) {
            Ok(x) => x,
            Err(e) => {
                return Err(e);
            },
        };
        proof {
            lemma_string_rest_advances(s@, k + 1, Seq::empty());
        }
        let k3 = skip_ws_exec(s, k2);
        if !(k3 < s.len() && s[k3] == ':') {
            return Err(owned("expected :"));
        }
        let (v, k4) = match parse_value_at(s, k3 + 1, d) {
            Ok(x) => x,
            Err(e) => {
                return Err(e);
            },
        };
        proof {
            lemma_value_advances(s@, k3 + 1, d as int);
        }
        let ghost before = json_entries(entries@);
        let ghost key_view = key@;
        let ghost v_view = v@;
        insert_entry(&mut entries, key, v);
        let k5 = skip_ws_exec(s, k4);
        if k5 < s.len() && s[k5] == ',' {
            m = k5 + 1;
        } else if k5 < s.len() && s[k5] == '}' {
            return Ok((Value::Object(entries), k5 + 1));
        } else {
            return Err(owned("expected }"));
        }
    }
}

/// An array whose `[` is at `j`.
fn parse_array_at(s: &[char], j: usize, d: usize) -> (r: Result<(Value, usize), String>)
    requires
        j < s@.len(),
        d <= MAX_JSON_DEPTH,
    ensures
        value_result(r) == p_array(s@, j as int, d as int),
    decreases s@.len() + 1 - j, 1int,
{
    assert(j < s.len());
    let k0 = skip_ws_exec(s, j + 1);
    if k0 < s.len() && s[k0] == ']' {
        let empty: Vec<Value> = Vec::new();
        proof {
            assert(json_items(empty@) =~= Seq::<Json>::empty());
        }
        return Ok((Value::Array(empty), k0 + 1));
    }
    let mut items: Vec<Value> = Vec::new();
    let mut m = j + 1;
    assert(json_items(items@) =~= Seq::<Json>::empty());
    loop
        invariant
            j < m <= s@.len(),
            d <= MAX_JSON_DEPTH,
            p_array(s@, j as int, d as int) == p_elems(s@, m as int, json_items(items@), d as int),
        decreases s@.len() + 1 - m,
    {
        let (v, k) = match parse_value_at(s, m, d) {
            Ok(x) => x,
            Err(e) => {
                return Err(e);
            },
        };
        proof {
            lemma_value_advances(s@, m as int, d as int);
        }
        let ghost before = items@;
        items.push(v);
        proof {
            assert(items@.drop_last() =~= before);
            assert(json_items(items@) == json_items(before).push(v@));
        }
        let k2 = skip_ws_exec(s, k);
        if k2 < s.len() && s[k2] == ',' {
            m = k2 + 1;
        } else if k2 < s.len() && s[k2] == ']' {
            return Ok((Value::Array(items), k2 + 1));
        } else {
            return Err(owned("expected ]"));
        }
    }
}

/// Parse one JSON value; integers only.
pub fn parse(input: &str) -> (r: Result<Value, String>)
    ensures
        match r {
            Ok(v) => parse_json(input@) == Ok::<Json, Seq<char>>(v@),
            Err(e) => parse_json(input@) == Err::<Json, Seq<char>>(e@),
        },
{
    let s = chars_of(input);
    let i = skip_ws_exec(s.as_slice(), 0);
    let (v, k) = match parse_value_at(s.as_slice(), i, 0) {
        Ok(x) => x,
        Err(e) => {
            return Err(e);
        },
    };
    proof {
        lemma_value_advances(s@, i as int, 0);
    }
    let k2 = skip_ws_exec(s.as_slice(), k);
    if k2 != s.len() {
        return Err(owned("trailing json"));
    }
    Ok(v)
}


// ---- building and reading values ---------------------------------------------------

/// The entries a `BTreeMap` holds after inserting `pairs` in order.
pub open spec fn obj_build(pairs: Seq<(Seq<char>, Json)>) -> Seq<(Seq<char>, Json)>
    decreases pairs.len(),
{
    if pairs.len() == 0 {
        Seq::empty()
    } else {
        obj_insert(obj_build(pairs.drop_last()), pairs.last().0, pairs.last().1)
    }
}

/// Keys and values of `pairs` as JSON.
pub open spec fn member_views(pairs: Seq<(&str, Value)>) -> Seq<(Seq<char>, Json)> {
    pairs.map_values(|p: (&str, Value)| (p.0@, p.1@))
}

/// A copy of `v` with the same JSON value.
pub fn copy_value(v: &Value) -> (r: Value)
    ensures
        r@ == v@,
    decreases v,
{
    match v {
        Value::Null => Value::Null,
        Value::Bool(b) => Value::Bool(*b),
        Value::Number(n) => Value::Number(*n),
        Value::String(t) => Value::String(t.clone()),
        Value::Array(items) => {
            let mut out: Vec<Value> = Vec::new();
            let mut i: usize = 0;
            while i < items.len()
                invariant
                    i <= items@.len(),
                    *v == Value::Array(*items),
                    json_items(out@) == json_items(items@.take(i as int)),
                decreases items@.len() - i,
            {
                assert(decreases_to!(*v => (*v)->Array_0));
                assert(decreases_to!(*items => items@));
                assert(decreases_to!(items@ => items@[i as int]));
                let c = copy_value(&items[i]);
                let ghost before = out@;
                out.push(c);
                proof {
                    assert(out@.drop_last() =~= before);
                    assert(items@.take(i + 1).drop_last() =~= items@.take(i as int));
                }
                i = i + 1;
            }
            assert(items@.take(i as int) =~= items@);
            Value::Array(out)
        },
        Value::Object(entries) => {
            let mut out: Vec<(String, Value)> = Vec::new();
            let mut i: usize = 0;
            while i < entries.len()
                invariant
                    i <= entries@.len(),
                    *v == Value::Object(*entries),
                    json_entries(out@) == json_entries(entries@.take(i as int)),
                decreases entries@.len() - i,
            {
                assert(decreases_to!(*v => (*v)->Object_0));
                assert(decreases_to!(*entries => entries@));
                assert(decreases_to!(entries@ => entries@[i as int]));
                assert(decreases_to!(entries@[i as int] => entries@[i as int].1));
                let c = copy_value(&entries[i].1);
                let k = entries[i].0.clone();
                let ghost before = out@;
                out.push((k, c));
                proof {
                    assert(out@.drop_last() =~= before);
                    assert(entries@.take(i + 1).drop_last() =~= entries@.take(i as int));
                }
                i = i + 1;
            }
            assert(entries@.take(i as int) =~= entries@);
            Value::Object(out)
        },
    }
}

impl Value {
    /// An object holding `pairs`; a later pair wins over an earlier one with the same key.
    pub fn object(pairs: &[(&str, Value)]) -> (r: Value)
        ensures
            r@ == Json::Obj(obj_build(member_views(pairs@))),
    {
        let mut entries: Vec<(String, Value)> = Vec::new();
        let mut i: usize = 0;
        assert(member_views(pairs@.take(0)) =~= Seq::empty());
        while i < pairs.len()
            invariant
                i <= pairs@.len(),
                json_entries(entries@) == obj_build(member_views(pairs@.take(i as int))),
            decreases pairs@.len() - i,
        {
            let (k, v) = &pairs[i];
            let c = copy_value(v);
            insert_entry(&mut entries, owned(k), c);
            proof {
                assert(member_views(pairs@.take(i + 1)).drop_last() =~= member_views(pairs@.take(i as int)));
            }
            i = i + 1;
        }
        assert(pairs@.take(i as int) =~= pairs@);
        Value::Object(entries)
    }

    /// The entries of an object.
    pub fn as_object(&self) -> (r: Option<&Vec<(String, Value)>>)
        ensures
            r matches Some(es) ==> self@ == Json::Obj(json_entries(es@)),
            r is None <==> !(self@ is Obj),
    {
        match self {
            Value::Object(m) => Some(m),
            _ => None,
        }
    }

    pub fn as_str(&self) -> (r: Option<&str>)
        ensures
            r matches Some(t) ==> self@ == Json::Str(t@),
            r is None <==> !(self@ is Str),
    {
        match self {
            Value::String(s) => Some(s.as_str()),
            _ => None,
        }
    }

    pub fn as_bool(&self) -> (r: Option<bool>)
        ensures
            r matches Some(b) ==> self@ == Json::Bool(b),
            r is None <==> !(self@ is Bool),
    {
        match self {
            Value::Bool(b) => Some(*b),
            _ => None,
        }
    }

    pub fn as_array(&self) -> (r: Option<&[Value]>)
        ensures
            r matches Some(a) ==> self@ == Json::Arr(json_items(a@)),
            r is None <==> !(self@ is Arr),
    {
        match self {
            Value::Array(a) => Some(a.as_slice()),
            _ => None,
        }
    }

    /// The member `key` of an object.
    pub fn get(&self, key: &str) -> (r: Option<&Value>)
        ensures
            r matches Some(x) ==> json_get(self@, key@) == Some(x@),
            r is None ==> json_get(self@, key@) is None,
    {
        match self {
            Value::Object(m) => entry_get(m, key),
            _ => None,
        }
    }
}

/// The value under `key` in the entries.
pub fn entry_get<'a>(entries: &'a Vec<(String, Value)>, key: &str) -> (r: Option<&'a Value>)
    ensures
        r matches Some(x) ==> obj_get(json_entries(entries@), key@) == Some(x@),
        r is None ==> obj_get(json_entries(entries@), key@) is None,
{
    let ghost m = json_entries(entries@);
    proof {
        lemma_json_entries_len(entries@);
        assert(m.skip(0) =~= m);
    }
    let mut i: usize = 0;
    while i < entries.len()
        invariant
            i <= entries@.len(),
            m == json_entries(entries@),
            m.len() == entries@.len(),
            forall|q: int| 0 <= q < entries@.len() ==> #[trigger] m[q] == (entries@[q].0@, json_of(entries@[q].1)),
            obj_get(m, key@) == obj_get(m.skip(i as int), key@),
        decreases entries@.len() - i,
    {
        let kc = chars_of(entries[i].0.as_str());
        let ghost t = m.skip(i as int);
        assert(t[0] == m[i as int]);
        if text_eq(kc.as_slice(), 0, kc.len(), key) {
            assert(kc@.subrange(0, kc@.len() as int) =~= kc@);
            return Some(&entries[i].1);
        }
        assert(kc@.subrange(0, kc@.len() as int) =~= kc@);
        assert(t.drop_first() =~= m.skip(i + 1));
        i = i + 1;
    }
    assert(m.skip(i as int) =~= Seq::<(Seq<char>, Json)>::empty());
    None
}


/// `obj.get(key).and_then(Value::as_str)`.
pub open spec fn get_str(m: Seq<(Seq<char>, Json)>, k: Seq<char>) -> Option<Seq<char>> {
    match obj_get(m, k) {
        Some(Json::Str(s)) => Some(s),
        _ => None,
    }
}

/// `obj.get(key).and_then(Value::as_bool)`.
pub open spec fn get_bool(m: Seq<(Seq<char>, Json)>, k: Seq<char>) -> Option<bool> {
    match obj_get(m, k) {
        Some(Json::Bool(b)) => Some(b),
        _ => None,
    }
}

pub fn entry_str<'a>(entries: &'a Vec<(String, Value)>, key: &str) -> (r: Option<&'a str>)
    ensures
        r matches Some(s) ==> get_str(json_entries(entries@), key@) == Some(s@),
        r is None ==> get_str(json_entries(entries@), key@) is None,
{
    match entry_get(entries, key) {
        Some(v) => v.as_str(),
        None => None,
    }
}

pub fn entry_bool(entries: &Vec<(String, Value)>, key: &str) -> (r: Option<bool>)
    ensures
        r == get_bool(json_entries(entries@), key@),
{
    match entry_get(entries, key) {
        Some(v) => v.as_bool(),
        None => None,
    }
}

/// Whether the entries hold `key`.
pub fn entry_has(entries: &Vec<(String, Value)>, key: &str) -> (b: bool)
    ensures
        b == (obj_get(json_entries(entries@), key@) is Some),
{
    entry_get(entries, key).is_some()
}


/// Whether `a` sorts before `b`, as `str` compares.
pub fn str_lt(a: &str, b: &str) -> (r: bool)
    ensures
        r == key_lt(a@, b@),
{
    let ac = chars_of(a);
    let bc = chars_of(b);
    key_lt_exec(ac.as_slice(), bc.as_slice())
}

} // verus!
