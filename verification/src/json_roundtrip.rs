//! Reading back what was written: `parse(stringify(v))` is `v` again for
//! every value whose numbers fit an `i64`, whose object keys are in strictly
//! increasing order, as `Value` objects keep them, and whose nesting the
//! parser accepts.

use vstd::prelude::*;
use crate::json::{Json, MAX_JSON_DEPTH, lemma_skip_ws, lemma_string_rest_advances, p_array, p_object, escape_char, escape_chars, hex4, hex_digits_value, hex_lower, key_lt, lemma_key_order, obj_insert, p_elems, p_members, p_number, p_string_rest, p_value, parse_json, quoted, show, show_entries, show_items, skip_ws, all_hex};
use crate::text::{all_digits, dec, dec_int, digit_run_end, digits_value, is_ascii_ws, is_control, is_digit, is_hex_digit, hex_value, lemma_dec_digits, lemma_digit_run_to, parse_i64_spec, signed_text_value, unsigned_text_value};

verus! {

// ---- which values read back -----------------------------------------------------------

/// Object keys in strictly increasing order, so none twice.
pub open spec fn keys_sorted(entries: Seq<(Seq<char>, Json)>) -> bool {
    forall|a: int, b: int| 0 <= a < b < entries.len() ==> key_lt(#[trigger] entries[a].0, #[trigger] entries[b].0)
}

/// Numbers that fit an `i64`, and objects with sorted keys, all the way down.
pub open spec fn json_wf(j: Json) -> bool
    decreases j,
{
    match j {
        Json::Number(n) => i64::MIN <= n <= i64::MAX,
        Json::Arr(items) => forall|k: int| 0 <= k < items.len() ==> json_wf(#[trigger] items[k]),
        Json::Obj(entries) => keys_sorted(entries) && forall|k: int|
            0 <= k < entries.len() ==> json_wf(#[trigger] entries[k].1),
        _ => true,
    }
}

/// Room for `room` more levels of arrays and objects, all the way down.
pub open spec fn fits_depth(j: Json, room: int) -> bool
    decreases j,
{
    match j {
        Json::Arr(items) => room >= 1 && forall|k: int|
            0 <= k < items.len() ==> fits_depth(#[trigger] items[k], room - 1),
        Json::Obj(entries) => room >= 1 && forall|k: int|
            0 <= k < entries.len() ==> fits_depth(#[trigger] entries[k].1, room - 1),
        _ => true,
    }
}

// ---- the written text, read from the front --------------------------------------------

proof fn lemma_escape_front(c: char, t: Seq<char>)
    ensures
        escape_chars(seq![c] + t) == escape_char(c) + escape_chars(t),
    decreases t.len(),
{
    let ct = seq![c] + t;
    if t.len() == 0 {
        assert(ct.drop_last() =~= Seq::<char>::empty());
        assert(t =~= Seq::<char>::empty());
        assert(ct.last() == c);
        assert(escape_chars(Seq::<char>::empty()) =~= Seq::<char>::empty());
        assert(escape_chars(ct) == escape_chars(ct.drop_last()) + escape_char(ct.last()));
        assert(escape_chars(ct) =~= escape_char(c));
        assert(escape_chars(t) =~= Seq::<char>::empty());
    } else {
        assert(ct.drop_last() =~= seq![c] + t.drop_last());
        assert(ct.last() == t.last());
        lemma_escape_front(c, t.drop_last());
        assert(escape_chars(ct) =~= escape_char(c) + escape_chars(t));
    }
}

proof fn lemma_items_front(items: Seq<Json>)
    requires
        items.len() >= 1,
    ensures
        show_items(items) == show(items[0]) + (if items.len() == 1 {
            Seq::<char>::empty()
        } else {
            seq![','] + show_items(items.drop_first())
        }),
    decreases items.len(),
{
    if items.len() == 1 {
        assert(show_items(items) =~= show(items[0]));
    } else if items.len() == 2 {
        let rest = items.drop_first();
        assert(items.drop_last() =~= seq![items[0]]);
        assert(show_items(items.drop_last()) == show(items[0]));
        assert(show_items(rest) == show(rest[0]));
        assert(rest[0] == items.last());
        assert(show_items(items) =~= show(items[0]) + seq![','] + show_items(rest));
    } else {
        let init = items.drop_last();
        lemma_items_front(init);
        let rest = items.drop_first();
        assert(init.drop_first() =~= rest.drop_last());
        assert(rest.last() == items.last());
        assert(show_items(rest) == show_items(rest.drop_last()) + seq![','] + show(rest.last()));
        assert(show_items(items) =~= show(items[0]) + seq![','] + show_items(rest));
    }
}

pub open spec fn member_text(e: (Seq<char>, Json)) -> Seq<char> {
    quoted(e.0) + seq![':'] + show(e.1)
}

#[verifier::rlimit(50)]
#[verifier::spinoff_prover]
proof fn lemma_entries_front(entries: Seq<(Seq<char>, Json)>)
    requires
        entries.len() >= 1,
    ensures
        show_entries(entries) == member_text(entries[0]) + (if entries.len() == 1 {
            Seq::<char>::empty()
        } else {
            seq![','] + show_entries(entries.drop_first())
        }),
    decreases entries.len(),
{
    if entries.len() == 1 {
        assert(show_entries(entries) =~= member_text(entries[0]));
    } else if entries.len() == 2 {
        let rest = entries.drop_first();
        assert(entries.drop_last() =~= seq![entries[0]]);
        assert(show_entries(entries.drop_last()) == member_text(entries[0]));
        assert(show_entries(rest) == member_text(rest[0]));
        assert(rest[0] == entries.last());
        assert(show_entries(entries) =~= member_text(entries[0]) + seq![','] + show_entries(rest));
    } else {
        let init = entries.drop_last();
        lemma_entries_front(init);
        let rest = entries.drop_first();
        assert(init.drop_first() =~= rest.drop_last());
        assert(rest.last() == entries.last());
        assert(show_entries(rest) == show_entries(rest.drop_last()) + seq![','] + member_text(rest.last()));
        assert(show_entries(entries) =~= member_text(entries[0]) + seq![','] + show_entries(rest));
    }
}

// ---- strings ----------------------------------------------------------------------------

proof fn lemma_hex_lower(d: int)
    requires
        0 <= d < 16,
    ensures
        is_hex_digit(hex_lower(d)),
        hex_value(hex_lower(d)) == d,
        hex_lower(d) != '+',
{
}

/// The four hex digits of a control character's `\u` escape read back as it.
proof fn lemma_control_hex(c: char)
    requires
        is_control(c),
    ensures
        ({
            let u = c as u32;
            let h = seq![
                hex_lower((u / 4096) as int),
                hex_lower((u / 256 % 16) as int),
                hex_lower((u / 16 % 16) as int),
                hex_lower((u % 16) as int),
            ];
            hex4(h) == Some(u as int) && !(0xD800 <= u <= 0xDFFF) && (u as int) as char == c
        }),
{
    let u = c as u32;
    assert(u <= 0x9f);
    let d0 = (u / 4096) as int;
    let d1 = (u / 256 % 16) as int;
    let d2 = (u / 16 % 16) as int;
    let d3 = (u % 16) as int;
    assert(d0 == 0 && d1 == 0);
    assert(0 <= d2 < 16 && 0 <= d3 < 16);
    assert(d2 * 16 + d3 == u) by (nonlinear_arith)
        requires
            u <= 0x9f,
            d2 == (u / 16 % 16) as int,
            d3 == (u % 16) as int,
    ;
    lemma_hex_lower(d0);
    lemma_hex_lower(d1);
    lemma_hex_lower(d2);
    lemma_hex_lower(d3);
    let h = seq![hex_lower(d0), hex_lower(d1), hex_lower(d2), hex_lower(d3)];
    assert(all_hex(h));
    reveal_with_fuel(hex_digits_value, 5);
    assert(h.drop_last() =~= seq![hex_lower(d0), hex_lower(d1), hex_lower(d2)]);
    assert(h.drop_last().drop_last() =~= seq![hex_lower(d0), hex_lower(d1)]);
    assert(h.drop_last().drop_last().drop_last() =~= seq![hex_lower(d0)]);
    assert(h.drop_last().drop_last().drop_last().drop_last() =~= Seq::<char>::empty());
    assert(hex_digits_value(h) == ((d0 * 16 + d1) * 16 + d2) * 16 + d3);
}

/// The escaped body of `t`, then a closing quote, reads back as `t`.
proof fn lemma_string_body(s: Seq<char>, i: int, acc: Seq<char>, t: Seq<char>)
    requires
        0 <= i,
        i + escape_chars(t).len() < s.len(),
        s.subrange(i, i + escape_chars(t).len()) == escape_chars(t),
        s[i + escape_chars(t).len()] == '"',
    ensures
        p_string_rest(s, i, acc) == Ok::<(Seq<char>, int), Seq<char>>(
            (acc + t, i + escape_chars(t).len() + 1),
        ),
    decreases t.len(),
{
    if t.len() == 0 {
        assert(escape_chars(t) =~= Seq::<char>::empty());
        assert(acc + t =~= acc);
    } else {
        let c = t[0];
        let rest = t.drop_first();
        assert(t =~= seq![c] + rest);
        lemma_escape_front(c, rest);
        let e = escape_char(c);
        let n = e.len() as int;
        let tail = escape_chars(rest);
        assert(escape_chars(t) == e + tail);
        assert(s.subrange(i, i + n) =~= e) by {
            assert forall|k: int| 0 <= k < n implies s[i + k] == e[k] by {
                assert(s.subrange(i, i + escape_chars(t).len())[k] == escape_chars(t)[k]);
            }
        }
        assert(s.subrange(i + n, i + n + tail.len()) =~= tail) by {
            assert forall|k: int| 0 <= k < tail.len() implies s[i + n + k] == tail[k] by {
                assert(s.subrange(i, i + escape_chars(t).len())[n + k] == escape_chars(t)[n + k]);
            }
        }
        lemma_string_body(s, i + n, acc.push(c), rest);
        assert(acc.push(c) + rest =~= acc + t);
        if is_control(c) && c != '\n' && c != '\r' && c != '\t' && c != '"' && c != '\\' {
            lemma_control_hex(c);
            assert(s[i] == e[0]);
            assert(s[i + 1] == e[1]);
            let u = c as u32;
            let h = seq![
                hex_lower((u / 4096) as int),
                hex_lower((u / 256 % 16) as int),
                hex_lower((u / 16 % 16) as int),
                hex_lower((u % 16) as int),
            ];
            assert(e == seq!['\\', 'u'] + h);
            assert(e.subrange(2, 6) =~= h);
            assert(s.subrange(i + 2, i + 6) =~= h) by {
                assert forall|k: int| 0 <= k < 4 implies s.subrange(i + 2, i + 6)[k] == h[k] by {
                    assert(s.subrange(i, i + n)[2 + k] == e[2 + k]);
                }
            }
            assert(hex4(s.subrange(i + 2, i + 6)) == Some(u as int));
            assert(p_string_rest(s, i, acc) == p_string_rest(s, i + 6, acc.push((u as int) as char)));
        } else if c == '"' || c == '\\' {
            assert(s[i] == e[0]);
            assert(s[i + 1] == e[1]);
            assert(p_string_rest(s, i, acc) == p_string_rest(s, i + 2, acc.push(c)));
        } else if c == '\n' {
            assert(s[i] == e[0]);
            assert(s[i + 1] == e[1]);
            assert(p_string_rest(s, i, acc) == p_string_rest(s, i + 2, acc.push('\n')));
        } else if c == '\r' {
            assert(s[i] == e[0]);
            assert(s[i + 1] == e[1]);
            assert(p_string_rest(s, i, acc) == p_string_rest(s, i + 2, acc.push('\r')));
        } else if c == '\t' {
            assert(s[i] == e[0]);
            assert(s[i + 1] == e[1]);
            assert(p_string_rest(s, i, acc) == p_string_rest(s, i + 2, acc.push('\t')));
        } else {
            assert(e =~= seq![c]);
            assert(s[i] == c);
            assert(p_string_rest(s, i, acc) == p_string_rest(s, i + 1, acc.push(c)));
        }
    }
}


// ---- numbers ----------------------------------------------------------------------------

proof fn lemma_dec_lead(n: nat)
    ensures
        dec(n).len() >= 1,
        dec(n)[0] == '0' ==> n == 0,
    decreases n,
{
    if n >= 10 {
        lemma_dec_lead(n / 10);
        assert(dec(n)[0] == dec(n / 10)[0]);
    }
}

/// What may follow a value in written text: the end, or a `,`, `]` or `}`.
pub open spec fn closes(s: Seq<char>, k: int) -> bool {
    k == s.len() || (0 <= k < s.len() && (s[k] == ',' || s[k] == ']' || s[k] == '}'))
}

proof fn lemma_number_text(s: Seq<char>, i: int, n: int)
    requires
        i64::MIN <= n <= i64::MAX,
        0 <= i,
        i + dec_int(n).len() <= s.len(),
        s.subrange(i, i + dec_int(n).len()) == dec_int(n),
        closes(s, i + dec_int(n).len()),
    ensures
        p_number(s, i) == Ok::<(Json, int), Seq<char>>((Json::Number(n), i + dec_int(n).len())),
{
    let a: nat = if n < 0 {
        (-n) as nat
    } else {
        n as nat
    };
    let d = dec(a);
    lemma_dec_digits(a);
    lemma_dec_lead(a);
    let t = dec_int(n);
    let end = i + t.len();
    let i1 = if n < 0 {
        i + 1
    } else {
        i
    };
    assert(t == if n < 0 {
        seq!['-'] + d
    } else {
        d
    });
    assert(forall|k: int| 0 <= k < t.len() ==> s[i + k] == #[trigger] t[k]) by {
        assert forall|k: int| 0 <= k < t.len() implies s[i + k] == #[trigger] t[k] by {
            assert(s.subrange(i, end)[k] == t[k]);
        }
    }
    assert(forall|k: int| 0 <= k < d.len() ==> s[i1 + k] == #[trigger] d[k]) by {
        assert forall|k: int| 0 <= k < d.len() implies s[i1 + k] == #[trigger] d[k] by {
            if n < 0 {
                assert(t[1 + k] == d[k]);
                assert(s[i + 1 + k] == t[1 + k]);
            } else {
                assert(s[i + k] == t[k]);
            }
        }
    }
    assert(end == i1 + d.len());
    assert(s[i1] == d[0]);
    assert(is_digit(d[0]));
    if n < 0 {
        assert(s[i] == '-');
    } else {
        assert(s[i] == d[0]);
        assert(s[i] != '-');
    }
    if d[0] == '0' {
        assert(a == 0);
        assert(d.len() == 1);
    } else {
        assert forall|k: int| i1 <= k < end implies is_digit(#[trigger] s[k]) by {
            assert(s[i1 + (k - i1)] == d[k - i1]);
        }
        lemma_digit_run_to(s, i1, end);
    }
    assert(s.subrange(i, end) == t);
    if n < 0 {
        assert(t.drop_first() =~= d);
        assert(signed_text_value(t) == Some(-digits_value(d)));
    } else {
        assert(t[0] != '-' && t[0] != '+');
        assert(unsigned_text_value(t) == Some(digits_value(d)));
    }
    assert(parse_i64_spec(t) == Some(n));
}


// ---- values -----------------------------------------------------------------------------

/// The first char of written text tells its kind, and is never blank or a
/// closing bracket.
pub open spec fn opens(j: Json, c: char) -> bool {
    match j {
        Json::Null => c == 'n',
        Json::Bool(b) => if b {
            c == 't'
        } else {
            c == 'f'
        },
        Json::Number(_) => c == '-' || is_digit(c),
        Json::Str(_) => c == '"',
        Json::Arr(_) => c == '[',
        Json::Obj(_) => c == '{',
    }
}

proof fn lemma_show_first(j: Json)
    ensures
        show(j).len() >= 1,
        opens(j, show(j)[0]),
        !is_ascii_ws(show(j)[0]),
        show(j)[0] != ']' && show(j)[0] != '}' && show(j)[0] != ',',
{
    reveal_strlit("null");
    reveal_strlit("true");
    reveal_strlit("false");
    match j {
        Json::Number(n) => {
            let a: nat = if n < 0 {
                (-n) as nat
            } else {
                n as nat
            };
            lemma_dec_digits(a);
            if n < 0 {
                assert(dec_int(n)[0] == '-');
            } else {
                assert(is_digit(dec(a)[0]));
            }
        },
        _ => {},
    }
}

proof fn lemma_split3(s: Seq<char>, i: int, a: Seq<char>, b: Seq<char>, c: Seq<char>)
    requires
        0 <= i,
        i + (a + b + c).len() <= s.len(),
        s.subrange(i, i + (a + b + c).len()) == a + b + c,
    ensures
        s.subrange(i, i + a.len()) == a,
        s.subrange(i + a.len(), i + a.len() + b.len()) == b,
        s.subrange(i + a.len() + b.len(), i + a.len() + b.len() + c.len()) == c,
{
    let w = a + b + c;
    assert forall|k: int| 0 <= k < w.len() implies s[i + k] == w[k] by {
        assert(s.subrange(i, i + w.len())[k] == w[k]);
    }
    assert forall|k: int| 0 <= k < a.len() implies s.subrange(i, i + a.len())[k] == a[k] by {
        assert(s[i + k] == w[k]);
    }
    assert forall|k: int| 0 <= k < b.len() implies s.subrange(i + a.len(), i + a.len() + b.len())[k]
        == b[k] by {
        assert(s[i + a.len() + k] == w[a.len() + k]);
    }
    assert forall|k: int| 0 <= k < c.len() implies s.subrange(
        i + a.len() + b.len(),
        i + a.len() + b.len() + c.len(),
    )[k] == c[k] by {
        assert(s[i + a.len() + b.len() + k] == w[a.len() + b.len() + k]);
    }
    assert(s.subrange(i, i + a.len()) =~= a);
    assert(s.subrange(i + a.len(), i + a.len() + b.len()) =~= b);
    assert(s.subrange(i + a.len() + b.len(), i + a.len() + b.len() + c.len()) =~= c);
}

proof fn lemma_insert_last(acc: Seq<(Seq<char>, Json)>, k: Seq<char>, v: Json)
    requires
        forall|a: int| 0 <= a < acc.len() ==> key_lt(#[trigger] acc[a].0, k),
    ensures
        obj_insert(acc, k, v) == acc.push((k, v)),
    decreases acc.len(),
{
    if acc.len() > 0 {
        lemma_key_order(acc[0].0, k);
        assert(key_lt(acc[0].0, k));
        let rest = acc.drop_first();
        assert forall|a: int| 0 <= a < rest.len() implies key_lt(#[trigger] rest[a].0, k) by {
            assert(rest[a] == acc[a + 1]);
        }
        lemma_insert_last(rest, k, v);
        assert(seq![acc[0]] + rest.push((k, v)) =~= acc.push((k, v)));
    }
}

/// Written text of a value, followed by what may close it, reads back as
/// the value and ends where the text ends.
proof fn lemma_value_text(s: Seq<char>, i: int, j: Json, d: int)
    requires
        json_wf(j),
        0 <= d,
        fits_depth(j, MAX_JSON_DEPTH - d),
        0 <= i,
        i + show(j).len() <= s.len(),
        s.subrange(i, i + show(j).len()) == show(j),
        closes(s, i + show(j).len()),
    ensures
        p_value(s, i, d) == Ok::<(Json, int), Seq<char>>((j, i + show(j).len())),
    decreases j,
{
    let t = show(j);
    let end = i + t.len();
    lemma_show_first(j);
    assert(s[i] == t[0]) by {
        assert(s.subrange(i, end)[0] == t[0]);
    }
    assert(skip_ws(s, i) == i);
    reveal_strlit("null");
    reveal_strlit("true");
    reveal_strlit("false");
    match j {
        Json::Null => {},
        Json::Bool(b) => {},
        Json::Number(n) => {
            lemma_number_text(s, i, n);
        },
        Json::Str(x) => {
            let e = escape_chars(x);
            lemma_split3(s, i, seq!['"'], e, seq!['"']);
            assert(s.subrange(i + 1 + e.len(), i + 1 + e.len() + 1)[0] == '"');
            lemma_string_body(s, i + 1, Seq::empty(), x);
            assert(Seq::<char>::empty() + x =~= x);
        },
        Json::Arr(items) => {
            let body = show_items(items);
            lemma_split3(s, i, seq!['['], body, seq![']']);
            assert(s[end - 1] == ']') by {
                assert(s.subrange(i + 1 + body.len(), end)[0] == ']');
            }
            if items.len() == 0 {
                assert(body.len() == 0);
                assert(skip_ws(s, i + 1) == i + 1);
                assert(items =~= Seq::<Json>::empty());
            } else {
                lemma_items_front(items);
                lemma_show_first(items[0]);
                assert(s[i + 1] == body[0]) by {
                    assert(s.subrange(i + 1, i + 1 + body.len())[0] == body[0]);
                }
                assert(skip_ws(s, i + 1) == i + 1);
                lemma_elems_text(s, i + 1, Seq::empty(), items, d + 1);
                assert(Seq::<Json>::empty() + items =~= items);
            }
        },
        Json::Obj(entries) => {
            let body = show_entries(entries);
            lemma_split3(s, i, seq!['{'], body, seq!['}']);
            assert(s[end - 1] == '}') by {
                assert(s.subrange(i + 1 + body.len(), end)[0] == '}');
            }
            if entries.len() == 0 {
                assert(body.len() == 0);
                assert(skip_ws(s, i + 1) == i + 1);
                assert(entries =~= Seq::<(Seq<char>, Json)>::empty());
            } else {
                lemma_entries_front(entries);
                assert(body[0] == '"');
                assert(s[i + 1] == body[0]) by {
                    assert(s.subrange(i + 1, i + 1 + body.len())[0] == body[0]);
                }
                assert(skip_ws(s, i + 1) == i + 1);
                lemma_members_text(s, i + 1, Seq::empty(), entries, d + 1);
                assert(Seq::<(Seq<char>, Json)>::empty() + entries =~= entries);
            }
        },
    }
}

/// The written elements of an array, then its `]`.
proof fn lemma_elems_text(s: Seq<char>, m: int, acc: Seq<Json>, items: Seq<Json>, d: int)
    requires
        items.len() >= 1,
        forall|k: int| 0 <= k < items.len() ==> json_wf(#[trigger] items[k]),
        0 <= d,
        forall|k: int| 0 <= k < items.len() ==> fits_depth(#[trigger] items[k], MAX_JSON_DEPTH - d),
        0 <= m,
        m + show_items(items).len() < s.len(),
        s.subrange(m, m + show_items(items).len()) == show_items(items),
        s[m + show_items(items).len()] == ']',
    ensures
        p_elems(s, m, acc, d) == Ok::<(Json, int), Seq<char>>(
            (Json::Arr(acc + items), m + show_items(items).len() + 1),
        ),
    decreases items,
{
    lemma_items_front(items);
    let x = items[0];
    let sx = show(x);
    let k = m + sx.len();
    lemma_show_first(x);
    if items.len() == 1 {
        assert(show_items(items) == sx + Seq::<char>::empty() + Seq::<char>::empty());
        lemma_split3(s, m, sx, Seq::empty(), Seq::empty());
        lemma_value_text(s, m, x, d);
        assert(skip_ws(s, k) == k);
        assert(acc.push(x) =~= acc + items);
    } else {
        let rest = items.drop_first();
        let sr = show_items(rest);
        assert(show_items(items) == sx + seq![','] + sr);
        lemma_split3(s, m, sx, seq![','], sr);
        assert(s[k] == ',') by {
            assert(s.subrange(k, k + 1)[0] == ',');
        }
        lemma_value_text(s, m, x, d);
        assert(skip_ws(s, k) == k);
        assert forall|q: int| 0 <= q < rest.len() implies json_wf(#[trigger] rest[q]) && fits_depth(
            rest[q],
            MAX_JSON_DEPTH - d,
        ) by {
            assert(rest[q] == items[q + 1]);
        }
        lemma_elems_text(s, k + 1, acc.push(x), rest, d);
        assert(acc.push(x) + rest =~= acc + items);
    }
}

/// The written members of an object, then its `}`. Every key already read
/// sorts before every key still to come.
proof fn lemma_members_text(
    s: Seq<char>,
    m: int,
    acc: Seq<(Seq<char>, Json)>,
    entries: Seq<(Seq<char>, Json)>,
    d: int,
)
    requires
        entries.len() >= 1,
        forall|k: int| 0 <= k < entries.len() ==> json_wf(#[trigger] entries[k].1),
        0 <= d,
        forall|k: int| 0 <= k < entries.len() ==> fits_depth(#[trigger] entries[k].1, MAX_JSON_DEPTH - d),
        keys_sorted(entries),
        forall|a: int, b: int|
            0 <= a < acc.len() && 0 <= b < entries.len() ==> key_lt(#[trigger] acc[a].0, #[trigger] entries[b].0),
        0 <= m,
        m + show_entries(entries).len() < s.len(),
        s.subrange(m, m + show_entries(entries).len()) == show_entries(entries),
        s[m + show_entries(entries).len()] == '}',
    ensures
        p_members(s, m, acc, d) == Ok::<(Json, int), Seq<char>>(
            (Json::Obj(acc + entries), m + show_entries(entries).len() + 1),
        ),
    decreases entries,
{
    lemma_entries_front(entries);
    let key = entries[0].0;
    let v = entries[0].1;
    let e = escape_chars(key);
    let sv = show(v);
    let mt = member_text(entries[0]);
    assert(mt =~= seq!['"'] + e + (seq!['"', ':'] + sv));
    if entries.len() == 1 {
        assert(show_entries(entries) == mt + Seq::<char>::empty() + Seq::<char>::empty());
        lemma_split3(s, m, mt, Seq::empty(), Seq::empty());
    } else {
        assert(show_entries(entries) == mt + seq![','] + show_entries(entries.drop_first()));
        lemma_split3(s, m, mt, seq![','], show_entries(entries.drop_first()));
    }
    lemma_split3(s, m, seq!['"'], e, seq!['"', ':'] + sv);
    let k2 = m + 1 + e.len() + 1;
    let k4 = k2 + 1 + sv.len();
    assert(s[m + 1 + e.len()] == '"') by {
        assert(s.subrange(m + 1 + e.len(), m + 1 + e.len() + 2 + sv.len())[0] == '"');
    }
    assert(s[k2] == ':') by {
        assert(s.subrange(m + 1 + e.len(), m + 1 + e.len() + 2 + sv.len())[1] == ':');
    }
    assert(s.subrange(k2 + 1, k4) =~= sv) by {
        assert forall|q: int| 0 <= q < sv.len() implies s.subrange(k2 + 1, k4)[q] == sv[q] by {
            assert(s.subrange(m + 1 + e.len(), m + 1 + e.len() + 2 + sv.len())[2 + q] == sv[q]);
        }
    }
    assert(s[m] == '"') by {
        assert(s.subrange(m, m + 1)[0] == '"');
    }
    assert(skip_ws(s, m) == m);
    lemma_string_body(s, m + 1, Seq::empty(), key);
    assert(Seq::<char>::empty() + key =~= key);
    assert(skip_ws(s, k2) == k2);
    assert forall|a: int| 0 <= a < acc.len() implies key_lt(#[trigger] acc[a].0, key) by {
        assert(key_lt(acc[a].0, entries[0].0));
    }
    lemma_insert_last(acc, key, v);
    let acc2 = acc.push((key, v));
    if entries.len() == 1 {
        assert(show_entries(entries) == mt);
        assert(k4 == m + show_entries(entries).len());
        lemma_value_text(s, k2 + 1, v, d);
        assert(skip_ws(s, k4) == k4);
        assert(acc2 =~= acc + entries);
    } else {
        let rest = entries.drop_first();
        let sr = show_entries(rest);
        assert(show_entries(entries) == mt + seq![','] + sr);
        lemma_split3(s, m, mt, seq![','], sr);
        assert(s[k4] == ',') by {
            assert(s.subrange(k4, k4 + 1)[0] == ',');
        }
        lemma_value_text(s, k2 + 1, v, d);
        assert(skip_ws(s, k4) == k4);
        assert forall|q: int| 0 <= q < rest.len() implies json_wf(#[trigger] rest[q].1) && fits_depth(
            rest[q].1,
            MAX_JSON_DEPTH - d,
        ) by {
            assert(rest[q] == entries[q + 1]);
        }
        assert forall|a: int, b: int| 0 <= a < rest.len() && a < b < rest.len() implies key_lt(
            #[trigger] rest[a].0,
            #[trigger] rest[b].0,
        ) by {
            assert(rest[a] == entries[a + 1] && rest[b] == entries[b + 1]);
        }
        assert forall|a: int, b: int| 0 <= a < acc2.len() && 0 <= b < rest.len() implies key_lt(
            #[trigger] acc2[a].0,
            #[trigger] rest[b].0,
        ) by {
            assert(rest[b] == entries[b + 1]);
            if a < acc.len() {
                assert(acc2[a] == acc[a]);
                assert(key_lt(acc[a].0, entries[b + 1].0));
            } else {
                assert(acc2[a] == entries[0]);
                assert(key_lt(entries[0].0, entries[b + 1].0));
            }
        }
        lemma_members_text(s, k4 + 1, acc2, rest, d);
        assert(acc2 + rest =~= acc + entries);
    }
}

/// Reading back what was written gives the value again, for every value
/// whose numbers fit an `i64`, whose objects keep their keys in strictly
/// increasing order, and whose arrays and objects nest no deeper than the
/// parser reads.
pub proof fn lemma_json_roundtrip(j: Json)
    requires
        json_wf(j),
        fits_depth(j, MAX_JSON_DEPTH as int),
    ensures
        parse_json(show(j)) == Ok::<Json, Seq<char>>(j),
{
    let s = show(j);
    lemma_show_first(j);
    assert(skip_ws(s, 0) == 0);
    assert(s.subrange(0, s.len() as int) =~= s);
    lemma_value_text(s, 0, j, 0);
    assert(skip_ws(s, s.len() as int) == s.len());
}



// ---- what reading gives -----------------------------------------------------------

proof fn lemma_key_lt_trans(a: Seq<char>, b: Seq<char>, c: Seq<char>)
    requires
        key_lt(a, b),
        key_lt(b, c),
    ensures
        key_lt(a, c),
    decreases a.len(),
{
    if a.len() > 0 && b.len() > 0 && c.len() > 0 && a[0] == b[0] && b[0] == c[0] {
        lemma_key_lt_trans(a.drop_first(), b.drop_first(), c.drop_first());
    }
}

/// Sorted keys, and every value well formed with `room` levels left.
pub open spec fn entries_ok(m: Seq<(Seq<char>, Json)>, room: int) -> bool {
    &&& keys_sorted(m)
    &&& forall|k: int| 0 <= k < m.len() ==> json_wf(#[trigger] m[k].1) && fits_depth(m[k].1, room)
}

pub open spec fn items_ok(items: Seq<Json>, room: int) -> bool {
    forall|k: int| 0 <= k < items.len() ==> json_wf(#[trigger] items[k]) && fits_depth(items[k], room)
}

proof fn lemma_obj_insert_ok(m: Seq<(Seq<char>, Json)>, k: Seq<char>, v: Json, room: int)
    requires
        entries_ok(m, room),
        json_wf(v),
        fits_depth(v, room),
    ensures
        entries_ok(obj_insert(m, k, v), room),
        forall|x: Seq<char>|
            key_lt(x, k) && (forall|a: int| 0 <= a < m.len() ==> key_lt(x, #[trigger] m[a].0)) ==> forall|b: int|
                0 <= b < obj_insert(m, k, v).len() ==> key_lt(x, #[trigger] obj_insert(m, k, v)[b].0),
    decreases m.len(),
{
    let r = obj_insert(m, k, v);
    if m.len() == 0 {
    } else if m[0].0 == k {
        assert forall|a: int, b: int| 0 <= a < b < r.len() implies key_lt(#[trigger] r[a].0, #[trigger] r[b].0) by {
            assert(r[b] == m[b]);
            if a > 0 {
                assert(r[a] == m[a]);
            }
        }
        assert forall|q: int| 0 <= q < r.len() implies json_wf(#[trigger] r[q].1) && fits_depth(r[q].1, room) by {
            if q > 0 {
                assert(r[q] == m[q]);
            }
        }
        assert forall|x: Seq<char>|
            key_lt(x, k) && (forall|a: int| 0 <= a < m.len() ==> key_lt(x, #[trigger] m[a].0)) implies forall|b: int|
                0 <= b < r.len() ==> key_lt(x, #[trigger] r[b].0) by {
            assert forall|b: int| 0 <= b < r.len() implies key_lt(x, #[trigger] r[b].0) by {
                if b > 0 {
                    assert(r[b] == m[b]);
                }
            }
        }
    } else if key_lt(k, m[0].0) {
        assert forall|a: int, b: int| 0 <= a < b < r.len() implies key_lt(#[trigger] r[a].0, #[trigger] r[b].0) by {
            assert(r[b] == m[b - 1]);
            if a > 0 {
                assert(r[a] == m[a - 1]);
            } else if b > 1 {
                lemma_key_lt_trans(k, m[0].0, m[b - 1].0);
            }
        }
        assert forall|q: int| 0 <= q < r.len() implies json_wf(#[trigger] r[q].1) && fits_depth(r[q].1, room) by {
            if q > 0 {
                assert(r[q] == m[q - 1]);
            }
        }
        assert forall|x: Seq<char>|
            key_lt(x, k) && (forall|a: int| 0 <= a < m.len() ==> key_lt(x, #[trigger] m[a].0)) implies forall|b: int|
                0 <= b < r.len() ==> key_lt(x, #[trigger] r[b].0) by {
            assert forall|b: int| 0 <= b < r.len() implies key_lt(x, #[trigger] r[b].0) by {
                if b > 0 {
                    assert(r[b] == m[b - 1]);
                }
            }
        }
    } else {
        lemma_key_order(k, m[0].0);
        assert(key_lt(m[0].0, k));
        let rest = m.drop_first();
        assert forall|a: int, b: int| 0 <= a < b < rest.len() implies key_lt(#[trigger] rest[a].0, #[trigger] rest[b].0) by {
            assert(rest[a] == m[a + 1] && rest[b] == m[b + 1]);
        }
        assert forall|q: int| 0 <= q < rest.len() implies json_wf(#[trigger] rest[q].1) && fits_depth(rest[q].1, room) by {
            assert(rest[q] == m[q + 1]);
        }
        lemma_obj_insert_ok(rest, k, v, room);
        let r2 = obj_insert(rest, k, v);
        assert(r == seq![m[0]] + r2);
        assert forall|a: int| 0 <= a < rest.len() implies key_lt(m[0].0, #[trigger] rest[a].0) by {
            assert(rest[a] == m[a + 1]);
        }
        assert(forall|b: int| 0 <= b < r2.len() ==> key_lt(m[0].0, #[trigger] r2[b].0));
        assert forall|a: int, b: int| 0 <= a < b < r.len() implies key_lt(#[trigger] r[a].0, #[trigger] r[b].0) by {
            assert(r[b] == r2[b - 1]);
            if a > 0 {
                assert(r[a] == r2[a - 1]);
            }
        }
        assert forall|q: int| 0 <= q < r.len() implies json_wf(#[trigger] r[q].1) && fits_depth(r[q].1, room) by {
            if q > 0 {
                assert(r[q] == r2[q - 1]);
            }
        }
        assert forall|x: Seq<char>|
            key_lt(x, k) && (forall|a: int| 0 <= a < m.len() ==> key_lt(x, #[trigger] m[a].0)) implies forall|b: int|
                0 <= b < r.len() ==> key_lt(x, #[trigger] r[b].0) by {
            assert forall|a: int| 0 <= a < rest.len() implies key_lt(x, #[trigger] rest[a].0) by {
                assert(rest[a] == m[a + 1]);
            }
            assert forall|b: int| 0 <= b < r.len() implies key_lt(x, #[trigger] r[b].0) by {
                if b == 0 {
                    assert(key_lt(x, m[0].0));
                } else {
                    assert(r[b] == r2[b - 1]);
                }
            }
        }
    }
}

proof fn lemma_value_ok(s: Seq<char>, i: int, d: int)
    requires
        0 <= i,
        0 <= d <= MAX_JSON_DEPTH,
    ensures
        p_value(s, i, d) matches Ok((j, _)) ==> json_wf(j) && fits_depth(j, MAX_JSON_DEPTH - d),
    decreases s.len() + 1 - i, 2int,
{
    let j = skip_ws(s, i);
    lemma_skip_ws(s, i);
    if 0 <= j < s.len() && d < MAX_JSON_DEPTH {
        if s[j] == '{' {
            lemma_object_ok(s, j, d + 1);
        } else if s[j] == '[' {
            lemma_array_ok(s, j, d + 1);
        }
    }
}

proof fn lemma_object_ok(s: Seq<char>, j: int, e: int)
    requires
        0 <= j < s.len(),
        1 <= e <= MAX_JSON_DEPTH,
    ensures
        p_object(s, j, e) matches Ok((x, _)) ==> json_wf(x) && fits_depth(x, MAX_JSON_DEPTH - e + 1),
    decreases s.len() + 1 - j, 1int,
{
    lemma_skip_ws(s, j + 1);
    lemma_members_ok(s, j + 1, Seq::empty(), e);
}

proof fn lemma_members_ok(s: Seq<char>, m: int, acc: Seq<(Seq<char>, Json)>, e: int)
    requires
        0 <= m,
        1 <= e <= MAX_JSON_DEPTH,
        entries_ok(acc, MAX_JSON_DEPTH - e),
    ensures
        p_members(s, m, acc, e) matches Ok((x, _)) ==> json_wf(x) && fits_depth(x, MAX_JSON_DEPTH - e + 1),
    decreases s.len() + 1 - m, 3int,
{
    let k = skip_ws(s, m);
    lemma_skip_ws(s, m);
    if 0 <= k < s.len() && s[k] == '"' {
        lemma_string_rest_advances(s, k + 1, Seq::empty());
        match p_string_rest(s, k + 1, Seq::empty()) {
            Ok((key, k2)) => {
                let k3 = skip_ws(s, k2);
                lemma_skip_ws(s, k2);
                if 0 <= k3 < s.len() && s[k3] == ':' {
                    lemma_value_ok(s, k3 + 1, e);
                    match p_value(s, k3 + 1, e) {
                        Ok((v, k4)) => {
                            lemma_obj_insert_ok(acc, key, v, MAX_JSON_DEPTH - e);
                            let acc2 = obj_insert(acc, key, v);
                            let k5 = skip_ws(s, k4);
                            lemma_skip_ws(s, k4);
                            if 0 <= k5 < s.len() && s[k5] == ',' && k4 > k3 {
                                lemma_members_ok(s, k5 + 1, acc2, e);
                            }
                        },
                        Err(_) => {},
                    }
                }
            },
            Err(_) => {},
        }
    }
}

proof fn lemma_array_ok(s: Seq<char>, j: int, e: int)
    requires
        0 <= j < s.len(),
        1 <= e <= MAX_JSON_DEPTH,
    ensures
        p_array(s, j, e) matches Ok((x, _)) ==> json_wf(x) && fits_depth(x, MAX_JSON_DEPTH - e + 1),
    decreases s.len() + 1 - j, 1int,
{
    lemma_skip_ws(s, j + 1);
    lemma_elems_ok(s, j + 1, Seq::empty(), e);
}

proof fn lemma_elems_ok(s: Seq<char>, m: int, acc: Seq<Json>, e: int)
    requires
        0 <= m,
        1 <= e <= MAX_JSON_DEPTH,
        items_ok(acc, MAX_JSON_DEPTH - e),
    ensures
        p_elems(s, m, acc, e) matches Ok((x, _)) ==> json_wf(x) && fits_depth(x, MAX_JSON_DEPTH - e + 1),
    decreases s.len() + 1 - m, 3int,
{
    lemma_value_ok(s, m, e);
    match p_value(s, m, e) {
        Ok((v, k)) => {
            let acc2 = acc.push(v);
            assert forall|q: int| 0 <= q < acc2.len() implies json_wf(#[trigger] acc2[q]) && fits_depth(
                acc2[q],
                MAX_JSON_DEPTH - e,
            ) by {
                if q < acc.len() {
                    assert(acc2[q] == acc[q]);
                }
            }
            let k2 = skip_ws(s, k);
            lemma_skip_ws(s, k);
            if 0 <= k2 < s.len() && s[k2] == ',' && k > m {
                lemma_elems_ok(s, k2 + 1, acc2, e);
            }
        },
        Err(_) => {},
    }
}

/// Every value that reading gives is written back to text that reads as the
/// same value.
pub proof fn lemma_parsed_json_reads_back(s: Seq<char>)
    ensures
        parse_json(s) matches Ok(j) ==> parse_json(show(j)) == Ok::<Json, Seq<char>>(j),
{
    lemma_skip_ws(s, 0);
    lemma_value_ok(s, skip_ws(s, 0), 0);
    if let Ok(j) = parse_json(s) {
        lemma_json_roundtrip(j);
    }
}

} // verus!
