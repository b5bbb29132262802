//! A canonical rule is canonical again: canonicalizing the text that
//! `canonicalize` returned gives that text back. A stored rule therefore
//! survives every later write that leaves it alone.

use vstd::prelude::*;
use crate::rrule::{canonical_rrule, has_ws, no_fields, render, opt_part, RuleFields, apply_part, fold_parts, freq_name, until_value, ListKind, byday_item, is_weekday, list_canon, list_item, month_item, monthday_item, plain_u32};
use crate::text::{lemma_digit_run_to, is_ws, trim, trim_start, all_ascii, is_ascii_char, lemma_digit_run_end, lemma_digits_value_bound, lemma_utf8_len_push, pow10, utf8_len, all_digits, dec, digit_run_end, digit_value, digits_value, find_char, is_digit, is_upper, lemma_dec_digits, lemma_find_char, lemma_find_char_at, upper, upper_seq};
use vstd::utf8::encode_utf8;

verus! {

/// Text made of upper-case letters, digits and `-`: what a canonical list
/// item holds. No separator of the rule can occur in it.
pub open spec fn item_text(q: Seq<char>) -> bool {
    q.len() > 0 && forall|k: int| 0 <= k < q.len() ==> is_upper(#[trigger] q[k]) || is_digit(q[k]) || q[k] == '-'
}

proof fn lemma_no_comma(q: Seq<char>)
    requires
        item_text(q),
    ensures
        find_char(q, ',') == q.len(),
        q.take(q.len() as int) == q,
{
    lemma_find_char_at(q, ',', q.len() as int);
    assert(q.take(q.len() as int) =~= q);
}

proof fn lemma_dec_item(n: nat)
    requires
        n <= u32::MAX,
    ensures
        plain_u32(dec(n)) == Some(n as int),
        item_text(dec(n)),
        is_digit(dec(n)[0]),
{
    lemma_dec_digits(n);
}

proof fn lemma_month_item_stable(p: Seq<char>)
    requires
        month_item(p) is Some,
    ensures
        month_item(month_item(p).unwrap()) == month_item(p),
        item_text(month_item(p).unwrap()),
{
    let n = plain_u32(p).unwrap();
    lemma_dec_item(n as nat);
}

proof fn lemma_monthday_item_stable(p: Seq<char>)
    requires
        monthday_item(p) is Some,
    ensures
        monthday_item(monthday_item(p).unwrap()) == monthday_item(p),
        item_text(monthday_item(p).unwrap()),
{
    let q = monthday_item(p).unwrap();
    reveal_strlit("-1");
    if q == "-1"@ {
        assert(q.drop_first() =~= seq!['1']);
        assert(dec(1) == seq!['1']);
        lemma_dec_item(1);
    } else {
        let signed = p.len() > 0 && (p[0] == '-' || p[0] == '+');
        let digits = if signed {
            p.drop_first()
        } else {
            p
        };
        let n = plain_u32(digits).unwrap();
        assert(q == dec(n as nat));
        lemma_dec_item(n as nat);
    }
}

proof fn lemma_weekday_text(day: Seq<char>)
    requires
        is_weekday(day),
    ensures
        upper_seq(day) == day,
        day.len() == 2,
        is_upper(day[0]) && is_upper(day[1]),
{
    reveal_strlit("MO");
    reveal_strlit("TU");
    reveal_strlit("WE");
    reveal_strlit("TH");
    reveal_strlit("FR");
    reveal_strlit("SA");
    reveal_strlit("SU");
    assert(upper_seq(day) =~= day);
}

#[verifier::spinoff_prover]
proof fn lemma_byday_item_stable(p: Seq<char>, ok: bool)
    requires
        byday_item(p, ok) is Some,
    ensures
        byday_item(byday_item(p, ok).unwrap(), ok) == byday_item(p, ok),
        item_text(byday_item(p, ok).unwrap()),
{
    let q = byday_item(p, ok).unwrap();
    let i0: int = if p[0] == '+' || p[0] == '-' {
        1
    } else {
        0
    };
    let i = digit_run_end(p, i0);
    let day = upper_seq(p.subrange(i, p.len() as int));
    lemma_weekday_text(day);
    reveal_strlit("-1");
    if i == i0 {
        assert(q == day);
        lemma_digit_run_to(q, 0, 0);
        assert(q.subrange(0, 2) =~= q);
    } else {
        let n = digits_value(p.subrange(i0, i));
        if p[0] == '-' {
            let dd = "-1"@;
            assert(q == dd + day);
            assert(q[0] == '-' && q[1] == '1');
            lemma_digit_run_to(q, 1, 2);
            assert(q.subrange(2, 4) =~= day);
            assert(q.subrange(1, 2) =~= seq!['1']);
            assert(digits_value(seq!['1']) == 1) by {
                assert(seq!['1'].drop_last() =~= Seq::<char>::empty());
                assert(seq!['1'].last() == '1');
                assert(digit_value('1') == 1);
                assert(digits_value(Seq::<char>::empty()) == 0);
            }
        } else {
            let dn = dec(n as nat);
            lemma_dec_digits(n as nat);
            assert(n <= 5);
            assert(dn.len() == 1) by {
                assert(dn == seq![crate::text::digit_char(n)]);
            }
            assert(q == dn + day);
            assert forall|k: int| 0 <= k < 1 implies is_digit(#[trigger] q[k]) by {
                assert(q[k] == dn[k]);
            }
            lemma_digit_run_to(q, 0, 1);
            assert(q.subrange(1, 3) =~= day);
            assert(q.subrange(0, 1) =~= dn);
        }
    }
}

proof fn lemma_item_stable(kind: ListKind, p: Seq<char>, ok: bool)
    requires
        list_item(kind, p, ok) is Some,
    ensures
        list_item(kind, list_item(kind, p, ok).unwrap(), ok) == list_item(kind, p, ok),
        item_text(list_item(kind, p, ok).unwrap()),
{
    match kind {
        ListKind::Months => lemma_month_item_stable(p),
        ListKind::MonthDays => lemma_monthday_item_stable(p),
        ListKind::Days => lemma_byday_item_stable(p, ok),
    }
}

/// Text of canonical items joined by commas.
pub open spec fn list_text(y: Seq<char>) -> bool {
    y.len() > 0 && forall|k: int|
        0 <= k < y.len() ==> is_upper(#[trigger] y[k]) || is_digit(y[k]) || y[k] == '-' || y[k] == ','
}

/// A canonical list reads back as itself.
pub proof fn lemma_list_canon_stable(s: Seq<char>, kind: ListKind, ok: bool)
    requires
        list_canon(s, kind, ok) is Some,
    ensures
        list_canon(list_canon(s, kind, ok).unwrap(), kind, ok) == list_canon(s, kind, ok),
        list_text(list_canon(s, kind, ok).unwrap()),
    decreases s.len(),
{
    let i = find_char(s, ',');
    lemma_find_char(s, ',');
    lemma_item_stable(kind, s.take(i), ok);
    let q = list_item(kind, s.take(i), ok).unwrap();
    lemma_no_comma(q);
    if i >= s.len() {
        assert(list_canon(s, kind, ok) == Some(q));
    } else {
        lemma_list_canon_stable(s.skip(i + 1), kind, ok);
        let r = list_canon(s.skip(i + 1), kind, ok).unwrap();
        let y = q + seq![','] + r;
        assert(list_canon(s, kind, ok) == Some(y));
        assert forall|j: int| 0 <= j < q.len() implies #[trigger] y[j] != ',' by {
            assert(y[j] == q[j]);
        }
        lemma_find_char_at(y, ',', q.len() as int);
        assert(y.take(q.len() as int) =~= q);
        assert(y.skip(q.len() as int + 1) =~= r);
    }
}


// ---- lengths: a canonical rule is never longer than what it came from ---------

proof fn lemma_dec_len(n: nat, l: nat)
    requires
        l >= 1,
        n < pow10(l),
    ensures
        dec(n).len() <= l,
    decreases n,
{
    if n >= 10 {
        assert(pow10(1) == 10) by {
            reveal_with_fuel(pow10, 2);
        }
        assert(l >= 2);
        let p = pow10((l - 1) as nat);
        assert(pow10(l) == 10 * p);
        assert(n / 10 < p) by (nonlinear_arith)
            requires
                n < 10 * p,
        ;
        lemma_dec_len(n / 10, (l - 1) as nat);
    }
}

proof fn lemma_digits_dec_len(v: Seq<char>)
    requires
        v.len() > 0,
        all_digits(v),
    ensures
        dec(digits_value(v) as nat).len() <= v.len(),
{
    lemma_digits_value_bound(v);
    lemma_dec_len(digits_value(v) as nat, v.len());
}

proof fn lemma_item_len(kind: ListKind, p: Seq<char>, ok: bool)
    requires
        list_item(kind, p, ok) is Some,
    ensures
        list_item(kind, p, ok).unwrap().len() <= p.len(),
{
    reveal_strlit("-1");
    match kind {
        ListKind::Months => lemma_digits_dec_len(p),
        ListKind::MonthDays => {
            let signed = p.len() > 0 && (p[0] == '-' || p[0] == '+');
            let digits = if signed {
                p.drop_first()
            } else {
                p
            };
            lemma_digits_dec_len(digits);
        },
        ListKind::Days => {
            let i0: int = if p[0] == '+' || p[0] == '-' {
                1
            } else {
                0
            };
            let i = digit_run_end(p, i0);
            lemma_digit_run_end(p, i0);
            let day = upper_seq(p.subrange(i, p.len() as int));
            if i != i0 {
                let n = digits_value(p.subrange(i0, i));
                if p[0] != '-' {
                    lemma_dec_digits(n as nat);
                    assert(dec(n as nat) == seq![crate::text::digit_char(n)]);
                }
            }
        },
    }
}

/// A canonical list is no longer than the list it was read from.
proof fn lemma_list_canon_len(s: Seq<char>, kind: ListKind, ok: bool)
    requires
        list_canon(s, kind, ok) is Some,
    ensures
        list_canon(s, kind, ok).unwrap().len() <= s.len(),
    decreases s.len(),
{
    let i = find_char(s, ',');
    lemma_find_char(s, ',');
    lemma_item_len(kind, s.take(i), ok);
    if i < s.len() {
        lemma_list_canon_len(s.skip(i + 1), kind, ok);
    }
}

proof fn lemma_utf8_len_ascii(s: Seq<char>)
    ensures
        utf8_len(s) >= s.len(),
        all_ascii(s) ==> utf8_len(s) == s.len(),
    decreases s.len(),
{
    if s.len() > 0 {
        let a = s.drop_last();
        lemma_utf8_len_ascii(a);
        lemma_utf8_len_push(a, s.last());
        assert(a.push(s.last()) =~= s);
        if all_ascii(s) {
            assert forall|k: int| 0 <= k < a.len() implies is_ascii_char(#[trigger] a[k]) by {
                assert(a[k] == s[k]);
            }
            assert(is_ascii_char(s[s.len() - 1]));
        }
    } else {
        assert(encode_utf8(s) =~= Seq::<u8>::empty());
    }
}


// ---- what reading a rule leaves in the fields ---------------------------------

/// What every successful read of parts leaves in the fields: each value in
/// the form that reading it again accepts unchanged.
spec fn fields_ok(f: RuleFields, all_day: bool) -> bool {
    &&& (f.freq matches Some(fr) ==> freq_name(fr) == Some(fr))
    &&& (f.interval matches Some(n) ==> 1 <= n <= 999)
    &&& (f.count matches Some(n) ==> 1 <= n <= 366 && f.until is None)
    &&& (f.until matches Some(u) ==> until_value(u, all_day) == Some(u) && f.count is None)
    &&& (f.bymonth matches Some(m) ==> list_canon(m, ListKind::Months, false) == Some(m)
        && list_text(m))
    &&& (f.bymonthday matches Some(m) ==> list_canon(m, ListKind::MonthDays, false) == Some(m)
        && list_text(m))
}

spec fn opt_len(k: int, v: Option<Seq<char>>) -> int {
    match v {
        Some(t) => k + t.len(),
        None => 0,
    }
}

spec fn num_len(k: int, v: Option<int>) -> int {
    match v {
        Some(n) => k + dec(n as nat).len(),
        None => 0,
    }
}

/// An upper bound on the text that rendering the fields gives, each part
/// counted with the `;` before it.
spec fn weight(f: RuleFields) -> int {
    opt_len(6, f.freq) + num_len(10, f.interval) + opt_len(9, f.bymonth) + opt_len(12, f.bymonthday)
        + opt_len(7, f.byday) + num_len(7, f.count) + opt_len(7, f.until)
}

proof fn lemma_upper_idem(v: Seq<char>)
    ensures
        upper_seq(upper_seq(v)) == upper_seq(v),
{
    assert(upper_seq(upper_seq(v)) =~= upper_seq(v));
}

#[verifier::spinoff_prover]
proof fn lemma_apply_ok(g: RuleFields, part: Seq<char>, all_day: bool)
    requires
        fields_ok(g, all_day),
    ensures
        apply_part(g, part, all_day) matches Ok(h) ==> fields_ok(h, all_day) && weight(h) <= weight(g)
            + part.len() + 1,
{
    let e = find_char(part, '=');
    lemma_find_char(part, '=');
    let key = upper_seq(part.take(e));
    let value = part.skip(e + 1);
    reveal_strlit("FREQ");
    reveal_strlit("INTERVAL");
    reveal_strlit("COUNT");
    reveal_strlit("UNTIL");
    reveal_strlit("BYDAY");
    reveal_strlit("BYMONTHDAY");
    reveal_strlit("BYMONTH");
    assert("FREQ"@.len() == 4 && "INTERVAL"@.len() == 8 && "COUNT"@.len() == 5 && "UNTIL"@.len()
        == 5 && "BYDAY"@.len() == 5 && "BYMONTHDAY"@.len() == 10 && "BYMONTH"@.len() == 7);
    if apply_part(g, part, all_day) is Ok {
        assert(part.len() == e + 1 + value.len());
        if key == "FREQ"@ {
            lemma_upper_idem(value);
        } else if key == "INTERVAL"@ || key == "COUNT"@ {
            lemma_digits_dec_len(value);
        } else if key == "BYMONTHDAY"@ {
            lemma_list_canon_stable(value, ListKind::MonthDays, false);
            lemma_list_canon_len(value, ListKind::MonthDays, false);
        } else if key == "BYMONTH"@ {
            lemma_list_canon_stable(value, ListKind::Months, false);
            lemma_list_canon_len(value, ListKind::Months, false);
        }
    }
}

proof fn lemma_fold_ok(g: RuleFields, s: Seq<char>, all_day: bool)
    requires
        fields_ok(g, all_day),
    ensures
        fold_parts(g, s, all_day) matches Ok(f) ==> fields_ok(f, all_day) && weight(f) <= weight(g)
            + s.len() + 1,
    decreases s.len(),
{
    let i = find_char(s, ';');
    lemma_find_char(s, ';');
    lemma_apply_ok(g, s.take(i), all_day);
    match apply_part(g, s.take(i), all_day) {
        Ok(h) => {
            if i < s.len() {
                lemma_fold_ok(h, s.skip(i + 1), all_day);
            }
        },
        Err(_) => {},
    }
}


// ---- reading a rendered rule back ------------------------------------------------

spec fn no_semi(s: Seq<char>) -> bool {
    forall|k: int| 0 <= k < s.len() ==> #[trigger] s[k] != ';'
}

spec fn all_upper(s: Seq<char>) -> bool {
    forall|k: int| 0 <= k < s.len() ==> is_upper(#[trigger] s[k])
}

/// What is left to read after a part: nothing, or `;` and more parts.
spec fn fold_rest(g: RuleFields, x: Seq<char>, all_day: bool) -> Result<RuleFields, Seq<char>> {
    if x.len() == 0 {
        Ok(g)
    } else {
        fold_parts(g, x.drop_first(), all_day)
    }
}

proof fn lemma_keys()
    ensures
        "FREQ"@.len() == 4 && "INTERVAL"@.len() == 8 && "COUNT"@.len() == 5 && "UNTIL"@.len() == 5
            && "BYDAY"@.len() == 5 && "BYMONTHDAY"@.len() == 10 && "BYMONTH"@.len() == 7,
        all_upper("FREQ"@) && all_upper("INTERVAL"@) && all_upper("COUNT"@) && all_upper("UNTIL"@)
            && all_upper("BYDAY"@) && all_upper("BYMONTHDAY"@) && all_upper("BYMONTH"@),
        "FREQ="@ == "FREQ"@ + seq!['='],
        ";INTERVAL="@ == seq![';'] + "INTERVAL"@ + seq!['='],
        ";BYMONTH="@ == seq![';'] + "BYMONTH"@ + seq!['='],
        ";BYMONTHDAY="@ == seq![';'] + "BYMONTHDAY"@ + seq!['='],
        ";BYDAY="@ == seq![';'] + "BYDAY"@ + seq!['='],
        ";COUNT="@ == seq![';'] + "COUNT"@ + seq!['='],
        ";UNTIL="@ == seq![';'] + "UNTIL"@ + seq!['='],
        "COUNT"@ != "UNTIL"@ && "COUNT"@ != "BYDAY"@ && "UNTIL"@ != "BYDAY"@,
{
    reveal_strlit("FREQ");
    reveal_strlit("INTERVAL");
    reveal_strlit("COUNT");
    reveal_strlit("UNTIL");
    reveal_strlit("BYDAY");
    reveal_strlit("BYMONTHDAY");
    reveal_strlit("BYMONTH");
    reveal_strlit("FREQ=");
    reveal_strlit(";INTERVAL=");
    reveal_strlit(";BYMONTH=");
    reveal_strlit(";BYMONTHDAY=");
    reveal_strlit(";BYDAY=");
    reveal_strlit(";COUNT=");
    reveal_strlit(";UNTIL=");
    assert("FREQ="@ =~= "FREQ"@ + seq!['=']);
    assert(";INTERVAL="@ =~= seq![';'] + "INTERVAL"@ + seq!['=']);
    assert(";BYMONTH="@ =~= seq![';'] + "BYMONTH"@ + seq!['=']);
    assert(";BYMONTHDAY="@ =~= seq![';'] + "BYMONTHDAY"@ + seq!['=']);
    assert(";BYDAY="@ =~= seq![';'] + "BYDAY"@ + seq!['=']);
    assert(";COUNT="@ =~= seq![';'] + "COUNT"@ + seq!['=']);
    assert(";UNTIL="@ =~= seq![';'] + "UNTIL"@ + seq!['=']);
    assert("COUNT"@[0] != "UNTIL"@[0] && "COUNT"@[0] != "BYDAY"@[0] && "UNTIL"@[0] != "BYDAY"@[0]);
}

/// `KEY=value` splits at its first `=` into the key and the value.
proof fn lemma_key_part(key: Seq<char>, t: Seq<char>)
    requires
        all_upper(key),
    ensures
        find_char(key + seq!['='] + t, '=') == key.len(),
        upper_seq((key + seq!['='] + t).take(key.len() as int)) == key,
        (key + seq!['='] + t).skip(key.len() as int + 1) == t,
        (key + seq!['='] + t).len() == key.len() + 1 + t.len(),
{
    let p = key + seq!['='] + t;
    assert forall|j: int| 0 <= j < key.len() implies #[trigger] p[j] != '=' by {
        assert(p[j] == key[j]);
        assert(is_upper(key[j]));
    }
    lemma_find_char_at(p, '=', key.len() as int);
    assert(p.take(key.len() as int) =~= key);
    assert(upper_seq(key) =~= key);
    assert(p.skip(key.len() as int + 1) =~= t);
}

proof fn lemma_fold_head(g: RuleFields, p: Seq<char>, x: Seq<char>, all_day: bool)
    requires
        no_semi(p),
        x.len() == 0 || x[0] == ';',
    ensures
        fold_parts(g, p + x, all_day) == match apply_part(g, p, all_day) {
            Err(e) => Err(e),
            Ok(h) => fold_rest(h, x, all_day),
        },
{
    let s = p + x;
    assert forall|j: int| 0 <= j < p.len() implies #[trigger] s[j] != ';' by {
        assert(s[j] == p[j]);
    }
    lemma_find_char_at(s, ';', p.len() as int);
    assert(s.take(p.len() as int) =~= p);
    if x.len() > 0 {
        assert(s.skip(p.len() as int + 1) =~= x.drop_first());
    }
}

/// An optional `;KEY=value` part in front of the rest of a rule.
proof fn lemma_opt_step(
    h: RuleFields,
    key: Seq<char>,
    v: Option<Seq<char>>,
    rest: Seq<char>,
    all_day: bool,
)
    requires
        all_upper(key),
        v matches Some(t) ==> list_text(t),
        rest.len() == 0 || rest[0] == ';',
    ensures
        fold_rest(h, opt_part(seq![';'] + key + seq!['='], v) + rest, all_day) == match v {
            None => fold_rest(h, rest, all_day),
            Some(t) => match apply_part(h, key + seq!['='] + t, all_day) {
                Err(e) => Err(e),
                Ok(h2) => fold_rest(h2, rest, all_day),
            },
        },
{
    let name = seq![';'] + key + seq!['='];
    match v {
        None => {
            assert(opt_part(name, v) + rest =~= rest);
        },
        Some(t) => {
            let p = key + seq!['='] + t;
            let x = opt_part(name, v) + rest;
            assert(x[0] == ';');
            assert(x.drop_first() =~= p + rest);
            assert forall|j: int| 0 <= j < p.len() implies #[trigger] p[j] != ';' by {
                if j < key.len() {
                    assert(p[j] == key[j]);
                    assert(is_upper(key[j]));
                } else if j > key.len() {
                    assert(p[j] == t[j - key.len() - 1]);
                }
            }
            lemma_fold_head(h, p, rest, all_day);
        },
    }
}


proof fn lemma_rest_ok(key: Seq<char>, v: Option<Seq<char>>, rest: Seq<char>)
    requires
        rest.len() == 0 || rest[0] == ';',
    ensures
        ({
            let x = opt_part(seq![';'] + key + seq!['='], v) + rest;
            x.len() == 0 || x[0] == ';'
        }),
{
    let x = opt_part(seq![';'] + key + seq!['='], v) + rest;
    if v is None {
        assert(x =~= rest);
    } else {
        assert(x[0] == ';');
    }
}

proof fn lemma_apply_freq(h: RuleFields, fr: Seq<char>, all_day: bool)
    requires
        h.freq is None,
        freq_name(fr) == Some(fr),
        fr.len() > 0,
    ensures
        apply_part(h, "FREQ"@ + seq!['='] + fr, all_day) == Ok::<RuleFields, Seq<char>>(RuleFields { freq: Some(fr), ..h }),
{
    lemma_keys();
    lemma_key_part("FREQ"@, fr);
}

proof fn lemma_apply_interval(h: RuleFields, n: int, all_day: bool)
    requires
        h.interval is None,
        1 <= n <= 999,
    ensures
        apply_part(h, "INTERVAL"@ + seq!['='] + dec(n as nat), all_day) == Ok::<RuleFields, Seq<char>>(
            RuleFields { interval: Some(n), ..h },
        ),
{
    lemma_keys();
    lemma_dec_item(n as nat);
    lemma_key_part("INTERVAL"@, dec(n as nat));
}

proof fn lemma_apply_count(h: RuleFields, n: int, all_day: bool)
    requires
        h.count is None,
        h.until is None,
        1 <= n <= 366,
    ensures
        apply_part(h, "COUNT"@ + seq!['='] + dec(n as nat), all_day) == Ok::<RuleFields, Seq<char>>(
            RuleFields { count: Some(n), ..h },
        ),
{
    lemma_keys();
    lemma_dec_item(n as nat);
    lemma_key_part("COUNT"@, dec(n as nat));
}

proof fn lemma_apply_until(h: RuleFields, u: Seq<char>, all_day: bool)
    requires
        h.until is None,
        h.count is None,
        until_value(u, all_day) == Some(u),
        u.len() > 0,
    ensures
        apply_part(h, "UNTIL"@ + seq!['='] + u, all_day) == Ok::<RuleFields, Seq<char>>(RuleFields { until: Some(u), ..h }),
{
    lemma_keys();
    lemma_key_part("UNTIL"@, u);
}

proof fn lemma_apply_byday(h: RuleFields, d: Seq<char>, all_day: bool)
    requires
        h.byday is None,
        d.len() > 0,
    ensures
        apply_part(h, "BYDAY"@ + seq!['='] + d, all_day) == Ok::<RuleFields, Seq<char>>(RuleFields { byday: Some(d), ..h }),
{
    lemma_keys();
    lemma_key_part("BYDAY"@, d);
}

proof fn lemma_apply_bymonthday(h: RuleFields, m: Seq<char>, all_day: bool)
    requires
        h.bymonthday is None,
        list_canon(m, ListKind::MonthDays, false) == Some(m),
        m.len() > 0,
    ensures
        apply_part(h, "BYMONTHDAY"@ + seq!['='] + m, all_day) == Ok::<RuleFields, Seq<char>>(
            RuleFields { bymonthday: Some(m), ..h },
        ),
{
    lemma_keys();
    lemma_key_part("BYMONTHDAY"@, m);
}

proof fn lemma_apply_bymonth(h: RuleFields, m: Seq<char>, all_day: bool)
    requires
        h.bymonth is None,
        list_canon(m, ListKind::Months, false) == Some(m),
        m.len() > 0,
    ensures
        apply_part(h, "BYMONTH"@ + seq!['='] + m, all_day) == Ok::<RuleFields, Seq<char>>(RuleFields { bymonth: Some(m), ..h }),
{
    lemma_keys();
    lemma_key_part("BYMONTH"@, m);
}


proof fn lemma_dec_text(n: nat)
    ensures
        list_text(dec(n)),
{
    lemma_dec_digits(n);
}

proof fn lemma_freq_text(fr: Seq<char>)
    requires
        freq_name(fr) == Some(fr),
    ensures
        list_text(fr),
{
    reveal_strlit("DAILY");
    reveal_strlit("WEEKLY");
    reveal_strlit("MONTHLY");
    reveal_strlit("YEARLY");
}

proof fn lemma_until_text(u: Seq<char>, all_day: bool)
    requires
        until_value(u, all_day) == Some(u),
    ensures
        list_text(u),
{
    if all_day {
        assert(all_digits(u));
    } else {
        let a = u.subrange(0, 8);
        let b = u.subrange(9, 15);
        assert(all_digits(a) && all_digits(b));
        assert forall|k: int| 0 <= k < u.len() implies is_upper(#[trigger] u[k]) || is_digit(u[k])
            || u[k] == '-' || u[k] == ',' by {
            if k < 8 {
                assert(u[k] == a[k]);
            } else if 9 <= k < 15 {
                assert(u[k] == b[k - 9]);
            }
        }
    }
}

proof fn lemma_step(
    h: RuleFields,
    h2: RuleFields,
    key: Seq<char>,
    v: Option<Seq<char>>,
    rest: Seq<char>,
    all_day: bool,
)
    requires
        all_upper(key),
        v matches Some(t) ==> list_text(t) && apply_part(h, key + seq!['='] + t, all_day) == Ok::<
            RuleFields,
            Seq<char>,
        >(h2),
        v is None ==> h2 == h,
        rest.len() == 0 || rest[0] == ';',
    ensures
        fold_rest(h, opt_part(seq![';'] + key + seq!['='], v) + rest, all_day) == fold_rest(
            h2,
            rest,
            all_day,
        ),
{
    lemma_opt_step(h, key, v, rest, all_day);
}

/// The rendered text, cut into its first part and the optional parts after it.
proof fn lemma_render_parts(f: RuleFields, days: Option<Seq<char>>)
    requires
        f.freq is Some,
    ensures
        ({
            let iv: Option<Seq<char>> = match f.interval {
                Some(n) => if n != 1 {
                    Some(dec(n as nat))
                } else {
                    None
                },
                None => None,
            };
            let ct: Option<Seq<char>> = match f.count {
                Some(n) => Some(dec(n as nat)),
                None => None,
            };
            render(f, days) == ("FREQ"@ + seq!['='] + f.freq.unwrap()) + (opt_part(";INTERVAL="@, iv)
                + (opt_part(";BYMONTH="@, f.bymonth) + (opt_part(";BYMONTHDAY="@, f.bymonthday)
                + (opt_part(";BYDAY="@, days) + (opt_part(";COUNT="@, ct) + (opt_part(
                ";UNTIL="@,
                f.until,
            ) + Seq::<char>::empty()))))))
        }),
{
    lemma_keys();
    let iv: Option<Seq<char>> = match f.interval {
        Some(n) => if n != 1 {
            Some(dec(n as nat))
        } else {
            None
        },
        None => None,
    };
    let ct: Option<Seq<char>> = match f.count {
        Some(n) => Some(dec(n as nat)),
        None => None,
    };
    let o1 = opt_part(";INTERVAL="@, iv);
    let o2 = opt_part(";BYMONTH="@, f.bymonth);
    let o3 = opt_part(";BYMONTHDAY="@, f.bymonthday);
    let o4 = opt_part(";BYDAY="@, days);
    let o5 = opt_part(";COUNT="@, ct);
    let o6 = opt_part(";UNTIL="@, f.until);
    let e = Seq::<char>::empty();
    let a0 = "FREQ="@ + f.freq.unwrap();
    let t6 = o6 + e;
    let t5 = o5 + t6;
    let t4 = o4 + t5;
    let t3 = o3 + t4;
    let t2 = o2 + t3;
    let t1 = o1 + t2;
    let a1 = a0 + o1;
    let a2 = a1 + o2;
    let a3 = a2 + o3;
    let a4 = a3 + o4;
    let a5 = a4 + o5;
    let a6 = a5 + o6;
    assert(a6 =~= a6 + e);
    lemma_assoc(a5, o6, e);
    lemma_assoc(a4, o5, t6);
    lemma_assoc(a3, o4, t5);
    lemma_assoc(a2, o3, t4);
    lemma_assoc(a1, o2, t3);
    lemma_assoc(a0, o1, t2);
}

proof fn lemma_assoc(a: Seq<char>, b: Seq<char>, c: Seq<char>)
    ensures
        (a + b) + c == a + (b + c),
{
    assert((a + b) + c =~= a + (b + c));
}

/// Rendering the fields and reading the text back gives the same fields,
/// but for an interval of 1, which the text leaves out.
#[verifier::spinoff_prover]
proof fn lemma_render_reads_back(f: RuleFields, days: Option<Seq<char>>, all_day: bool)
    requires
        fields_ok(f, all_day),
        f.freq is Some,
        days matches Some(d) ==> list_text(d),
    ensures
        fold_parts(no_fields(), render(f, days), all_day) == Ok::<RuleFields, Seq<char>>(
            RuleFields {
                interval: match f.interval {
                    Some(n) => if n != 1 {
                        Some(n)
                    } else {
                        None
                    },
                    None => None,
                },
                byday: days,
                ..f
            },
        ),
{
    lemma_keys();
    let fr = f.freq.unwrap();
    lemma_freq_text(fr);
    let iv: Option<Seq<char>> = match f.interval {
        Some(n) => if n != 1 {
            Some(dec(n as nat))
        } else {
            None
        },
        None => None,
    };
    let ct: Option<Seq<char>> = match f.count {
        Some(n) => Some(dec(n as nat)),
        None => None,
    };
    let a0 = "FREQ"@ + seq!['='] + fr;
    let x7 = Seq::<char>::empty();
    let x6 = opt_part(";UNTIL="@, f.until) + x7;
    let x5 = opt_part(";COUNT="@, ct) + x6;
    let x4 = opt_part(";BYDAY="@, days) + x5;
    let x3 = opt_part(";BYMONTHDAY="@, f.bymonthday) + x4;
    let x2 = opt_part(";BYMONTH="@, f.bymonth) + x3;
    let x1 = opt_part(";INTERVAL="@, iv) + x2;
    lemma_render_parts(f, days);
    assert(render(f, days) == a0 + x1);
    lemma_rest_ok("UNTIL"@, f.until, x7);
    lemma_rest_ok("COUNT"@, ct, x6);
    lemma_rest_ok("BYDAY"@, days, x5);
    lemma_rest_ok("BYMONTHDAY"@, f.bymonthday, x4);
    lemma_rest_ok("BYMONTH"@, f.bymonth, x3);
    lemma_rest_ok("INTERVAL"@, iv, x2);
    let h1 = RuleFields { freq: Some(fr), ..no_fields() };
    assert(fold_parts(no_fields(), a0 + x1, all_day) == fold_rest(h1, x1, all_day)) by {
        assert forall|j: int| 0 <= j < a0.len() implies #[trigger] a0[j] != ';' by {
            if j < 4 {
                assert(a0[j] == "FREQ"@[j]);
                assert(is_upper("FREQ"@[j]));
            } else if j > 4 {
                assert(a0[j] == fr[j - 5]);
            }
        }
        lemma_fold_head(no_fields(), a0, x1, all_day);
        lemma_apply_freq(no_fields(), fr, all_day);
    }
    let h2 = match iv {
        Some(_) => RuleFields { interval: f.interval, ..h1 },
        None => h1,
    };
    assert(fold_rest(h1, x1, all_day) == fold_rest(h2, x2, all_day)) by {
        if let Some(n) = f.interval {
            if n != 1 {
                lemma_dec_text(n as nat);
                lemma_apply_interval(h1, n, all_day);
            }
        }
        lemma_step(h1, h2, "INTERVAL"@, iv, x2, all_day);
    }
    let h3 = RuleFields { bymonth: f.bymonth, ..h2 };
    assert(fold_rest(h2, x2, all_day) == fold_rest(h3, x3, all_day)) by {
        if let Some(m) = f.bymonth {
            lemma_apply_bymonth(h2, m, all_day);
        }
        lemma_step(h2, h3, "BYMONTH"@, f.bymonth, x3, all_day);
    }
    let h4 = RuleFields { bymonthday: f.bymonthday, ..h3 };
    assert(fold_rest(h3, x3, all_day) == fold_rest(h4, x4, all_day)) by {
        if let Some(m) = f.bymonthday {
            lemma_apply_bymonthday(h3, m, all_day);
        }
        lemma_step(h3, h4, "BYMONTHDAY"@, f.bymonthday, x4, all_day);
    }
    let h5 = RuleFields { byday: days, ..h4 };
    assert(fold_rest(h4, x4, all_day) == fold_rest(h5, x5, all_day)) by {
        if let Some(d) = days {
            lemma_apply_byday(h4, d, all_day);
        }
        lemma_step(h4, h5, "BYDAY"@, days, x5, all_day);
    }
    let h6 = RuleFields { count: f.count, ..h5 };
    assert(fold_rest(h5, x5, all_day) == fold_rest(h6, x6, all_day)) by {
        if let Some(n) = f.count {
            lemma_dec_text(n as nat);
            lemma_apply_count(h5, n, all_day);
        }
        lemma_step(h5, h6, "COUNT"@, ct, x6, all_day);
    }
    let h7 = RuleFields { until: f.until, ..h6 };
    assert(fold_rest(h6, x6, all_day) == fold_rest(h7, x7, all_day)) by {
        if let Some(u) = f.until {
            lemma_until_text(u, all_day);
            lemma_apply_until(h6, u, all_day);
        }
        lemma_step(h6, h7, "UNTIL"@, f.until, x7, all_day);
    }
}


// ---- the rendered text ---------------------------------------------------------

spec fn rule_char(c: char) -> bool {
    is_upper(c) || is_digit(c) || c == '-' || c == ',' || c == ';' || c == '='
}

spec fn rule_text(s: Seq<char>) -> bool {
    forall|k: int| 0 <= k < s.len() ==> rule_char(#[trigger] s[k])
}

proof fn lemma_rule_concat(a: Seq<char>, b: Seq<char>)
    requires
        rule_text(a),
        rule_text(b),
    ensures
        rule_text(a + b),
{
    assert forall|k: int| 0 <= k < (a + b).len() implies rule_char(#[trigger] (a + b)[k]) by {
        if k < a.len() {
            assert((a + b)[k] == a[k]);
        } else {
            assert((a + b)[k] == b[k - a.len()]);
        }
    }
}

proof fn lemma_opt_rule(key: Seq<char>, v: Option<Seq<char>>)
    requires
        all_upper(key),
        v matches Some(t) ==> list_text(t),
    ensures
        rule_text(opt_part(seq![';'] + key + seq!['='], v)),
        opt_part(seq![';'] + key + seq!['='], v).len() == opt_len(key.len() as int + 2, v),
{
    let name = seq![';'] + key + seq!['='];
    assert forall|k: int| 0 <= k < name.len() implies rule_char(#[trigger] name[k]) by {
        if 0 < k <= key.len() {
            assert(name[k] == key[k - 1]);
            assert(is_upper(key[k - 1]));
        }
    }
    if let Some(t) = v {
        assert(rule_text(t));
        lemma_rule_concat(name, t);
    } else {
        assert(opt_part(name, v) =~= Seq::<char>::empty());
    }
}

proof fn lemma_rule_chars(s: Seq<char>)
    requires
        rule_text(s),
    ensures
        !has_ws(s),
        all_ascii(s),
{
    assert forall|k: int| 0 <= k < s.len() implies !is_ws(#[trigger] s[k]) && is_ascii_char(s[k]) by {
        assert(rule_char(s[k]));
    }
}

/// The rendered text: its characters, its first letter, and a bound on its length.
#[verifier::spinoff_prover]
proof fn lemma_render_text(f: RuleFields, days: Option<Seq<char>>, all_day: bool)
    requires
        fields_ok(f, all_day),
        f.freq is Some,
        days matches Some(d) ==> list_text(d),
        opt_len(7, days) <= opt_len(7, f.byday),
    ensures
        rule_text(render(f, days)),
        render(f, days)[0] == 'F',
        render(f, days).len() + 1 <= weight(f),
{
    lemma_keys();
    let fr = f.freq.unwrap();
    lemma_freq_text(fr);
    let iv: Option<Seq<char>> = match f.interval {
        Some(n) => if n != 1 {
            Some(dec(n as nat))
        } else {
            None
        },
        None => None,
    };
    let ct: Option<Seq<char>> = match f.count {
        Some(n) => Some(dec(n as nat)),
        None => None,
    };
    if let Some(n) = f.interval {
        lemma_dec_text(n as nat);
    }
    if let Some(n) = f.count {
        lemma_dec_text(n as nat);
    }
    if let Some(u) = f.until {
        lemma_until_text(u, all_day);
    }
    let a0 = "FREQ"@ + seq!['='] + fr;
    let o1 = opt_part(";INTERVAL="@, iv);
    let o2 = opt_part(";BYMONTH="@, f.bymonth);
    let o3 = opt_part(";BYMONTHDAY="@, f.bymonthday);
    let o4 = opt_part(";BYDAY="@, days);
    let o5 = opt_part(";COUNT="@, ct);
    let o6 = opt_part(";UNTIL="@, f.until);
    let e = Seq::<char>::empty();
    lemma_opt_rule("INTERVAL"@, iv);
    lemma_opt_rule("BYMONTH"@, f.bymonth);
    lemma_opt_rule("BYMONTHDAY"@, f.bymonthday);
    lemma_opt_rule("BYDAY"@, days);
    lemma_opt_rule("COUNT"@, ct);
    lemma_opt_rule("UNTIL"@, f.until);
    assert forall|k: int| 0 <= k < a0.len() implies rule_char(#[trigger] a0[k]) by {
        if k < 4 {
            assert(a0[k] == "FREQ"@[k]);
            assert(is_upper("FREQ"@[k]));
        } else if k > 4 {
            assert(a0[k] == fr[k - 5]);
        }
    }
    assert(rule_text(e));
    lemma_rule_concat(o6, e);
    lemma_rule_concat(o5, o6 + e);
    lemma_rule_concat(o4, o5 + (o6 + e));
    lemma_rule_concat(o3, o4 + (o5 + (o6 + e)));
    lemma_rule_concat(o2, o3 + (o4 + (o5 + (o6 + e))));
    lemma_rule_concat(o1, o2 + (o3 + (o4 + (o5 + (o6 + e)))));
    lemma_rule_concat(a0, o1 + (o2 + (o3 + (o4 + (o5 + (o6 + e))))));
    lemma_render_parts(f, days);
    assert(a0[0] == "FREQ"@[0]);
    reveal_strlit("FREQ");
    if let Some(n) = f.interval {
        if n == 1 {
            assert(o1.len() == 0);
        }
    }
}

/// A canonical rule is canonical already: canonicalizing the text that
/// `canonicalize` returned gives that same text back.
#[verifier::spinoff_prover]
pub proof fn lemma_canonical_rrule_stable(raw: Seq<char>, all_day: bool)
    ensures
        canonical_rrule(raw, all_day) matches Ok(out) ==> canonical_rrule(out, all_day) == Ok::<
            Seq<char>,
            Seq<char>,
        >(out),
{
    let t = trim(raw);
    if canonical_rrule(raw, all_day) is Ok {
        let f = match fold_parts(no_fields(), t, all_day) {
            Ok(f) => f,
            Err(_) => no_fields(),
        };
        lemma_fold_ok(no_fields(), t, all_day);
        assert(weight(no_fields()) == 0);
        let fr = f.freq.unwrap();
        let okd = fr == "MONTHLY"@ || fr == "YEARLY"@;
        let days: Option<Seq<char>> = match f.byday {
            None => None,
            Some(rd) => list_canon(rd, ListKind::Days, okd),
        };
        if let Some(rd) = f.byday {
            lemma_list_canon_stable(rd, ListKind::Days, okd);
            lemma_list_canon_len(rd, ListKind::Days, okd);
        }
        let out = render(f, days);
        assert(canonical_rrule(raw, all_day) == Ok::<Seq<char>, Seq<char>>(out));
        lemma_render_text(f, days, all_day);
        lemma_rule_chars(out);
        lemma_utf8_len_ascii(out);
        lemma_utf8_len_ascii(t);
        assert(trim_start(out) == out);
        assert(trim(out) == out);
        reveal_strlit("RRULE:");
        if out.len() >= 6 {
            assert(upper_seq(out.take(6))[0] == 'F');
        }
        lemma_render_reads_back(f, days, all_day);
        let f2 = RuleFields {
            interval: match f.interval {
                Some(n) => if n != 1 {
                    Some(n)
                } else {
                    None
                },
                None => None,
            },
            byday: days,
            ..f
        };
        assert(render(f2, days) == out);
    }
}


/// The shape of a canonical rule: the text `render` gives of fields with a
/// frequency, with an interval from 2 to 999 or none, and never both a count
/// and an end. Its parts therefore come in the order FREQ, INTERVAL,
/// BYMONTH, BYMONTHDAY, BYDAY, COUNT, UNTIL, each at most once, and none of
/// them is `INTERVAL=1`.
pub open spec fn canonical_shape(c: Seq<char>) -> bool {
    exists|f: RuleFields, days: Option<Seq<char>>|
        #[trigger] render(f, days) == c && (f.freq matches Some(fr) && freq_name(fr) == Some(fr)) && (
        f.interval matches Some(n) ==> 2 <= n <= 999) && !(f.count is Some && f.until is Some)
}

/// A canonical rule starts with `FREQ=` and has the canonical shape.
#[verifier::spinoff_prover]
pub proof fn lemma_canonical_rrule_shape(raw: Seq<char>, all_day: bool)
    ensures
        canonical_rrule(raw, all_day) matches Ok(c) ==> canonical_shape(c) && c.take(5) == "FREQ="@,
{
    let t = trim(raw);
    if canonical_rrule(raw, all_day) is Ok {
        let f = match fold_parts(no_fields(), t, all_day) {
            Ok(f) => f,
            Err(_) => no_fields(),
        };
        lemma_fold_ok(no_fields(), t, all_day);
        let fr = f.freq.unwrap();
        let okd = fr == "MONTHLY"@ || fr == "YEARLY"@;
        let days: Option<Seq<char>> = match f.byday {
            None => None,
            Some(rd) => list_canon(rd, ListKind::Days, okd),
        };
        let out = render(f, days);
        assert(canonical_rrule(raw, all_day) == Ok::<Seq<char>, Seq<char>>(out));
        let f2 = RuleFields {
            interval: match f.interval {
                Some(n) => if n != 1 {
                    Some(n)
                } else {
                    None
                },
                None => None,
            },
            ..f
        };
        assert(render(f2, days) == out);
        reveal_strlit("FREQ=");
        assert(out.take(5) =~= "FREQ="@);
    }
}

} // verus!
