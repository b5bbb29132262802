//! Canonical form of the supported subset of RFC 5545 recurrence rules.
//! Occurrences are never expanded here: a rule is checked and rewritten.

use vstd::prelude::*;
use crate::text::{all_digits, chars_of, dec, digit_run_end, digits_value, eq_upper, find_char, find_char_exec, is_digit, is_digit_exec, is_ws, is_ws_exec, lemma_digit_run_end, lemma_find_char, lemma_small_digits, owned, parse_digits, push_dec, push_range, push_upper, text_eq, text_result, trim, trim_bounds, upper, upper_seq, utf8_len, utf8_len_exceeds};
use crate::time::{days_in_month_exec, valid_date};

verus! {

// ---- the rule, as a function of its text ---------------------------------------

/// What a rule says, part by part, as it is read from left to right.
/// `byday` keeps its raw text: it is checked once `freq` is known.
pub struct RuleFields {
    pub freq: Option<Seq<char>>,
    pub interval: Option<int>,
    pub count: Option<int>,
    pub until: Option<Seq<char>>,
    pub byday: Option<Seq<char>>,
    pub bymonthday: Option<Seq<char>>,
    pub bymonth: Option<Seq<char>>,
}

pub open spec fn no_fields() -> RuleFields {
    RuleFields {
        freq: None,
        interval: None,
        count: None,
        until: None,
        byday: None,
        bymonthday: None,
        bymonth: None,
    }
}

pub open spec fn invalid() -> Seq<char> {
    "invalid rrule"@
}

/// One or more decimal digits (no sign) whose value fits a `u32`.
pub open spec fn plain_u32(s: Seq<char>) -> Option<int> {
    if s.len() > 0 && all_digits(s) && digits_value(s) <= u32::MAX {
        Some(digits_value(s))
    } else {
        None
    }
}

/// The frequency named by `v`, in upper case.
pub open spec fn freq_name(v: Seq<char>) -> Option<Seq<char>> {
    let u = upper_seq(v);
    if u == "DAILY"@ || u == "WEEKLY"@ || u == "MONTHLY"@ || u == "YEARLY"@ {
        Some(u)
    } else {
        None
    }
}

/// `YYYYMMDD`, a real calendar date.
pub open spec fn valid_yyyymmdd(v: Seq<char>) -> bool {
    &&& v.len() == 8
    &&& all_digits(v)
    &&& valid_date(
        digits_value(v.subrange(0, 4)),
        digits_value(v.subrange(4, 6)),
        digits_value(v.subrange(6, 8)),
    )
}

/// `HHMMSS`, a time of day without leap seconds.
pub open spec fn valid_hhmmss(v: Seq<char>) -> bool {
    &&& v.len() == 6
    &&& all_digits(v)
    &&& digits_value(v.subrange(0, 2)) <= 23
    &&& digits_value(v.subrange(2, 4)) <= 59
    &&& digits_value(v.subrange(4, 6)) <= 59
}

/// `UNTIL`: a date for all-day events, a UTC date-time `YYYYMMDDTHHMMSSZ` otherwise.
pub open spec fn until_value(v: Seq<char>, all_day: bool) -> Option<Seq<char>> {
    if all_day {
        if valid_yyyymmdd(v) {
            Some(v)
        } else {
            None
        }
    } else if v.len() == 16 && v[8] == 'T' && v[15] == 'Z' && valid_yyyymmdd(v.subrange(0, 8))
        && valid_hhmmss(v.subrange(9, 15)) {
        Some(v)
    } else {
        None
    }
}

/// The three comma-separated lists a rule can hold.
#[derive(Clone, Copy)]
pub enum ListKind {
    Months,
    MonthDays,
    Days,
}

pub open spec fn month_item(p: Seq<char>) -> Option<Seq<char>> {
    match plain_u32(p) {
        Some(n) => if 1 <= n <= 12 {
            Some(dec(n as nat))
        } else {
            None
        },
        None => None,
    }
}

/// A day of the month: 1 to 31 with an optional `+`, or `-1` for the last day.
pub open spec fn monthday_item(p: Seq<char>) -> Option<Seq<char>> {
    let neg = p.len() > 0 && p[0] == '-';
    let signed = p.len() > 0 && (p[0] == '-' || p[0] == '+');
    let digits = if signed {
        p.drop_first()
    } else {
        p
    };
    match plain_u32(digits) {
        Some(n) => if n < 1 || n > 31 {
            None
        } else if neg {
            if n == 1 {
                Some("-1"@)
            } else {
                None
            }
        } else {
            Some(dec(n as nat))
        },
        None => None,
    }
}

pub open spec fn is_weekday(u: Seq<char>) -> bool {
    u == "MO"@ || u == "TU"@ || u == "WE"@ || u == "TH"@ || u == "FR"@ || u == "SA"@ || u == "SU"@
}

/// A weekday with an optional ordinal: `1` to `5`, or `-1` for the last one.
/// A sign with no digits after it is dropped. Ordinals only where allowed.
pub open spec fn byday_item(p: Seq<char>, ordinals_ok: bool) -> Option<Seq<char>> {
    if p.len() == 0 {
        None
    } else {
        let i0: int = if p[0] == '+' || p[0] == '-' {
            1
        } else {
            0
        };
        let i = digit_run_end(p, i0);
        let day = upper_seq(p.subrange(i, p.len() as int));
        if p.len() - i != 2 || !is_weekday(day) {
            None
        } else if i == i0 {
            Some(day)
        } else {
            let n = digits_value(p.subrange(i0, i));
            let neg = p[0] == '-';
            if n < 1 || n > 5 || (neg && n != 1) || !ordinals_ok {
                None
            } else if neg {
                Some("-1"@ + day)
            } else {
                Some(dec(n as nat) + day)
            }
        }
    }
}

pub open spec fn list_item(kind: ListKind, p: Seq<char>, ordinals_ok: bool) -> Option<Seq<char>> {
    match kind {
        ListKind::Months => month_item(p),
        ListKind::MonthDays => monthday_item(p),
        ListKind::Days => byday_item(p, ordinals_ok),
    }
}

/// A comma-separated list, each item in canonical form; `None` when any item is bad.
pub open spec fn list_canon(s: Seq<char>, kind: ListKind, ordinals_ok: bool) -> Option<
    Seq<char>,
>
    decreases s.len(),
{
    let i = find_char(s, ',');
    match list_item(kind, s.take(i), ordinals_ok) {
        None => None,
        Some(t) => if i >= s.len() {
            Some(t)
        } else {
            proof {
                lemma_find_char(s, ',');
            }
            match list_canon(s.skip(i + 1), kind, ordinals_ok) {
                None => None,
                Some(r) => Some(t + seq![','] + r),
            }
        },
    }
}

/// The fields after one `KEY=value` part, or the error it raises.
pub open spec fn apply_part(f: RuleFields, part: Seq<char>, all_day: bool) -> Result<
    RuleFields,
    Seq<char>,
> {
    let e = find_char(part, '=');
    let key = upper_seq(part.take(e));
    let value = part.skip(e + 1);
    if part.len() == 0 || e >= part.len() || value.len() == 0 {
        Err(invalid())
    } else if key == "FREQ"@ {
        match freq_name(value) {
            Some(n) if f.freq is None => Ok(RuleFields { freq: Some(n), ..f }),
            _ => Err(invalid()),
        }
    } else if key == "INTERVAL"@ {
        match plain_u32(value) {
            Some(n) if f.interval is None && 1 <= n <= 999 => Ok(
                RuleFields { interval: Some(n), ..f },
            ),
            _ => Err(invalid()),
        }
    } else if key == "COUNT"@ {
        match plain_u32(value) {
            Some(n) if f.count is None && f.until is None && 1 <= n <= 366 => Ok(
                RuleFields { count: Some(n), ..f },
            ),
            _ => Err(invalid()),
        }
    } else if key == "UNTIL"@ {
        match until_value(value, all_day) {
            Some(u) if f.until is None && f.count is None => Ok(RuleFields { until: Some(u), ..f }),
            _ => Err(invalid()),
        }
    } else if key == "BYDAY"@ {
        if f.byday is None {
            Ok(RuleFields { byday: Some(value), ..f })
        } else {
            Err(invalid())
        }
    } else if key == "BYMONTHDAY"@ {
        match list_canon(value, ListKind::MonthDays, false) {
            Some(d) if f.bymonthday is None => Ok(RuleFields { bymonthday: Some(d), ..f }),
            _ => Err(invalid()),
        }
    } else if key == "BYMONTH"@ {
        match list_canon(value, ListKind::Months, false) {
            Some(m) if f.bymonth is None => Ok(RuleFields { bymonth: Some(m), ..f }),
            _ => Err(invalid()),
        }
    } else {
        Err("invalid rrule: "@ + key)
    }
}

/// The `;`-separated parts of `s`, applied from the left; the first error stops.
pub open spec fn fold_parts(f: RuleFields, s: Seq<char>, all_day: bool) -> Result<
    RuleFields,
    Seq<char>,
>
    decreases s.len(),
{
    let i = find_char(s, ';');
    match apply_part(f, s.take(i), all_day) {
        Err(e) => Err(e),
        Ok(g) => if i >= s.len() {
            Ok(g)
        } else {
            proof {
                lemma_find_char(s, ';');
            }
            fold_parts(g, s.skip(i + 1), all_day)
        },
    }
}

pub open spec fn opt_part(name: Seq<char>, v: Option<Seq<char>>) -> Seq<char> {
    match v {
        Some(t) => name + t,
        None => Seq::empty(),
    }
}

/// The canonical text: parts in a fixed order, `INTERVAL=1` left out.
pub open spec fn render(f: RuleFields, days: Option<Seq<char>>) -> Seq<char> {
    "FREQ="@ + f.freq.unwrap() + opt_part(
        ";INTERVAL="@,
        match f.interval {
            Some(n) => if n != 1 {
                Some(dec(n as nat))
            } else {
                None
            },
            None => None,
        },
    ) + opt_part(";BYMONTH="@, f.bymonth) + opt_part(";BYMONTHDAY="@, f.bymonthday) + opt_part(
        ";BYDAY="@,
        days,
    ) + opt_part(
        ";COUNT="@,
        match f.count {
            Some(n) => Some(dec(n as nat)),
            None => None,
        },
    ) + opt_part(";UNTIL="@, f.until)
}

pub open spec fn has_ws(s: Seq<char>) -> bool {
    exists|k: int| 0 <= k < s.len() && is_ws(#[trigger] s[k])
}

/// `canonicalize(raw, all_day)`: the canonical rule or the error message.
pub open spec fn canonical_rrule(raw: Seq<char>, all_day: bool) -> Result<Seq<char>, Seq<char>> {
    let t = trim(raw);
    if t.len() == 0 {
        Err("rrule is empty"@)
    } else if utf8_len(t) > 400 {
        Err("rrule is too long"@)
    } else if t.len() >= 6 && upper_seq(t.take(6)) == "RRULE:"@ {
        Err("rrule must not include the RRULE: prefix"@)
    } else if has_ws(t) {
        Err(invalid())
    } else {
        match fold_parts(no_fields(), t, all_day) {
            Err(e) => Err(e),
            Ok(f) => match f.freq {
                None => Err("rrule requires FREQ"@),
                Some(fr) => match f.byday {
                    None => Ok(render(f, None)),
                    Some(raw_days) => match list_canon(
                        raw_days,
                        ListKind::Days,
                        fr == "MONTHLY"@ || fr == "YEARLY"@,
                    ) {
                        None => Err(invalid()),
                        Some(d) => Ok(render(f, Some(d))),
                    },
                },
            },
        }
    }
}


// ---- reading the parts -----------------------------------------------------------

fn plain_u32_at(s: &[char], lo: usize, hi: usize) -> (r: Option<u32>)
    requires
        lo <= hi <= s@.len(),
    ensures
        r matches Some(n) ==> plain_u32(s@.subrange(lo as int, hi as int)) == Some(n as int),
        r is None ==> plain_u32(s@.subrange(lo as int, hi as int)) is None,
{
    match parse_digits(s, lo, hi, 4294967295u64) {
        Some(v) => Some(v as u32),
        None => None,
    }
}

/// The upper-case frequency named by `s[lo..hi]`, if it names one.
fn freq_at(s: &[char], lo: usize, hi: usize) -> (r: Option<String>)
    requires
        lo <= hi <= s@.len(),
    ensures
        r matches Some(n) ==> freq_name(s@.subrange(lo as int, hi as int)) == Some(n@),
        r is None ==> freq_name(s@.subrange(lo as int, hi as int)) is None,
{
    if eq_upper(s, lo, hi, "DAILY") {
        Some(owned("DAILY"))
    } else if eq_upper(s, lo, hi, "WEEKLY") {
        Some(owned("WEEKLY"))
    } else if eq_upper(s, lo, hi, "MONTHLY") {
        Some(owned("MONTHLY"))
    } else if eq_upper(s, lo, hi, "YEARLY") {
        Some(owned("YEARLY"))
    } else {
        None
    }
}

proof fn lemma_digits_split(s: Seq<char>, lo: int, mid: int, hi: int)
    requires
        0 <= lo <= mid <= hi <= s.len(),
    ensures
        all_digits(s.subrange(lo, hi)) <==> (all_digits(s.subrange(lo, mid)) && all_digits(
            s.subrange(mid, hi),
        )),
{
    let a = s.subrange(lo, hi);
    if all_digits(s.subrange(lo, mid)) && all_digits(s.subrange(mid, hi)) {
        assert forall|k: int| 0 <= k < a.len() implies is_digit(#[trigger] a[k]) by {
            if k < mid - lo {
                assert(a[k] == s.subrange(lo, mid)[k]);
            } else {
                assert(a[k] == s.subrange(mid, hi)[k - (mid - lo)]);
            }
        }
    }
    if all_digits(a) {
        assert forall|k: int| 0 <= k < mid - lo implies is_digit(#[trigger] s.subrange(lo, mid)[k]) by {
            assert(a[k] == s.subrange(lo, mid)[k]);
        }
        assert forall|k: int| 0 <= k < hi - mid implies is_digit(#[trigger] s.subrange(mid, hi)[k]) by {
            assert(a[k + (mid - lo)] == s.subrange(mid, hi)[k]);
        }
    }
}

fn valid_yyyymmdd_at(s: &[char], lo: usize) -> (b: bool)
    requires
        lo + 8 <= s@.len(),
    ensures
        b == valid_yyyymmdd(s@.subrange(lo as int, lo + 8)),
{
    let ghost v = s@.subrange(lo as int, lo + 8);
    let n = s.len();
    assert(lo + 8 <= n);
    proof {
        assert(v.subrange(0, 4) =~= s@.subrange(lo as int, lo + 4));
        assert(v.subrange(4, 6) =~= s@.subrange(lo + 4, lo + 6));
        assert(v.subrange(6, 8) =~= s@.subrange(lo + 6, lo + 8));
        lemma_digits_split(s@, lo as int, lo + 4, lo + 8);
        lemma_digits_split(s@, lo + 4, lo + 6, lo + 8);
        if all_digits(v.subrange(0, 4)) {
            lemma_small_digits(v.subrange(0, 4));
        }
        if all_digits(v.subrange(4, 6)) {
            lemma_small_digits(v.subrange(4, 6));
        }
        if all_digits(v.subrange(6, 8)) {
            lemma_small_digits(v.subrange(6, 8));
        }
    }
    let y = parse_digits(s, lo, lo + 4, 9999);
    let m = parse_digits(s, lo + 4, lo + 6, 99);
    let d = parse_digits(s, lo + 6, lo + 8, 99);
    match (y, m, d) {
        (Some(y), Some(m), Some(d)) => {
            let dim = days_in_month_exec(y as i64, m as i64);
            1 <= m && m <= 12 && 1 <= d && (d as i64) <= dim
        },
        _ => false,
    }
}

fn valid_hhmmss_at(s: &[char], lo: usize) -> (b: bool)
    requires
        lo + 6 <= s@.len(),
    ensures
        b == valid_hhmmss(s@.subrange(lo as int, lo + 6)),
{
    let ghost v = s@.subrange(lo as int, lo + 6);
    let n = s.len();
    assert(lo + 6 <= n);
    proof {
        assert(v.subrange(0, 2) =~= s@.subrange(lo as int, lo + 2));
        assert(v.subrange(2, 4) =~= s@.subrange(lo + 2, lo + 4));
        assert(v.subrange(4, 6) =~= s@.subrange(lo + 4, lo + 6));
        lemma_digits_split(s@, lo as int, lo + 2, lo + 6);
        lemma_digits_split(s@, lo + 2, lo + 4, lo + 6);
        if all_digits(v.subrange(0, 2)) {
            lemma_small_digits(v.subrange(0, 2));
        }
        if all_digits(v.subrange(2, 4)) {
            lemma_small_digits(v.subrange(2, 4));
        }
        if all_digits(v.subrange(4, 6)) {
            lemma_small_digits(v.subrange(4, 6));
        }
    }
    let hh = parse_digits(s, lo, lo + 2, 99);
    let mm = parse_digits(s, lo + 2, lo + 4, 99);
    let ss = parse_digits(s, lo + 4, lo + 6, 99);
    match (hh, mm, ss) {
        (Some(hh), Some(mm), Some(ss)) => hh <= 23 && mm <= 59 && ss <= 59,
        _ => false,
    }
}

fn until_ok_at(s: &[char], lo: usize, hi: usize, all_day: bool) -> (b: bool)
    requires
        lo <= hi <= s@.len(),
    ensures
        b == (until_value(s@.subrange(lo as int, hi as int), all_day) is Some),
{
    let ghost v = s@.subrange(lo as int, hi as int);
    if all_day {
        if hi - lo != 8 {
            return false;
        }
        return valid_yyyymmdd_at(s, lo);
    }
    if hi - lo != 16 || s[lo + 8] != 'T' || s[lo + 15] != 'Z' {
        return false;
    }
    assert(v.subrange(0, 8) =~= s@.subrange(lo as int, lo + 8));
    assert(v.subrange(9, 15) =~= s@.subrange(lo + 9, lo + 15));
    valid_yyyymmdd_at(s, lo) && valid_hhmmss_at(s, lo + 9)
}

fn push_month_item(out: &mut String, s: &[char], lo: usize, hi: usize) -> (b: bool)
    requires
        lo <= hi <= s@.len(),
    ensures
        b == (month_item(s@.subrange(lo as int, hi as int)) is Some),
        b ==> final(out)@ == old(out)@ + month_item(s@.subrange(lo as int, hi as int)).unwrap(),
{
    match plain_u32_at(s, lo, hi) {
        Some(n) => {
            if n < 1 || n > 12 {
                return false;
            }
            push_dec(out, n as u64);
            true
        },
        None => false,
    }
}

fn push_monthday_item(out: &mut String, s: &[char], lo: usize, hi: usize) -> (b: bool)
    requires
        lo <= hi <= s@.len(),
    ensures
        b == (monthday_item(s@.subrange(lo as int, hi as int)) is Some),
        b ==> final(out)@ == old(out)@ + monthday_item(s@.subrange(lo as int, hi as int)).unwrap(),
{
    let ghost p = s@.subrange(lo as int, hi as int);
    let neg = lo < hi && s[lo] == '-';
    let signed = lo < hi && (s[lo] == '-' || s[lo] == '+');
    let start = if signed {
        lo + 1
    } else {
        lo
    };
    assert(signed ==> p.drop_first() =~= s@.subrange(start as int, hi as int));
    assert(!signed ==> p =~= s@.subrange(start as int, hi as int));
    match plain_u32_at(s, start, hi) {
        Some(n) => {
            if n < 1 || n > 31 {
                return false;
            }
            if neg {
                if n != 1 {
                    return false;
                }
                out.push_str("-1");
            } else {
                push_dec(out, n as u64);
            }
            true
        },
        None => false,
    }
}

fn weekday_at(s: &[char], lo: usize, hi: usize) -> (b: bool)
    requires
        lo <= hi <= s@.len(),
    ensures
        b == is_weekday(upper_seq(s@.subrange(lo as int, hi as int))),
{
    eq_upper(s, lo, hi, "MO") || eq_upper(s, lo, hi, "TU") || eq_upper(s, lo, hi, "WE")
        || eq_upper(s, lo, hi, "TH") || eq_upper(s, lo, hi, "FR") || eq_upper(s, lo, hi, "SA")
        || eq_upper(s, lo, hi, "SU")
}

fn push_byday_item(out: &mut String, s: &[char], lo: usize, hi: usize, ordinals_ok: bool) -> (b:
    bool)
    requires
        lo <= hi <= s@.len(),
    ensures
        b == (byday_item(s@.subrange(lo as int, hi as int), ordinals_ok) is Some),
        b ==> final(out)@ == old(out)@ + byday_item(
            s@.subrange(lo as int, hi as int),
            ordinals_ok,
        ).unwrap(),
{
    let ghost p = s@.subrange(lo as int, hi as int);
    if lo == hi {
        return false;
    }
    let neg = s[lo] == '-';
    let i0 = if s[lo] == '+' || s[lo] == '-' {
        lo + 1
    } else {
        lo
    };
    let mut i = i0;
    while i < hi && is_digit_exec(s[i])
        invariant
            lo < i0 <= i <= hi || lo == i0 <= i <= hi,
            hi <= s@.len(),
            i0 <= lo + 1,
            p == s@.subrange(lo as int, hi as int),
            digit_run_end(p, i - lo) == digit_run_end(p, i0 - lo),
        decreases hi - i,
    {
        assert(p[i - lo] == s@[i as int]);
        i = i + 1;
    }
    proof {
        if i < hi {
            assert(p[i - lo] == s@[i as int]);
        }
        assert(digit_run_end(p, i0 - lo) == i - lo);
        assert(p.subrange(i - lo, p.len() as int) =~= s@.subrange(i as int, hi as int));
        assert(p.subrange(i0 - lo, i - lo) =~= s@.subrange(i0 as int, i as int));
    }
    if hi - i != 2 || !weekday_at(s, i, hi) {
        return false;
    }
    if i == i0 {
        push_upper(out, s, i, hi);
        return true;
    }
    let n = match parse_digits(s, i0, i, 5) {
        Some(n) => n,
        None => {
            proof {
                lemma_digit_run_end(p, i0 - lo);
                assert(all_digits(s@.subrange(i0 as int, i as int)));
            }
            return false;
        },
    };
    proof {
        lemma_digit_run_end(p, i0 - lo);
    }
    if n < 1 || (neg && n != 1) || !ordinals_ok {
        return false;
    }
    if neg {
        out.push_str("-1");
    } else {
        push_dec(out, n);
    }
    push_upper(out, s, i, hi);
    true
}

pub open spec fn prefixed(a: Seq<char>, o: Option<Seq<char>>) -> Option<Seq<char>> {
    match o {
        Some(r) => Some(a + r),
        None => None,
    }
}

/// Append the canonical form of the list in `s[lo..hi]`.
fn push_list(out: &mut String, s: &[char], lo: usize, hi: usize, kind: ListKind, ordinals_ok: bool) -> (b: bool)
    requires
        lo <= hi <= s@.len(),
    ensures
        b == (list_canon(s@.subrange(lo as int, hi as int), kind, ordinals_ok) is Some),
        b ==> final(out)@ == old(out)@ + list_canon(
            s@.subrange(lo as int, hi as int),
            kind,
            ordinals_ok,
        ).unwrap(),
{
    let ghost whole = s@.subrange(lo as int, hi as int);
    let ghost base = out@;
    let ghost mut acc: Seq<char> = Seq::empty();
    let mut start = lo;
    assert(s@.subrange(start as int, hi as int) == whole);
    assert(acc + whole =~= whole);
    loop
        invariant
            lo <= start <= hi <= s@.len(),
            whole == s@.subrange(lo as int, hi as int),
            base == old(out)@,
            out@ == base + acc,
            list_canon(whole, kind, ordinals_ok) == prefixed(
                acc,
                list_canon(s@.subrange(start as int, hi as int), kind, ordinals_ok),
            ),
        decreases hi - start,
    {
        let ghost rest = s@.subrange(start as int, hi as int);
        let j = find_char_exec(s, start, hi, ',');
        proof {
            lemma_find_char(rest, ',');
            assert(rest.take(j - start) =~= s@.subrange(start as int, j as int));
            if j < hi {
                assert(rest.skip(j - start + 1) =~= s@.subrange(j + 1, hi as int));
            }
        }
        let ghost before = out@;
        let ok = match kind {
            ListKind::Months => push_month_item(out, s, start, j),
            ListKind::MonthDays => push_monthday_item(out, s, start, j),
            ListKind::Days => push_byday_item(out, s, start, j, ordinals_ok),
        };
        if !ok {
            return false;
        }
        let ghost t = list_item(kind, s@.subrange(start as int, j as int), ordinals_ok).unwrap();
        if j == hi {
            assert(list_item(kind, rest.take(j - start), ordinals_ok) == Some(t));
            assert(list_canon(rest, kind, ordinals_ok) == Some(t));
            assert(out@ =~= base + (acc + t));
            return true;
        }
        out.push(',');
        proof {
            acc = acc + t + seq![','];
            assert(out@ =~= base + acc);
            match list_canon(s@.subrange(j + 1, hi as int), kind, ordinals_ok) {
                Some(r) => {
                    assert(acc + r =~= (acc.subrange(0, acc.len() - t.len() - 1)) + (t + seq![','] + r));
                },
                None => {},
            }
        }
        start = j + 1;
    }
}


// ---- the whole rule ----------------------------------------------------------------

struct Fields {
    freq: Option<String>,
    interval: Option<u32>,
    count: Option<u32>,
    until: Option<String>,
    byday: Option<String>,
    bymonthday: Option<String>,
    bymonth: Option<String>,
}

spec fn text_opt(o: Option<String>) -> Option<Seq<char>> {
    match o {
        Some(t) => Some(t@),
        None => None,
    }
}

spec fn num_opt(o: Option<u32>) -> Option<int> {
    match o {
        Some(n) => Some(n as int),
        None => None,
    }
}

impl View for Fields {
    type V = RuleFields;

    closed spec fn view(&self) -> RuleFields {
        RuleFields {
            freq: text_opt(self.freq),
            interval: num_opt(self.interval),
            count: num_opt(self.count),
            until: text_opt(self.until),
            byday: text_opt(self.byday),
            bymonthday: text_opt(self.bymonthday),
            bymonth: text_opt(self.bymonth),
        }
    }
}

fn invalid_error() -> (e: String)
    ensures
        e@ == invalid(),
{
    owned("invalid rrule")
}

/// Apply the part `s[lo..hi]` to `f`.
fn apply_part_exec(f: &mut Fields, s: &[char], lo: usize, hi: usize, all_day: bool) -> (r: Result<(), String>)
    requires
        lo <= hi <= s@.len(),
    ensures
        r is Ok ==> apply_part(old(f)@, s@.subrange(lo as int, hi as int), all_day) == Ok::<
            RuleFields,
            Seq<char>,
        >(final(f)@),
        r matches Err(e) ==> apply_part(old(f)@, s@.subrange(lo as int, hi as int), all_day)
            == Err::<RuleFields, Seq<char>>(e@),
{
    let ghost part = s@.subrange(lo as int, hi as int);
    if lo == hi {
        return Err(invalid_error());
    }
    let e = find_char_exec(s, lo, hi, '=');
    if e == hi || e + 1 == hi {
        return Err(invalid_error());
    }
    proof {
        assert(part.take(e - lo) =~= s@.subrange(lo as int, e as int));
        assert(part.skip(e - lo + 1) =~= s@.subrange(e + 1, hi as int));
    }
    let v = e + 1;
    if eq_upper(s, lo, e, "FREQ") {
        match freq_at(s, v, hi) {
            Some(n) => {
                if f.freq.is_some() {
                    return Err(invalid_error());
                }
                f.freq = Some(n);
                Ok(())
            },
            None => Err(invalid_error()),
        }
    } else if eq_upper(s, lo, e, "INTERVAL") {
        match plain_u32_at(s, v, hi) {
            Some(n) => {
                if f.interval.is_some() || n < 1 || n > 999 {
                    return Err(invalid_error());
                }
                f.interval = Some(n);
                Ok(())
            },
            None => Err(invalid_error()),
        }
    } else if eq_upper(s, lo, e, "COUNT") {
        match plain_u32_at(s, v, hi) {
            Some(n) => {
                if f.count.is_some() || f.until.is_some() || n < 1 || n > 366 {
                    return Err(invalid_error());
                }
                f.count = Some(n);
                Ok(())
            },
            None => Err(invalid_error()),
        }
    } else if eq_upper(s, lo, e, "UNTIL") {
        if !until_ok_at(s, v, hi, all_day) || f.until.is_some() || f.count.is_some() {
            return Err(invalid_error());
        }
        let mut u = String::new();
        push_range(&mut u, s, v, hi);
        f.until = Some(u);
        Ok(())
    } else if eq_upper(s, lo, e, "BYDAY") {
        if f.byday.is_some() {
            return Err(invalid_error());
        }
        let mut d = String::new();
        push_range(&mut d, s, v, hi);
        f.byday = Some(d);
        Ok(())
    } else if eq_upper(s, lo, e, "BYMONTHDAY") {
        let mut d = String::new();
        if !push_list(&mut d, s, v, hi, ListKind::MonthDays, false) || f.bymonthday.is_some() {
            return Err(invalid_error());
        }
        f.bymonthday = Some(d);
        Ok(())
    } else if eq_upper(s, lo, e, "BYMONTH") {
        let mut m = String::new();
        if !push_list(&mut m, s, v, hi, ListKind::Months, false) || f.bymonth.is_some() {
            return Err(invalid_error());
        }
        f.bymonth = Some(m);
        Ok(())
    } else {
        let mut msg = owned("invalid rrule: ");
        push_upper(&mut msg, s, lo, e);
        Err(msg)
    }
}

fn push_opt_text(out: &mut String, name: &str, v: &Option<String>)
    ensures
        final(out)@ == old(out)@ + opt_part(name@, text_opt(*v)),
{
    match v {
        Some(t) => {
            out.push_str(name);
            out.push_str(t.as_str());
        },
        None => {},
    }
    assert(final(out)@ =~= old(out)@ + opt_part(name@, text_opt(*v)));
}

/// Canonicalize a rule of the supported subset of RFC 5545 `RRULE`.
#[verifier::rlimit(60)]
#[verifier::spinoff_prover]
pub fn canonicalize(raw: &str, all_day: bool) -> (r: Result<String, String>)
    ensures
        text_result(r) == canonical_rrule(raw@, all_day),
{
    let v = chars_of(raw);
    let (lo, hi) = trim_bounds(v.as_slice());
    let ghost t = v@.subrange(lo as int, hi as int);
    if lo == hi {
        return Err(owned("rrule is empty"));
    }
    if utf8_len_exceeds(v.as_slice(), lo, hi, 400) {
        return Err(owned("rrule is too long"));
    }
    if hi - lo >= 6 && eq_upper(v.as_slice(), lo, lo + 6, "RRULE:") {
        assert(t.take(6) =~= v@.subrange(lo as int, lo + 6));
        return Err(owned("rrule must not include the RRULE: prefix"));
    }
    assert(hi - lo >= 6 ==> t.take(6) =~= v@.subrange(lo as int, lo + 6));
    let mut k = lo;
    while k < hi
        invariant
            lo <= k <= hi <= v@.len(),
            t == v@.subrange(lo as int, hi as int),
            t == trim(raw@),
            t.len() > 0,
            utf8_len(t) <= 400,
            !(t.len() >= 6 && upper_seq(t.take(6)) == "RRULE:"@),
            forall|q: int| 0 <= q < k - lo ==> !is_ws(#[trigger] t[q]),
        decreases hi - k,
    {
        if is_ws_exec(v[k]) {
            assert(is_ws(t[k - lo]));
            return Err(invalid_error());
        }
        k = k + 1;
    }
    let mut f = Fields {
        freq: None,
        interval: None,
        count: None,
        until: None,
        byday: None,
        bymonthday: None,
        bymonth: None,
    };
    assert(f@ == no_fields());
    let mut start = lo;
    assert(!has_ws(t));
    loop
        invariant_except_break
            fold_parts(no_fields(), t, all_day) == fold_parts(
                f@,
                v@.subrange(start as int, hi as int),
                all_day,
            ),
        invariant
            lo <= start <= hi <= v@.len(),
            t == v@.subrange(lo as int, hi as int),
            t == trim(raw@),
            t.len() > 0,
            utf8_len(t) <= 400,
            !(t.len() >= 6 && upper_seq(t.take(6)) == "RRULE:"@),
            !has_ws(t),
        ensures
            fold_parts(no_fields(), t, all_day) == Ok::<RuleFields, Seq<char>>(f@),
        decreases hi - start,
    {
        let ghost rest = v@.subrange(start as int, hi as int);
        let ghost before = f@;
        let j = find_char_exec(v.as_slice(), start, hi, ';');
        proof {
            lemma_find_char(rest, ';');
            assert(rest.take(j - start) =~= v@.subrange(start as int, j as int));
            if j < hi {
                assert(rest.skip(j - start + 1) =~= v@.subrange(j + 1, hi as int));
            }
        }
        match apply_part_exec(&mut f, v.as_slice(), start, j, all_day) {
            Err(e) => {
                return Err(e);
            },
            Ok(()) => {},
        }
        if j == hi {
            break ;
        }
        start = j + 1;
    }
    let fr = match &f.freq {
        Some(fr) => fr,
        None => {
            return Err(owned("rrule requires FREQ"));
        },
    };
    let fc = chars_of(fr.as_str());
    let ordinals_ok = text_eq(fc.as_slice(), 0, fc.len(), "MONTHLY") || text_eq(
        fc.as_slice(),
        0,
        fc.len(),
        "YEARLY",
    );
    assert(fc@.subrange(0, fc@.len() as int) =~= fc@);
    let mut days: Option<String> = None;
    match &f.byday {
        Some(raw_days) => {
            let dc = chars_of(raw_days.as_str());
            let mut d = String::new();
            if !push_list(&mut d, dc.as_slice(), 0, dc.len(), ListKind::Days, ordinals_ok) {
                assert(dc@.subrange(0, dc@.len() as int) =~= dc@);
                return Err(invalid_error());
            }
            assert(dc@.subrange(0, dc@.len() as int) =~= dc@);
            days = Some(d);
        },
        None => {},
    }
    let mut out = owned("FREQ=");
    out.push_str(fr.as_str());
    let ghost p0 = out@;
    match f.interval {
        Some(n) => {
            if n != 1 {
                out.push_str(";INTERVAL=");
                push_dec(&mut out, n as u64);
            }
        },
        None => {},
    }
    let ghost p1 = out@;
    push_opt_text(&mut out, ";BYMONTH=", &f.bymonth);
    push_opt_text(&mut out, ";BYMONTHDAY=", &f.bymonthday);
    push_opt_text(&mut out, ";BYDAY=", &days);
    let ghost p2 = out@;
    match f.count {
        Some(n) => {
            out.push_str(";COUNT=");
            push_dec(&mut out, n as u64);
        },
        None => {},
    }
    push_opt_text(&mut out, ";UNTIL=", &f.until);
    proof {
        let g = f@;
        assert(p1 =~= p0 + opt_part(
            ";INTERVAL="@,
            match g.interval {
                Some(n) => if n != 1 {
                    Some(dec(n as nat))
                } else {
                    None
                },
                None => None,
            },
        ));
        assert(out@ =~= render(g, text_opt(days)));
    }
    Ok(out)
}

} // verus!
