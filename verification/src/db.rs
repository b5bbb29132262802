//! Calendars and events: the rows, the rules for writing them, and their JSON.
//!
//! The SQLite storage itself lives with the program; what a write stores is
//! decided here, from the request and the rows it touches.

use vstd::prelude::*;
use crate::tz::{allowed, allowed_names, check, lemma_allowed_nonempty, unsupported_message};
use crate::rrule::{canonical_rrule, canonicalize};
use crate::rrule_stable::lemma_canonical_rrule_stable;
use crate::time::{add_days, format_utc_millis, four_digit_year, instant_millis, is_ymd, lemma_utc_text_roundtrip, next_date, parse_rfc3339_millis, parse_ymd_at, rfc3339_millis, utc_text, ymd_of, ymd_text};
use crate::json::{Json, Value, entry_bool, entry_get, entry_has, entry_str, get_bool, get_str, insert_entry, json_entries, json_items, json_of, key_lt, member_views, obj_build, obj_get, obj_insert, show, str_lt};
use crate::text::{all_ascii, is_ascii_char, all_ascii_exec, all_digits, chars_of, concat, dec_pad, digit_run_end, digit_run_end_exec, digits_value, is_alnum, is_alnum_exec, lemma_pad2, lemma_short_parse_bounds, lemma_small_digits, owned, parse_digits, parse_u32_at, parse_u32_spec, push_dec_pad, push_line, push_range, str_eq, str_texts, texts, trim, trimmed, utf8_len, utf8_longer_than};

verus! {

#[derive(Debug, Clone)]
pub struct CalendarRow {
    pub id: String,
    pub feed_token: String,
    /// SHA-256 hex of the write key. The key itself is never kept.
    pub key_hash: String,
    pub name: String,
    pub created_at: String,
    /// `seal` stores ciphertext. `plain` is the readable feed.
    pub feed: String,
}

#[derive(Debug, Clone)]
pub struct EventOverride {
    pub recurrence_id: String,
    pub summary: String,
    pub description: String,
    pub location: String,
    pub dtstart: String,
    pub dtend: String,
    pub all_day: bool,
    pub transparent: bool,
    pub sequence: i64,
    pub updated_at: String,
}

#[derive(Debug, Clone)]
pub struct EventRow {
    pub uid: String,
    pub summary: String,
    pub description: String,
    pub location: String,
    pub dtstart: String,
    pub dtend: String,
    pub all_day: bool,
    pub transparent: bool,
    pub sequence: i64,
    pub created_at: String,
    pub updated_at: String,
    pub rrule: String,
    pub tzid: String,
    pub seal: String,
    pub exdates: Vec<String>,
    pub overrides: Vec<EventOverride>,
}

#[derive(Debug, Clone)]
pub struct EventInput {
    pub uid: Option<String>,
    pub summary: String,
    pub description: Option<String>,
    pub location: Option<String>,
    pub start: String,
    pub end: Option<String>,
    pub all_day: Option<bool>,
    pub transparent: Option<bool>,
    pub rrule: Option<String>,
    pub time_zone: Option<String>,
}

#[derive(Debug, Clone)]
pub struct EventPatch {
    pub summary: Option<String>,
    pub description: Option<String>,
    pub location: Option<String>,
    pub start: Option<String>,
    pub end: Option<String>,
    pub all_day: Option<bool>,
    pub transparent: Option<bool>,
    pub rrule: Option<String>,
    pub time_zone: Option<String>,
}

#[derive(Debug, Clone)]
pub struct OverrideInput {
    pub recurrence_id: String,
    pub summary: Option<String>,
    pub description: Option<String>,
    pub location: Option<String>,
    pub start: String,
    pub end: Option<String>,
    pub transparent: Option<bool>,
}

/// A stored exception of a series: an excluded date, or an override.
#[derive(Debug)]
pub struct ExceptionRow {
    pub uid: String,
    pub recurrence_id: String,
    pub excluded: bool,
    pub summary: String,
    pub description: String,
    pub location: String,
    pub dtstart: String,
    pub dtend: String,
    pub all_day: bool,
    pub transparent: bool,
    pub sequence: i64,
    pub updated_at: String,
}

pub open spec fn uid_char(c: char) -> bool {
    is_alnum(c) || c == '.' || c == '_' || c == '@' || c == '-'
}

/// 1 to 200 chars: letters, digits, `.`, `_`, `@`, `-`.
pub open spec fn valid_uid(v: Seq<char>) -> bool {
    0 < v.len() <= 200 && forall|k: int| 0 <= k < v.len() ==> uid_char(#[trigger] v[k])
}

pub open spec fn uid_message() -> Seq<char> {
    "uid must be 1-200 chars: letters, digits, . _ @ -"@
}

pub fn is_uid(value: &str) -> (b: bool)
    ensures
        b == valid_uid(value@),
{
    let v = chars_of(value);
    if v.len() == 0 || v.len() > 200 {
        return false;
    }
    let mut i: usize = 0;
    while i < v.len()
        invariant
            i <= v@.len(),
            v@ == value@,
            forall|k: int| 0 <= k < i ==> uid_char(#[trigger] v@[k]),
        decreases v@.len() - i,
    {
        let c = v[i];
        if !(is_alnum_exec(c) || c == '.' || c == '_' || c == '@' || c == '-') {
            return false;
        }
        i = i + 1;
    }
    true
}

/// `Ok` for a valid uid, else the uid error.
pub fn check_uid(uid: &str) -> (r: Result<(), String>)
    ensures
        r is Ok <==> valid_uid(uid@),
        r matches Err(e) ==> e@ == uid_message(),
{
    if is_uid(uid) {
        Ok(())
    } else {
        Err(owned("uid must be 1-200 chars: letters, digits, . _ @ -"))
    }
}

/// `s` with each `'` doubled.
pub open spec fn double_quotes(s: Seq<char>) -> Seq<char>
    decreases s.len(),
{
    if s.len() == 0 {
        Seq::empty()
    } else {
        double_quotes(s.drop_last()) + if s.last() == '\'' {
            seq!['\'', '\'']
        } else {
            seq![s.last()]
        }
    }
}

/// Quote a SQL string literal. Used for the export target path and the
/// passphrase. The statement is not logged.
pub fn sql_literal(value: &str) -> (out: String)
    ensures
        out@ == seq!['\''] + double_quotes(value@) + seq!['\''],
{
    let v = chars_of(value);
    let mut out = String::new();
    out.push('\'');
    let mut i: usize = 0;
    while i < v.len()
        invariant
            i <= v@.len(),
            v@ == value@,
            out@ == seq!['\''] + double_quotes(v@.take(i as int)),
        decreases v@.len() - i,
    {
        if v[i] == '\'' {
            out.push('\'');
            out.push('\'');
        } else {
            out.push(v[i]);
        }
        proof {
            assert(v@.take(i + 1).drop_last() =~= v@.take(i as int));
        }
        i = i + 1;
        assert(out@ =~= seq!['\''] + double_quotes(v@.take(i as int)));
    }
    out.push('\'');
    assert(v@.take(i as int) =~= v@);
    out
}

/// The exceptions of `uid` among `rows`, in order: the recurrence ids of the
/// excluded dates, and the rows of the overrides.
pub open spec fn exdates_of(uid: Seq<char>, rows: Seq<ExceptionRow>) -> Seq<Seq<char>>
    decreases rows.len(),
{
    if rows.len() == 0 {
        Seq::empty()
    } else {
        let r = rows.last();
        exdates_of(uid, rows.drop_last()) + if r.uid@ == uid && r.excluded {
            seq![r.recurrence_id@]
        } else {
            Seq::empty()
        }
    }
}

pub open spec fn override_of(r: ExceptionRow) -> EventOverride {
    EventOverride {
        recurrence_id: r.recurrence_id,
        summary: r.summary,
        description: r.description,
        location: r.location,
        dtstart: r.dtstart,
        dtend: r.dtend,
        all_day: r.all_day,
        transparent: r.transparent,
        sequence: r.sequence,
        updated_at: r.updated_at,
    }
}

pub open spec fn overrides_of(uid: Seq<char>, rows: Seq<ExceptionRow>) -> Seq<EventOverride>
    decreases rows.len(),
{
    if rows.len() == 0 {
        Seq::empty()
    } else {
        let r = rows.last();
        overrides_of(uid, rows.drop_last()) + if r.uid@ == uid && !r.excluded {
            seq![override_of(r)]
        } else {
            Seq::empty()
        }
    }
}

/// Two rows with the same texts, flags and numbers.
pub open spec fn same_override(a: EventOverride, b: EventOverride) -> bool {
    &&& a.recurrence_id@ == b.recurrence_id@
    &&& a.summary@ == b.summary@
    &&& a.description@ == b.description@
    &&& a.location@ == b.location@
    &&& a.dtstart@ == b.dtstart@
    &&& a.dtend@ == b.dtend@
    &&& a.all_day == b.all_day
    &&& a.transparent == b.transparent
    &&& a.sequence == b.sequence
    &&& a.updated_at@ == b.updated_at@
}

fn override_from(r: &ExceptionRow) -> (o: EventOverride)
    ensures
        same_override(o, override_of(*r)),
{
    EventOverride {
        recurrence_id: r.recurrence_id.clone(),
        summary: r.summary.clone(),
        description: r.description.clone(),
        location: r.location.clone(),
        dtstart: r.dtstart.clone(),
        dtend: r.dtend.clone(),
        all_day: r.all_day,
        transparent: r.transparent,
        sequence: r.sequence,
        updated_at: r.updated_at.clone(),
    }
}

/// Add the exceptions of `event` among `rows` to its exdates and overrides.
pub fn attach_exceptions(event: &mut EventRow, rows: &[ExceptionRow])
    ensures
        texts(final(event).exdates@) == texts(old(event).exdates@) + exdates_of(old(event).uid@, rows@),
        final(event).overrides@.len() == old(event).overrides@.len() + overrides_of(old(event).uid@, rows@).len(),
        forall|k: int| 0 <= k < old(event).overrides@.len() ==> #[trigger] final(event).overrides@[k] == old(event).overrides@[k],
        forall|k: int| 0 <= k < overrides_of(old(event).uid@, rows@).len() ==> same_override(
            #[trigger] final(event).overrides@[old(event).overrides@.len() + k],
            overrides_of(old(event).uid@, rows@)[k],
        ),
        final(event).uid == old(event).uid,
        final(event).summary == old(event).summary,
        final(event).dtstart == old(event).dtstart,
        final(event).dtend == old(event).dtend,
        final(event).rrule == old(event).rrule,
        final(event).tzid == old(event).tzid,
        final(event).all_day == old(event).all_day,
        final(event).sequence == old(event).sequence,
{
    let ghost uid = event.uid@;
    let ghost n0 = event.overrides@.len();
    let mut i: usize = 0;
    while i < rows.len()
        invariant
            i <= rows@.len(),
            event.uid@ == uid,
            uid == old(event).uid@,
            n0 == old(event).overrides@.len(),
            event.uid == old(event).uid,
            event.summary == old(event).summary,
            event.dtstart == old(event).dtstart,
            event.dtend == old(event).dtend,
            event.rrule == old(event).rrule,
            event.tzid == old(event).tzid,
            event.all_day == old(event).all_day,
            event.sequence == old(event).sequence,
            texts(event.exdates@) == texts(old(event).exdates@) + exdates_of(uid, rows@.take(i as int)),
            event.overrides@.len() == n0 + overrides_of(uid, rows@.take(i as int)).len(),
            forall|k: int| 0 <= k < n0 ==> #[trigger] event.overrides@[k] == old(event).overrides@[k],
            forall|k: int| 0 <= k < overrides_of(uid, rows@.take(i as int)).len() ==> same_override(
                #[trigger] event.overrides@[n0 + k],
                overrides_of(uid, rows@.take(i as int))[k],
            ),
        decreases rows@.len() - i,
    {
        let row = &rows[i];
        proof {
            assert(rows@.take(i + 1).drop_last() =~= rows@.take(i as int));
            assert(rows@.take(i + 1).last() == *row);
        }
        let ghost before_over = event.overrides@;
        let ghost ov = overrides_of(uid, rows@.take(i as int));
        if str_eq(row.uid.as_str(), event.uid.as_str()) {
            if row.excluded {
                let mut d = event.exdates.clone();
                assert(d@ == event.exdates@);
                push_line(&mut d, row.recurrence_id.clone());
                event.exdates = d;
                assert(overrides_of(uid, rows@.take(i + 1)) =~= ov);
            } else {
                event.overrides.push(override_from(row));
                proof {
                    let ov2 = overrides_of(uid, rows@.take(i + 1));
                    assert(ov2 =~= ov.push(override_of(*row)));
                    assert forall|k: int| 0 <= k < ov2.len() implies same_override(
                        #[trigger] event.overrides@[n0 + k],
                        ov2[k],
                    ) by {
                        if k < ov.len() {
                            assert(event.overrides@[n0 + k] == before_over[n0 + k]);
                        }
                    }
                }
                assert(exdates_of(uid, rows@.take(i + 1)) =~= exdates_of(uid, rows@.take(i as int)));
            }
        } else {
            assert(overrides_of(uid, rows@.take(i + 1)) =~= ov);
            assert(exdates_of(uid, rows@.take(i + 1)) =~= exdates_of(uid, rows@.take(i as int)));
        }
        i = i + 1;
        assert(texts(event.exdates@) =~= texts(old(event).exdates@) + exdates_of(uid, rows@.take(i as int)));
    }
    assert(rows@.take(i as int) =~= rows@);
}


// ---- wall-clock times ---------------------------------------------------------------

pub open spec fn bad_start() -> Seq<char> {
    "start must be an ISO-8601 datetime"@
}

/// A wall-clock time `YYYY-MM-DDTHH:MM:SS`, as a series keeps it: a date,
/// `T`, and a time of day, with an optional fraction; any zone must make a
/// whole RFC 3339 instant. The result drops fraction and zone.
pub open spec fn wall_of(v: Seq<char>) -> Option<Seq<char>> {
    if !(all_ascii(v) && v.len() >= 19 && ymd_of(v.take(10)) is Some && v[10] == 'T') {
        None
    } else {
        match (
            parse_u32_spec(v.subrange(11, 13)),
            parse_u32_spec(v.subrange(14, 16)),
            parse_u32_spec(v.subrange(17, 19)),
        ) {
            (Some(hh), Some(mm), Some(ss)) => if v[13] != ':' || v[16] != ':' || hh > 23 || mm
                > 59 || ss > 59 {
                None
            } else {
                let frac = v.len() > 19 && v[19] == '.';
                let i = if frac {
                    digit_run_end(v, 20)
                } else {
                    19
                };
                if frac && i == 20 {
                    None
                } else if i < v.len() && rfc3339_millis(v) is None {
                    None
                } else {
                    Some(
                        v.take(10) + seq!['T'] + dec_pad(hh as nat, 2) + seq![':'] + dec_pad(
                            mm as nat,
                            2,
                        ) + seq![':'] + dec_pad(ss as nat, 2),
                    )
                }
            },
            _ => None,
        }
    }
}

/// The shape of a stored wall-clock time.
pub open spec fn is_wall(w: Seq<char>) -> bool {
    &&& w.len() == 19
    &&& ymd_of(w.take(10)) is Some
    &&& w[10] == 'T' && w[13] == ':' && w[16] == ':'
    &&& all_digits(w.subrange(11, 13)) && all_digits(w.subrange(14, 16)) && all_digits(
        w.subrange(17, 19),
    )
    &&& digits_value(w.subrange(11, 13)) <= 23
    &&& digits_value(w.subrange(14, 16)) <= 59
    &&& digits_value(w.subrange(17, 19)) <= 59
}

pub proof fn lemma_wall_shape(v: Seq<char>)
    requires
        wall_of(v) is Some,
    ensures
        is_wall(wall_of(v).unwrap()),
{
    let hh = parse_u32_spec(v.subrange(11, 13)).unwrap();
    let mm = parse_u32_spec(v.subrange(14, 16)).unwrap();
    let ss = parse_u32_spec(v.subrange(17, 19)).unwrap();
    lemma_short_parse_bounds(v.subrange(11, 13));
    lemma_short_parse_bounds(v.subrange(14, 16));
    lemma_short_parse_bounds(v.subrange(17, 19));
    lemma_pad2(hh as nat);
    lemma_pad2(mm as nat);
    lemma_pad2(ss as nat);
    let w = wall_of(v).unwrap();
    assert(w.take(10) =~= v.take(10));
    assert(w.subrange(11, 13) =~= dec_pad(hh as nat, 2));
    assert(w.subrange(14, 16) =~= dec_pad(mm as nat, 2));
    assert(w.subrange(17, 19) =~= dec_pad(ss as nat, 2));
}

/// A stored wall-clock time reads back as itself: reading the text that
/// `wall_of` gave once more gives the same text.
#[verifier::spinoff_prover]
pub proof fn lemma_wall_of_idempotent(v: Seq<char>)
    ensures
        wall_of(v) matches Some(w) ==> wall_of(w) == Some(w),
{
    if wall_of(v) is Some {
        let w = wall_of(v).unwrap();
        lemma_wall_shape(v);
        let hh = parse_u32_spec(v.subrange(11, 13)).unwrap();
        let mm = parse_u32_spec(v.subrange(14, 16)).unwrap();
        let ss = parse_u32_spec(v.subrange(17, 19)).unwrap();
        lemma_short_parse_bounds(v.subrange(11, 13));
        lemma_short_parse_bounds(v.subrange(14, 16));
        lemma_short_parse_bounds(v.subrange(17, 19));
        lemma_pad2(hh as nat);
        lemma_pad2(mm as nat);
        lemma_pad2(ss as nat);
        assert(w.take(10) =~= v.take(10));
        assert(w.subrange(11, 13) =~= dec_pad(hh as nat, 2));
        assert(w.subrange(14, 16) =~= dec_pad(mm as nat, 2));
        assert(w.subrange(17, 19) =~= dec_pad(ss as nat, 2));
        assert forall|k: int| 0 <= k < w.len() implies is_ascii_char(#[trigger] w[k]) by {
            if k < 10 {
                assert(w[k] == v[k]);
            } else if 11 <= k < 13 {
                assert(w[k] == dec_pad(hh as nat, 2)[k - 11]);
            } else if 14 <= k < 16 {
                assert(w[k] == dec_pad(mm as nat, 2)[k - 14]);
            } else if 17 <= k < 19 {
                assert(w[k] == dec_pad(ss as nat, 2)[k - 17]);
            }
        }
        assert(w.take(10) + seq!['T'] + dec_pad(hh as nat, 2) + seq![':'] + dec_pad(mm as nat, 2)
            + seq![':'] + dec_pad(ss as nat, 2) =~= w);
    }
}

/// Parse a wall-clock time (see `wall_of`).
pub fn parse_wall(value: &str) -> (r: Result<String, String>)
    ensures
        match r {
            Ok(w) => wall_of(value@) == Some(w@),
            Err(e) => wall_of(value@) is None && e@ == bad_start(),
        },
{
    let v = chars_of(value);
    let s = v.as_slice();
    if !all_ascii_exec(s) || s.len() < 19 {
        return Err(owned("start must be an ISO-8601 datetime"));
    }
    assert(v@.subrange(0, 10) =~= v@.take(10));
    if parse_ymd_at(s, 0).is_none() || s[10] != 'T' {
        return Err(owned("start must be an ISO-8601 datetime"));
    }
    let hh = parse_u32_at(s, 11, 13);
    let mm = parse_u32_at(s, 14, 16);
    let ss = parse_u32_at(s, 17, 19);
    let (hh, mm, ss) = match (hh, mm, ss) {
        (Some(hh), Some(mm), Some(ss)) => (hh, mm, ss),
        _ => {
            return Err(owned("start must be an ISO-8601 datetime"));
        },
    };
    if s[13] != ':' || s[16] != ':' || hh > 23 || mm > 59 || ss > 59 {
        return Err(owned("start must be an ISO-8601 datetime"));
    }
    let frac = s.len() > 19 && s[19] == '.';
    let i = if frac {
        digit_run_end_exec(s, 20)
    } else {
        19
    };
    if frac && i == 20 {
        return Err(owned("start must be an ISO-8601 datetime"));
    }
    if i < s.len() && parse_rfc3339_millis(s).is_none() {
        return Err(owned("start must be an ISO-8601 datetime"));
    }
    let mut out = String::new();
    push_range(&mut out, s, 0, 10);
    out.push('T');
    push_dec_pad(&mut out, hh as u64, 2);
    out.push(':');
    push_dec_pad(&mut out, mm as u64, 2);
    out.push(':');
    push_dec_pad(&mut out, ss as u64, 2);
    assert(out@ =~= wall_of(value@).unwrap());
    Ok(out)
}

/// A stored wall-clock time one hour later, rolling over to the next day.
pub open spec fn wall_plus_hour(w: Seq<char>) -> Seq<char> {
    let hh = digits_value(w.subrange(11, 13));
    let mm = digits_value(w.subrange(14, 16));
    let ss = digits_value(w.subrange(17, 19));
    let total = hh * 3600 + mm * 60 + ss + 3600;
    let rem = total % 86400;
    let day = if total >= 86400 {
        let (y, m, d) = ymd_of(w.take(10)).unwrap();
        let (y2, m2, d2) = add_days(y, m, d, 1);
        ymd_text(y2, m2, d2)
    } else {
        w.take(10)
    };
    day + seq!['T'] + dec_pad((rem / 3600) as nat, 2) + seq![':'] + dec_pad(
        (rem % 3600 / 60) as nat,
        2,
    ) + seq![':'] + dec_pad((rem % 60) as nat, 2)
}

fn add_wall_hour(wall: &str) -> (out: String)
    requires
        is_wall(wall@),
    ensures
        out@ == wall_plus_hour(wall@),
{
    let v = chars_of(wall);
    let s = v.as_slice();
    proof {
        lemma_small_digits(v@.subrange(11, 13));
        lemma_small_digits(v@.subrange(14, 16));
        lemma_small_digits(v@.subrange(17, 19));
    }
    let hh = parse_digits(s, 11, 13, 99).unwrap();
    let mm = parse_digits(s, 14, 16, 99).unwrap();
    let ss = parse_digits(s, 17, 19, 99).unwrap();
    let total = hh * 3600 + mm * 60 + ss + 3600;
    let rem = total % 86400;
    let mut date = String::new();
    push_range(&mut date, s, 0, 10);
    assert(v@.subrange(0, 10) =~= v@.take(10));
    let day = if total >= 86400 {
        match next_date(date.as_str()) {
            Ok(d) => d,
            Err(_) => date,
        }
    } else {
        date
    };
    let mut out = day;
    out.push('T');
    push_dec_pad(&mut out, rem / 3600, 2);
    out.push(':');
    push_dec_pad(&mut out, rem % 3600 / 60, 2);
    out.push(':');
    push_dec_pad(&mut out, rem % 60, 2);
    assert(out@ =~= wall_plus_hour(wall@));
    out
}

// ---- resolving the times of a write ------------------------------------------------

/// Start, end and whether the event takes whole days.
#[derive(Debug)]
pub struct Times {
    pub dtstart: String,
    pub dtend: String,
    pub all_day: bool,
}

pub open spec fn times_view(r: Result<Times, String>) -> Result<(Seq<char>, Seq<char>, bool), Seq<char>> {
    match r {
        Ok(t) => Ok((t.dtstart@, t.dtend@, t.all_day)),
        Err(e) => Err(e@),
    }
}

/// The day after a calendar date, as `next_date` writes it.
pub open spec fn day_after(ymd: Seq<char>) -> Seq<char> {
    let (y, m, d) = ymd_of(ymd).unwrap();
    let (y2, m2, d2) = add_days(y, m, d, 1);
    ymd_text(y2, m2, d2)
}

/// All-day times are dates, the end exclusive and a day after the start when
/// absent; other times are instants, normalized to UTC, the end an hour
/// after the start when absent. The end must come after the start.
pub open spec fn resolve_times_spec(start: Seq<char>, end: Option<Seq<char>>, all_day: bool) -> Result<
    (Seq<char>, Seq<char>, bool),
    Seq<char>,
> {
    if all_day || ymd_of(start) is Some {
        if ymd_of(start) is None {
            Err("all-day start must be YYYY-MM-DD"@)
        } else {
            let e = match end {
                Some(e) => e,
                None => day_after(start),
            };
            if ymd_of(e) is None {
                Err("all-day end must be YYYY-MM-DD"@)
            } else if !key_lt(start, e) {
                Err("end must be after start"@)
            } else {
                Ok((start, e, true))
            }
        }
    } else {
        match rfc3339_millis(start) {
            None => Err(bad_start()),
            Some(ms) => {
                let s2 = utc_text(ms);
                let e2: Result<Seq<char>, Seq<char>> = match end {
                    Some(e) => match rfc3339_millis(e) {
                        Some(me) => Ok(utc_text(me)),
                        None => Err("end must be an ISO-8601 datetime"@),
                    },
                    None => Ok(utc_text(ms + 3_600_000)),
                };
                match e2 {
                    Err(x) => Err(x),
                    Ok(e3) => if !key_lt(s2, e3) {
                        Err("end must be after start"@)
                    } else {
                        Ok((s2, e3, false))
                    },
                }
            },
        }
    }
}

pub open spec fn opt_view(o: Option<&str>) -> Option<Seq<char>> {
    match o {
        Some(s) => Some(s@),
        None => None,
    }
}

pub fn resolve_times(start: &str, end: Option<&str>, all_day: bool) -> (r: Result<Times, String>)
    ensures
        times_view(r) == resolve_times_spec(start@, opt_view(end), all_day),
{
    if all_day || is_ymd(start) {
        if !is_ymd(start) {
            return Err(owned("all-day start must be YYYY-MM-DD"));
        }
        let end_ymd = match end {
            Some(e) => owned(e),
            None => match next_date(start) {
                Ok(d) => d,
                Err(e) => {
                    return Err(e);
                },
            },
        };
        if !is_ymd(end_ymd.as_str()) {
            return Err(owned("all-day end must be YYYY-MM-DD"));
        }
        if !str_lt(start, end_ymd.as_str()) {
            return Err(owned("end must be after start"));
        }
        return Ok(Times { dtstart: owned(start), dtend: end_ymd, all_day: true });
    }
    let ms = match instant_millis(start) {
        Some(ms) => ms,
        None => {
            return Err(owned("start must be an ISO-8601 datetime"));
        },
    };
    let dtstart = format_utc_millis(ms);
    let dtend = match end {
        Some(e) => match instant_millis(e) {
            Some(me) => format_utc_millis(me),
            None => {
                return Err(owned("end must be an ISO-8601 datetime"));
            },
        },
        None => format_utc_millis(ms + 3_600_000),
    };
    if !str_lt(dtstart.as_str(), dtend.as_str()) {
        return Err(owned("end must be after start"));
    }
    Ok(Times { dtstart, dtend, all_day: false })
}

/// Like `resolve_times`, but a timed series keeps wall-clock times.
pub open spec fn resolve_for_event_spec(
    start: Seq<char>,
    end: Option<Seq<char>>,
    all_day: bool,
    recurring: bool,
) -> Result<(Seq<char>, Seq<char>, bool), Seq<char>> {
    if !recurring {
        resolve_times_spec(start, end, all_day)
    } else if all_day {
        resolve_times_spec(start, end, true)
    } else {
        match wall_of(start) {
            None => Err(bad_start()),
            Some(ws) => {
                let we: Result<Seq<char>, Seq<char>> = match end {
                    Some(e) => match wall_of(e) {
                        Some(x) => Ok(x),
                        None => Err("end must be an ISO-8601 datetime"@),
                    },
                    None => Ok(wall_plus_hour(ws)),
                };
                match we {
                    Err(x) => Err(x),
                    Ok(we2) => if !key_lt(ws, we2) {
                        Err("end must be after start"@)
                    } else {
                        Ok((ws, we2, false))
                    },
                }
            },
        }
    }
}

pub fn resolve_for_event(start: &str, end: Option<&str>, all_day: bool, recurring: bool) -> (r: Result<Times, String>)
    ensures
        times_view(r) == resolve_for_event_spec(start@, opt_view(end), all_day, recurring),
{
    if !recurring {
        return resolve_times(start, end, all_day);
    }
    if all_day {
        return resolve_times(start, end, true);
    }
    let dtstart = parse_wall(start)?;
    proof {
        lemma_wall_shape(start@);
    }
    let dtend = match end {
        Some(value) => match parse_wall(value) {
            Ok(w) => w,
            Err(_) => {
                return Err(owned("end must be an ISO-8601 datetime"));
            },
        },
        None => add_wall_hour(dtstart.as_str()),
    };
    if !str_lt(dtstart.as_str(), dtend.as_str()) {
        return Err(owned("end must be after start"));
    }
    Ok(Times { dtstart, dtend, all_day: false })
}

pub open spec fn offset_message() -> Seq<char> {
    "start and end must include an offset when removing rrule"@
}

/// A time of an event leaving its series: an instant stays as it is; a
/// wall-clock time of a UTC series becomes an instant.
pub open spec fn absolute_time(v: Seq<char>, previous_tz: Seq<char>) -> Result<Seq<char>, Seq<char>> {
    if rfc3339_millis(v) is Some {
        Ok(v)
    } else if previous_tz == "UTC"@ && v.len() == 19 && wall_of(v) is Some {
        Ok(wall_of(v).unwrap() + seq!['Z'])
    } else {
        Err(offset_message())
    }
}

fn as_absolute(value: &str, previous_tz: &str) -> (r: Result<String, String>)
    ensures
        match r {
            Ok(t) => absolute_time(value@, previous_tz@) == Ok::<Seq<char>, Seq<char>>(t@),
            Err(e) => absolute_time(value@, previous_tz@) == Err::<Seq<char>, Seq<char>>(e@),
        },
{
    if instant_millis(value).is_some() {
        return Ok(owned(value));
    }
    if str_eq(previous_tz, "UTC") && chars_of(value).len() == 19 {
        match parse_wall(value) {
            Ok(w) => {
                let mut out = w;
                out.push('Z');
                assert(out@ =~= wall_of(value@).unwrap() + seq!['Z']);
                return Ok(out);
            },
            Err(_) => {},
        }
    }
    Err(owned("start and end must include an offset when removing rrule"))
}

/// The times of an event whose rrule is being removed.
pub open spec fn resolve_after_series_spec(
    start: Seq<char>,
    end: Option<Seq<char>>,
    all_day: bool,
    previous_tz: Seq<char>,
) -> Result<(Seq<char>, Seq<char>, bool), Seq<char>> {
    if all_day || ymd_of(start) is Some {
        resolve_times_spec(start, end, true)
    } else {
        match absolute_time(start, previous_tz) {
            Err(e) => Err(e),
            Ok(s2) => match end {
                Some(e) => match absolute_time(e, previous_tz) {
                    Err(x) => Err(x),
                    Ok(e2) => resolve_times_spec(s2, Some(e2), false),
                },
                None => resolve_times_spec(s2, None, false),
            },
        }
    }
}

pub fn resolve_after_series(start: &str, end: Option<&str>, all_day: bool, previous_tz: &str) -> (r:
    Result<Times, String>)
    ensures
        times_view(r) == resolve_after_series_spec(start@, opt_view(end), all_day, previous_tz@),
{
    if all_day || is_ymd(start) {
        return resolve_times(start, end, true);
    }
    let s2 = as_absolute(start, previous_tz)?;
    match end {
        Some(value) => {
            let e2 = as_absolute(value, previous_tz)?;
            resolve_times(s2.as_str(), Some(e2.as_str()), false)
        },
        None => resolve_times(s2.as_str(), None, false),
    }
}


// ---- recurrence ---------------------------------------------------------------------

/// The rrule and zone a write stores: both empty for a single event; a
/// canonical rule and no zone for an all-day series; a canonical rule and an
/// allowed zone for a timed series.
pub open spec fn finalize_recurrence_spec(
    all_day: bool,
    rrule_raw: Seq<char>,
    tz_raw: Seq<char>,
    tz_explicit: bool,
    had_exceptions: bool,
    all_day_changed: bool,
) -> Result<(Seq<char>, Seq<char>), Seq<char>> {
    if had_exceptions && (all_day_changed || rrule_raw.len() == 0) {
        Err("clear exceptions first"@)
    } else if rrule_raw.len() == 0 {
        if tz_explicit && tz_raw.len() > 0 {
            Err("timeZone is only allowed on a recurring event"@)
        } else {
            Ok((Seq::empty(), Seq::empty()))
        }
    } else {
        match canonical_rrule(rrule_raw, all_day) {
            Err(e) => Err(e),
            Ok(r) => if all_day {
                if tz_explicit && tz_raw.len() > 0 {
                    Err("timeZone is not allowed on an all-day series"@)
                } else {
                    Ok((r, Seq::empty()))
                }
            } else if tz_raw.len() == 0 {
                Err("timeZone is required"@)
            } else if !allowed_names().contains(tz_raw) {
                Err(unsupported_message())
            } else {
                Ok((r, tz_raw))
            },
        }
    }
}

pub open spec fn pair_view(r: Result<(String, String), String>) -> Result<(Seq<char>, Seq<char>), Seq<char>> {
    match r {
        Ok((a, b)) => Ok((a@, b@)),
        Err(e) => Err(e@),
    }
}

pub fn finalize_recurrence(
    all_day: bool,
    rrule_raw: &str,
    tz_raw: &str,
    tz_explicit: bool,
    had_exceptions: bool,
    all_day_changed: bool,
) -> (r: Result<(String, String), String>)
    ensures
        pair_view(r) == finalize_recurrence_spec(
            all_day,
            rrule_raw@,
            tz_raw@,
            tz_explicit,
            had_exceptions,
            all_day_changed,
        ),
{
    if had_exceptions && (all_day_changed || rrule_raw.is_empty()) {
        return Err(owned("clear exceptions first"));
    }
    if rrule_raw.is_empty() {
        if tz_explicit && !tz_raw.is_empty() {
            return Err(owned("timeZone is only allowed on a recurring event"));
        }
        return Ok((String::new(), String::new()));
    }
    let rrule = canonicalize(rrule_raw, all_day)?;
    if all_day {
        if tz_explicit && !tz_raw.is_empty() {
            return Err(owned("timeZone is not allowed on an all-day series"));
        }
        return Ok((rrule, String::new()));
    }
    if tz_raw.is_empty() {
        return Err(owned("timeZone is required"));
    }
    check(tz_raw)?;
    Ok((rrule, owned(tz_raw)))
}

pub open spec fn has_char(s: Seq<char>, c: char) -> bool {
    exists|k: int| 0 <= k < s.len() && s[k] == c
}

/// A recurrence id in the form the series keeps: a date for an all-day
/// series, a wall-clock time with no zone otherwise.
pub open spec fn recurrence_id_of(value: Seq<char>, all_day: bool) -> Result<Seq<char>, Seq<char>> {
    let v = trim(value);
    if all_day {
        if ymd_of(v) is Some {
            Ok(v)
        } else {
            Err("recurrenceId must be YYYY-MM-DD"@)
        }
    } else if v.len() == 19 && all_ascii(v) && !has_char(v, 'Z') && !has_char(v, '+') && !has_char(
        v.skip(10),
        '-',
    ) && wall_of(v) is Some {
        Ok(wall_of(v).unwrap())
    } else {
        Err("recurrenceId must be YYYY-MM-DDTHH:MM:SS"@)
    }
}

fn has_char_at(s: &[char], lo: usize, c: char) -> (b: bool)
    requires
        lo <= s@.len(),
    ensures
        b == has_char(s@.skip(lo as int), c),
{
    let mut i = lo;
    while i < s.len()
        invariant
            lo <= i <= s@.len(),
            forall|k: int| lo <= k < i ==> s@[k] != c,
        decreases s@.len() - i,
    {
        if s[i] == c {
            assert(s@.skip(lo as int)[i - lo] == c);
            return true;
        }
        i = i + 1;
    }
    proof {
        if has_char(s@.skip(lo as int), c) {
            let k = choose|k: int| 0 <= k < s@.skip(lo as int).len() && s@.skip(lo as int)[k] == c;
            assert(s@[lo + k] == c);
        }
    }
    false
}

pub fn normalize_recurrence_id(value: &str, all_day: bool) -> (r: Result<String, String>)
    ensures
        match r {
            Ok(t) => recurrence_id_of(value@, all_day) == Ok::<Seq<char>, Seq<char>>(t@),
            Err(e) => recurrence_id_of(value@, all_day) == Err::<Seq<char>, Seq<char>>(e@),
        },
{
    let v = trimmed(value);
    if all_day {
        if is_ymd(v.as_str()) {
            return Ok(v);
        }
        return Err(owned("recurrenceId must be YYYY-MM-DD"));
    }
    let c = chars_of(v.as_str());
    if c.len() == 19 && all_ascii_exec(c.as_slice()) && !has_char_at(c.as_slice(), 0, 'Z')
        && !has_char_at(c.as_slice(), 0, '+') && !has_char_at(c.as_slice(), 10, '-') {
        assert(c@.skip(0) =~= c@);
        match parse_wall(v.as_str()) {
            Ok(w) => {
                return Ok(w);
            },
            Err(_) => {},
        }
    }
    assert(c@.skip(0) =~= c@);
    Err(owned("recurrenceId must be YYYY-MM-DDTHH:MM:SS"))
}


// ---- request bodies -----------------------------------------------------------------

pub open spec fn ostr(o: Option<String>) -> Option<Seq<char>> {
    match o {
        Some(s) => Some(s@),
        None => None,
    }
}

pub open spec fn otrim(o: Option<Seq<char>>) -> Option<Seq<char>> {
    match o {
        Some(s) => Some(trim(s)),
        None => None,
    }
}

/// The text of `key` when it is a string, else empty.
pub open spec fn str_or_empty(m: Seq<(Seq<char>, Json)>, key: Seq<char>) -> Seq<char> {
    match get_str(m, key) {
        Some(s) => s,
        None => Seq::empty(),
    }
}

/// An optional text member: absent is `None`, a string is trimmed, anything
/// else is an error naming the key.
pub open spec fn optional_string_spec(m: Seq<(Seq<char>, Json)>, key: Seq<char>) -> Result<
    Option<Seq<char>>,
    Seq<char>,
> {
    match obj_get(m, key) {
        None => Ok(None),
        Some(Json::Str(s)) => Ok(Some(trim(s))),
        Some(_) => Err(key + " must be a string"@),
    }
}

fn optional_string(obj: &Vec<(String, Value)>, key: &str) -> (r: Result<Option<String>, String>)
    ensures
        match r {
            Ok(o) => optional_string_spec(json_entries(obj@), key@) == Ok::<Option<Seq<char>>, Seq<char>>(ostr(o)),
            Err(e) => optional_string_spec(json_entries(obj@), key@) == Err::<Option<Seq<char>>, Seq<char>>(e@),
        },
{
    match entry_get(obj, key) {
        None => Ok(None),
        Some(v) => match v.as_str() {
            Some(s) => Ok(Some(trimmed(s))),
            None => Err(concat(key, " must be a string")),
        },
    }
}

fn opt_trimmed(o: Option<&str>) -> (r: Option<String>)
    ensures
        ostr(r) == otrim(opt_view(o)),
{
    match o {
        Some(s) => Some(trimmed(s)),
        None => None,
    }
}

fn opt_owned(o: Option<&str>) -> (r: Option<String>)
    ensures
        ostr(r) == opt_view(o),
{
    match o {
        Some(s) => Some(owned(s)),
        None => None,
    }
}

pub struct EventInputView {
    pub uid: Option<Seq<char>>,
    pub summary: Seq<char>,
    pub description: Option<Seq<char>>,
    pub location: Option<Seq<char>>,
    pub start: Seq<char>,
    pub end: Option<Seq<char>>,
    pub all_day: Option<bool>,
    pub transparent: Option<bool>,
    pub rrule: Option<Seq<char>>,
    pub time_zone: Option<Seq<char>>,
}

impl View for EventInput {
    type V = EventInputView;

    open spec fn view(&self) -> EventInputView {
        EventInputView {
            uid: ostr(self.uid),
            summary: self.summary@,
            description: ostr(self.description),
            location: ostr(self.location),
            start: self.start@,
            end: ostr(self.end),
            all_day: self.all_day,
            transparent: self.transparent,
            rrule: ostr(self.rrule),
            time_zone: ostr(self.time_zone),
        }
    }
}

/// `parse_event_input`: a new event needs a summary and a start.
pub open spec fn event_input_of(body: Json) -> Result<EventInputView, Seq<char>> {
    match body {
        Json::Obj(m) => {
            let summary = trim(str_or_empty(m, "summary"@));
            let start = trim(str_or_empty(m, "start"@));
            let uid = otrim(get_str(m, "uid"@));
            let description = get_str(m, "description"@);
            let location = get_str(m, "location"@);
            if summary.len() == 0 {
                Err("summary is required"@)
            } else if utf8_len(summary) > 512 {
                Err("summary is too long"@)
            } else if start.len() == 0 {
                Err("start is required"@)
            } else if uid matches Some(u) && !valid_uid(u) {
                Err(uid_message())
            } else if description matches Some(d) && utf8_len(d) > 4000 {
                Err("description is too long"@)
            } else if location matches Some(l) && utf8_len(l) > 512 {
                Err("location is too long"@)
            } else {
                match optional_string_spec(m, "rrule"@) {
                    Err(e) => Err(e),
                    Ok(rrule) => match optional_string_spec(m, "timeZone"@) {
                        Err(e) => Err(e),
                        Ok(time_zone) => Ok(
                            EventInputView {
                                uid,
                                summary,
                                description,
                                location,
                                start,
                                end: get_str(m, "end"@),
                                all_day: get_bool(m, "allDay"@),
                                transparent: get_bool(m, "transparent"@),
                                rrule,
                                time_zone,
                            },
                        ),
                    },
                }
            }
        },
        _ => Err("body must be an object"@),
    }
}

fn required_trimmed(obj: &Vec<(String, Value)>, key: &str) -> (out: String)
    ensures
        out@ == trim(str_or_empty(json_entries(obj@), key@)),
{
    match entry_str(obj, key) {
        Some(s) => trimmed(s),
        None => {
            proof {
                reveal_strlit("");
            }
            trimmed("")
        },
    }
}

pub fn parse_event_input(body: &Value) -> (r: Result<EventInput, String>)
    ensures
        match r {
            Ok(i) => event_input_of(body@) == Ok::<EventInputView, Seq<char>>(i@),
            Err(e) => event_input_of(body@) == Err::<EventInputView, Seq<char>>(e@),
        },
{
    let obj = match body.as_object() {
        Some(o) => o,
        None => {
            return Err(owned("body must be an object"));
        },
    };
    let summary = required_trimmed(obj, "summary");
    if summary.as_str().is_empty() {
        return Err(owned("summary is required"));
    }
    if utf8_longer_than(summary.as_str(), 512) {
        return Err(owned("summary is too long"));
    }
    let start = required_trimmed(obj, "start");
    if start.as_str().is_empty() {
        return Err(owned("start is required"));
    }
    let uid = opt_trimmed(entry_str(obj, "uid"));
    match &uid {
        Some(u) => {
            if !is_uid(u.as_str()) {
                return Err(owned("uid must be 1-200 chars: letters, digits, . _ @ -"));
            }
        },
        None => {},
    }
    let description = entry_str(obj, "description");
    let location = entry_str(obj, "location");
    if let Some(d) = description {
        if utf8_longer_than(d, 4000) {
            return Err(owned("description is too long"));
        }
    }
    if let Some(l) = location {
        if utf8_longer_than(l, 512) {
            return Err(owned("location is too long"));
        }
    }
    let rrule = optional_string(obj, "rrule")?;
    let time_zone = optional_string(obj, "timeZone")?;
    Ok(EventInput {
        uid,
        summary,
        description: opt_owned(description),
        location: opt_owned(location),
        start,
        end: opt_owned(entry_str(obj, "end")),
        all_day: entry_bool(obj, "allDay"),
        transparent: entry_bool(obj, "transparent"),
        rrule,
        time_zone,
    })
}

pub struct EventPatchView {
    pub summary: Option<Seq<char>>,
    pub description: Option<Seq<char>>,
    pub location: Option<Seq<char>>,
    pub start: Option<Seq<char>>,
    pub end: Option<Seq<char>>,
    pub all_day: Option<bool>,
    pub transparent: Option<bool>,
    pub rrule: Option<Seq<char>>,
    pub time_zone: Option<Seq<char>>,
}

impl View for EventPatch {
    type V = EventPatchView;

    open spec fn view(&self) -> EventPatchView {
        EventPatchView {
            summary: ostr(self.summary),
            description: ostr(self.description),
            location: ostr(self.location),
            start: ostr(self.start),
            end: ostr(self.end),
            all_day: self.all_day,
            transparent: self.transparent,
            rrule: ostr(self.rrule),
            time_zone: ostr(self.time_zone),
        }
    }
}

/// A member present in the body: `optional_string` when the key is there.
pub open spec fn present_string(m: Seq<(Seq<char>, Json)>, key: Seq<char>) -> Result<Option<Seq<char>>, Seq<char>> {
    if obj_get(m, key) is Some {
        optional_string_spec(m, key)
    } else {
        Ok(None)
    }
}

/// `parse_event_patch`: each present field, checked; at least one.
pub open spec fn event_patch_of(body: Json) -> Result<EventPatchView, Seq<char>> {
    match body {
        Json::Obj(m) => {
            let summary = otrim(get_str(m, "summary"@));
            let description = get_str(m, "description"@);
            let location = get_str(m, "location"@);
            if summary matches Some(t) && t.len() == 0 {
                Err("summary cannot be empty"@)
            } else if summary matches Some(t) && utf8_len(t) > 512 {
                Err("summary is too long"@)
            } else if description matches Some(d) && utf8_len(d) > 4000 {
                Err("description is too long"@)
            } else if location matches Some(l) && utf8_len(l) > 512 {
                Err("location is too long"@)
            } else {
                match present_string(m, "rrule"@) {
                    Err(e) => Err(e),
                    Ok(rrule) => match present_string(m, "timeZone"@) {
                        Err(e) => Err(e),
                        Ok(time_zone) => {
                            let p = EventPatchView {
                                summary,
                                description,
                                location,
                                start: otrim(get_str(m, "start"@)),
                                end: otrim(get_str(m, "end"@)),
                                all_day: get_bool(m, "allDay"@),
                                transparent: get_bool(m, "transparent"@),
                                rrule,
                                time_zone,
                            };
                            if p.summary is None && p.description is None && p.location is None
                                && p.start is None && p.end is None && p.all_day is None
                                && p.transparent is None && p.rrule is None && p.time_zone is None {
                                Err("no fields to update"@)
                            } else {
                                Ok(p)
                            }
                        },
                    },
                }
            }
        },
        _ => Err("body must be an object"@),
    }
}

pub fn parse_event_patch(body: &Value) -> (r: Result<EventPatch, String>)
    ensures
        match r {
            Ok(p) => event_patch_of(body@) == Ok::<EventPatchView, Seq<char>>(p@),
            Err(e) => event_patch_of(body@) == Err::<EventPatchView, Seq<char>>(e@),
        },
{
    let obj = match body.as_object() {
        Some(o) => o,
        None => {
            return Err(owned("body must be an object"));
        },
    };
    let summary = opt_trimmed(entry_str(obj, "summary"));
    match &summary {
        Some(t) => {
            if t.as_str().is_empty() {
                return Err(owned("summary cannot be empty"));
            }
            if utf8_longer_than(t.as_str(), 512) {
                return Err(owned("summary is too long"));
            }
        },
        None => {},
    }
    let start = opt_trimmed(entry_str(obj, "start"));
    let end = opt_trimmed(entry_str(obj, "end"));
    let description = entry_str(obj, "description");
    if let Some(d) = description {
        if utf8_longer_than(d, 4000) {
            return Err(owned("description is too long"));
        }
    }
    let location = entry_str(obj, "location");
    if let Some(l) = location {
        if utf8_longer_than(l, 512) {
            return Err(owned("location is too long"));
        }
    }
    let all_day = entry_bool(obj, "allDay");
    let transparent = entry_bool(obj, "transparent");
    let rrule = if entry_has(obj, "rrule") {
        optional_string(obj, "rrule")?
    } else {
        None
    };
    let time_zone = if entry_has(obj, "timeZone") {
        optional_string(obj, "timeZone")?
    } else {
        None
    };
    let patch = EventPatch {
        summary,
        description: opt_owned(description),
        location: opt_owned(location),
        start,
        end,
        all_day,
        transparent,
        rrule,
        time_zone,
    };
    if patch.summary.is_none() && patch.description.is_none() && patch.location.is_none()
        && patch.start.is_none() && patch.end.is_none() && patch.all_day.is_none()
        && patch.transparent.is_none() && patch.rrule.is_none() && patch.time_zone.is_none() {
        return Err(owned("no fields to update"));
    }
    Ok(patch)
}

/// `parse_recurrence_id`: the trimmed `recurrenceId`, which must not be blank.
pub open spec fn recurrence_id_in(body: Json) -> Result<Seq<char>, Seq<char>> {
    match body {
        Json::Obj(m) => match get_str(m, "recurrenceId"@) {
            Some(s) => if trim(s).len() > 0 {
                Ok(trim(s))
            } else {
                Err("recurrenceId is required"@)
            },
            None => Err("recurrenceId is required"@),
        },
        _ => Err("body must be an object"@),
    }
}

pub fn parse_recurrence_id(body: &Value) -> (r: Result<String, String>)
    ensures
        match r {
            Ok(t) => recurrence_id_in(body@) == Ok::<Seq<char>, Seq<char>>(t@),
            Err(e) => recurrence_id_in(body@) == Err::<Seq<char>, Seq<char>>(e@),
        },
{
    let obj = match body.as_object() {
        Some(o) => o,
        None => {
            return Err(owned("body must be an object"));
        },
    };
    match entry_str(obj, "recurrenceId") {
        Some(s) => {
            let t = trimmed(s);
            if t.as_str().is_empty() {
                Err(owned("recurrenceId is required"))
            } else {
                Ok(t)
            }
        },
        None => Err(owned("recurrenceId is required")),
    }
}

pub struct OverrideInputView {
    pub recurrence_id: Seq<char>,
    pub summary: Option<Seq<char>>,
    pub description: Option<Seq<char>>,
    pub location: Option<Seq<char>>,
    pub start: Seq<char>,
    pub end: Option<Seq<char>>,
    pub transparent: Option<bool>,
}

impl View for OverrideInput {
    type V = OverrideInputView;

    open spec fn view(&self) -> OverrideInputView {
        OverrideInputView {
            recurrence_id: self.recurrence_id@,
            summary: ostr(self.summary),
            description: ostr(self.description),
            location: ostr(self.location),
            start: self.start@,
            end: ostr(self.end),
            transparent: self.transparent,
        }
    }
}

/// A member that must be a string when present, and at most `max` octets.
pub open spec fn capped_string(m: Seq<(Seq<char>, Json)>, key: Seq<char>, max: int) -> Result<
    Option<Seq<char>>,
    Seq<char>,
> {
    match obj_get(m, key) {
        None => Ok(None),
        Some(Json::Str(s)) => if utf8_len(s) > max {
            Err(key + " is too long"@)
        } else {
            Ok(Some(s))
        },
        Some(_) => Err(key + " must be a string"@),
    }
}

/// `parse_override_input`: a recurrence id and a start; a summary, when
/// present, is not blank.
pub open spec fn override_input_of(body: Json) -> Result<OverrideInputView, Seq<char>> {
    match recurrence_id_in(body) {
        Err(e) => Err(e),
        Ok(rid) => {
            let m = body->Obj_0;
            let start = trim(str_or_empty(m, "start"@));
            if start.len() == 0 {
                Err("start is required"@)
            } else {
                let summary: Result<Option<Seq<char>>, Seq<char>> = match obj_get(m, "summary"@) {
                    None => Ok(None),
                    Some(Json::Str(s)) => if trim(s).len() == 0 {
                        Err("summary cannot be empty"@)
                    } else if utf8_len(trim(s)) > 512 {
                        Err("summary is too long"@)
                    } else {
                        Ok(Some(trim(s)))
                    },
                    Some(_) => Err("summary must be a string"@),
                };
                match summary {
                    Err(e) => Err(e),
                    Ok(summary) => match capped_string(m, "description"@, 4000) {
                        Err(e) => Err(e),
                        Ok(description) => match capped_string(m, "location"@, 512) {
                            Err(e) => Err(e),
                            Ok(location) => Ok(
                                OverrideInputView {
                                    recurrence_id: rid,
                                    summary,
                                    description,
                                    location,
                                    start,
                                    end: get_str(m, "end"@),
                                    transparent: get_bool(m, "transparent"@),
                                },
                            ),
                        },
                    },
                }
            }
        },
    }
}

fn capped(obj: &Vec<(String, Value)>, key: &str, max: usize) -> (r: Result<Option<String>, String>)
    requires
        max < usize::MAX - 4,
    ensures
        match r {
            Ok(o) => capped_string(json_entries(obj@), key@, max as int) == Ok::<Option<Seq<char>>, Seq<char>>(ostr(o)),
            Err(e) => capped_string(json_entries(obj@), key@, max as int) == Err::<Option<Seq<char>>, Seq<char>>(e@),
        },
{
    match entry_get(obj, key) {
        None => Ok(None),
        Some(v) => match v.as_str() {
            Some(s) => {
                if utf8_longer_than(s, max) {
                    Err(concat(key, " is too long"))
                } else {
                    Ok(Some(owned(s)))
                }
            },
            None => Err(concat(key, " must be a string")),
        },
    }
}

pub fn parse_override_input(body: &Value) -> (r: Result<OverrideInput, String>)
    ensures
        match r {
            Ok(i) => override_input_of(body@) == Ok::<OverrideInputView, Seq<char>>(i@),
            Err(e) => override_input_of(body@) == Err::<OverrideInputView, Seq<char>>(e@),
        },
{
    let obj = match body.as_object() {
        Some(o) => o,
        None => {
            return Err(owned("body must be an object"));
        },
    };
    let recurrence_id = parse_recurrence_id(body)?;
    let start = required_trimmed(obj, "start");
    if start.as_str().is_empty() {
        return Err(owned("start is required"));
    }
    let summary = match entry_get(obj, "summary") {
        None => None,
        Some(v) => match v.as_str() {
            Some(s) => {
                let t = trimmed(s);
                if t.as_str().is_empty() {
                    return Err(owned("summary cannot be empty"));
                }
                if utf8_longer_than(t.as_str(), 512) {
                    return Err(owned("summary is too long"));
                }
                Some(t)
            },
            None => {
                return Err(owned("summary must be a string"));
            },
        },
    };
    let description = capped(obj, "description", 4000)?;
    let location = capped(obj, "location", 512)?;
    Ok(OverrideInput {
        recurrence_id,
        summary,
        description,
        location,
        start,
        end: opt_owned(entry_str(obj, "end")),
        transparent: entry_bool(obj, "transparent"),
    })
}

// ---- JSON of the rows ---------------------------------------------------------------

/// `s` without the run of `c` at its end.
pub open spec fn strip_trailing(s: Seq<char>, c: char) -> Seq<char>
    decreases s.len(),
{
    if s.len() > 0 && s.last() == c {
        strip_trailing(s.drop_last(), c)
    } else {
        s
    }
}

pub fn strip_trailing_slashes(s: &str) -> (out: String)
    ensures
        out@ == strip_trailing(s@, '/'),
{
    let c = chars_of(s);
    let mut n: usize = c.len();
    assert(c@.take(n as int) =~= c@);
    while n > 0 && c[n - 1] == '/'
        invariant
            n <= c@.len(),
            c@ == s@,
            strip_trailing(c@.take(n as int), '/') == strip_trailing(s@, '/'),
        decreases n,
    {
        assert(c@.take(n as int).drop_last() =~= c@.take(n - 1));
        n = n - 1;
    }
    let mut out = String::new();
    push_range(&mut out, c.as_slice(), 0, n);
    assert(c@.subrange(0, n as int) =~= c@.take(n as int));
    out
}

/// The members of a calendar's JSON: where to subscribe and where to write.
pub open spec fn calendar_members(row: CalendarRow, base: Seq<char>) -> Seq<(Seq<char>, Json)> {
    let origin = strip_trailing(base, '/');
    seq![
        ("id"@, Json::Str(row.id@)),
        ("name"@, Json::Str(row.name@)),
        ("subscribe"@, Json::Str(origin + "/feed/"@ + row.feed_token@ + ".ics"@)),
        ("write"@, Json::Str(origin + "/v1/c/"@ + row.id@ + "/events"@)),
        ("createdAt"@, Json::Str(row.created_at@)),
        ("feed"@, Json::Str(row.feed@)),
    ]
}

pub fn json_calendar(row: &CalendarRow, base: &str) -> (r: Value)
    ensures
        r@ == Json::Obj(obj_build(calendar_members(*row, base@))),
{
    let origin = strip_trailing_slashes(base);
    let mut subscribe = origin.clone();
    subscribe.push_str("/feed/");
    subscribe.push_str(row.feed_token.as_str());
    subscribe.push_str(".ics");
    let mut write = origin;
    write.push_str("/v1/c/");
    write.push_str(row.id.as_str());
    write.push_str("/events");
    let mut pairs: Vec<(&str, Value)> = Vec::new();
    pairs.push(("id", Value::String(row.id.clone())));
    pairs.push(("name", Value::String(row.name.clone())));
    pairs.push(("subscribe", Value::String(subscribe)));
    pairs.push(("write", Value::String(write)));
    pairs.push(("createdAt", Value::String(row.created_at.clone())));
    pairs.push(("feed", Value::String(row.feed.clone())));
    assert(member_views(pairs@) =~= calendar_members(*row, base@));
    Value::object(pairs.as_slice())
}

/// `json_calendar` plus the write key. Only for the create response: the key
/// is not recoverable afterwards.
pub fn json_calendar_created(row: &CalendarRow, key: &str, base: &str) -> (r: Value)
    ensures
        r@ == Json::Obj(
            obj_insert(obj_build(calendar_members(*row, base@)), "key"@, Json::Str(key@)),
        ),
{
    let value = json_calendar(row, base);
    if let Value::Object(m) = value {
        let mut m = m;
        insert_entry(&mut m, owned("key"), Value::String(owned(key)));
        Value::Object(m)
    } else {
        proof {
            assert(false);
        }
        Value::Null
    }
}

/// One override of a series, as the API shows it.
pub open spec fn override_json(o: EventOverride) -> Json {
    Json::Obj(
        obj_build(
            seq![
                ("recurrenceId"@, Json::Str(o.recurrence_id@)),
                ("summary"@, Json::Str(o.summary@)),
                ("description"@, Json::Str(o.description@)),
                ("location"@, Json::Str(o.location@)),
                ("start"@, Json::Str(o.dtstart@)),
                ("end"@, Json::Str(o.dtend@)),
                ("transparent"@, Json::Bool(o.transparent)),
                ("sequence"@, Json::Number(o.sequence as int)),
            ],
        ),
    )
}

pub open spec fn text_json(t: String) -> Json {
    Json::Str(t@)
}

/// The members of an event's JSON. A sealed event shows only its seal and
/// stamps; the series fields appear only where the event has them.
pub open spec fn event_members(row: EventRow) -> Seq<(Seq<char>, Json)> {
    if row.seal@.len() > 0 {
        seq![
            ("uid"@, Json::Str(row.uid@)),
            ("seal"@, Json::Str(row.seal@)),
            ("createdAt"@, Json::Str(row.created_at@)),
            ("updatedAt"@, Json::Str(row.updated_at@)),
        ]
    } else {
        let plain = seq![
            ("uid"@, Json::Str(row.uid@)),
            ("summary"@, Json::Str(row.summary@)),
            ("description"@, Json::Str(row.description@)),
            ("location"@, Json::Str(row.location@)),
            ("start"@, Json::Str(row.dtstart@)),
            ("end"@, Json::Str(row.dtend@)),
            ("allDay"@, Json::Bool(row.all_day)),
            ("transparent"@, Json::Bool(row.transparent)),
            ("sequence"@, Json::Number(row.sequence as int)),
            ("createdAt"@, Json::Str(row.created_at@)),
            ("updatedAt"@, Json::Str(row.updated_at@)),
        ];
        let a = if row.rrule@.len() > 0 {
            plain.push(("rrule"@, Json::Str(row.rrule@)))
        } else {
            plain
        };
        let b = if row.tzid@.len() > 0 {
            a.push(("timeZone"@, Json::Str(row.tzid@)))
        } else {
            a
        };
        let c = if row.exdates@.len() > 0 {
            b.push(("exdates"@, Json::Arr(row.exdates@.map_values(|t: String| text_json(t)))))
        } else {
            b
        };
        if row.overrides@.len() > 0 {
            c.push(
                (
                    "overrides"@,
                    Json::Arr(row.overrides@.map_values(|o: EventOverride| override_json(o))),
                ),
            )
        } else {
            c
        }
    }
}

fn override_value(o: &EventOverride) -> (r: Value)
    ensures
        r@ == override_json(*o),
{
    let mut pairs: Vec<(&str, Value)> = Vec::new();
    pairs.push(("recurrenceId", Value::String(o.recurrence_id.clone())));
    pairs.push(("summary", Value::String(o.summary.clone())));
    pairs.push(("description", Value::String(o.description.clone())));
    pairs.push(("location", Value::String(o.location.clone())));
    pairs.push(("start", Value::String(o.dtstart.clone())));
    pairs.push(("end", Value::String(o.dtend.clone())));
    pairs.push(("transparent", Value::Bool(o.transparent)));
    pairs.push(("sequence", Value::Number(o.sequence)));
    assert(member_views(pairs@) =~= seq![
        ("recurrenceId"@, Json::Str(o.recurrence_id@)),
        ("summary"@, Json::Str(o.summary@)),
        ("description"@, Json::Str(o.description@)),
        ("location"@, Json::Str(o.location@)),
        ("start"@, Json::Str(o.dtstart@)),
        ("end"@, Json::Str(o.dtend@)),
        ("transparent"@, Json::Bool(o.transparent)),
        ("sequence"@, Json::Number(o.sequence as int)),
    ]);
    Value::object(pairs.as_slice())
}

pub fn text_values(v: &Vec<String>) -> (r: Vec<Value>)
    ensures
        json_items(r@) == v@.map_values(|t: String| text_json(t)),
{
    let mut out: Vec<Value> = Vec::new();
    let mut i: usize = 0;
    while i < v.len()
        invariant
            i <= v@.len(),
            json_items(out@) == v@.take(i as int).map_values(|t: String| text_json(t)),
        decreases v@.len() - i,
    {
        let ghost before = out@;
        let t = v[i].clone();
        assert(t@ == v@[i as int]@);
        out.push(Value::String(t));
        proof {
            assert(out@.drop_last() =~= before);
            assert(json_of(out@.last()) == text_json(v@[i as int]));
            assert(v@.take(i + 1).map_values(|t: String| text_json(t)) =~= v@.take(
                i as int,
            ).map_values(|t: String| text_json(t)).push(text_json(v@[i as int])));
        }
        i = i + 1;
    }
    assert(v@.take(i as int) =~= v@);
    out
}

fn override_values(v: &Vec<EventOverride>) -> (r: Vec<Value>)
    ensures
        json_items(r@) == v@.map_values(|o: EventOverride| override_json(o)),
{
    let mut out: Vec<Value> = Vec::new();
    let mut i: usize = 0;
    while i < v.len()
        invariant
            i <= v@.len(),
            json_items(out@) == v@.take(i as int).map_values(|o: EventOverride| override_json(o)),
        decreases v@.len() - i,
    {
        let ghost before = out@;
        out.push(override_value(&v[i]));
        proof {
            assert(out@.drop_last() =~= before);
            assert(v@.take(i + 1).map_values(|o: EventOverride| override_json(o)) =~= v@.take(
                i as int,
            ).map_values(|o: EventOverride| override_json(o)).push(override_json(v@[i as int])));
        }
        i = i + 1;
    }
    assert(v@.take(i as int) =~= v@);
    out
}

pub fn json_event(row: &EventRow) -> (r: Value)
    ensures
        r@ == Json::Obj(obj_build(event_members(*row))),
{
    let mut pairs: Vec<(&str, Value)> = Vec::new();
    pairs.push(("uid", Value::String(row.uid.clone())));
    if !row.seal.as_str().is_empty() {
        pairs.push(("seal", Value::String(row.seal.clone())));
        pairs.push(("createdAt", Value::String(row.created_at.clone())));
        pairs.push(("updatedAt", Value::String(row.updated_at.clone())));
        assert(member_views(pairs@) =~= event_members(*row));
        return Value::object(pairs.as_slice());
    }
    pairs.push(("summary", Value::String(row.summary.clone())));
    pairs.push(("description", Value::String(row.description.clone())));
    pairs.push(("location", Value::String(row.location.clone())));
    pairs.push(("start", Value::String(row.dtstart.clone())));
    pairs.push(("end", Value::String(row.dtend.clone())));
    pairs.push(("allDay", Value::Bool(row.all_day)));
    pairs.push(("transparent", Value::Bool(row.transparent)));
    pairs.push(("sequence", Value::Number(row.sequence)));
    pairs.push(("createdAt", Value::String(row.created_at.clone())));
    pairs.push(("updatedAt", Value::String(row.updated_at.clone())));
    let ghost plain = member_views(pairs@);
    if !row.rrule.as_str().is_empty() {
        pairs.push(("rrule", Value::String(row.rrule.clone())));
    }
    if !row.tzid.as_str().is_empty() {
        pairs.push(("timeZone", Value::String(row.tzid.clone())));
    }
    if row.exdates.len() > 0 {
        let items = text_values(&row.exdates);
        pairs.push(("exdates", Value::Array(items)));
    }
    if row.overrides.len() > 0 {
        let items = override_values(&row.overrides);
        pairs.push(("overrides", Value::Array(items)));
    }
    assert(member_views(pairs@) =~= event_members(*row));
    Value::object(pairs.as_slice())
}

// ---- what a write stores ------------------------------------------------------------

/// A calendar's name: trimmed, `Almanac` when absent or blank, at most 80 octets.
pub open spec fn calendar_name_spec(name: Option<Seq<char>>) -> Result<Seq<char>, Seq<char>> {
    let t = trim(
        match name {
            Some(n) => n,
            None => "Almanac"@,
        },
    );
    let n = if t.len() == 0 {
        "Almanac"@
    } else {
        t
    };
    if utf8_len(n) > 80 {
        Err("name is too long"@)
    } else {
        Ok(n)
    }
}

pub fn calendar_name(name: Option<&str>) -> (r: Result<String, String>)
    ensures
        match r {
            Ok(n) => calendar_name_spec(opt_view(name)) == Ok::<Seq<char>, Seq<char>>(n@),
            Err(e) => calendar_name_spec(opt_view(name)) == Err::<Seq<char>, Seq<char>>(e@),
        },
{
    let t = match name {
        Some(n) => trimmed(n),
        None => trimmed("Almanac"),
    };
    let n = if t.as_str().is_empty() {
        owned("Almanac")
    } else {
        t
    };
    if utf8_longer_than(n.as_str(), 80) {
        return Err(owned("name is too long"));
    }
    Ok(n)
}

/// Which fields of the `home` calendar differ from the environment, in the
/// order `agent_key`, `feed_token`, `name`.
pub open spec fn home_changes_spec(
    existing: CalendarRow,
    key_hash: Seq<char>,
    feed_token: Seq<char>,
    name: Seq<char>,
) -> Seq<Seq<char>> {
    let a: Seq<Seq<char>> = if existing.key_hash@ != key_hash {
        seq!["agent_key"@]
    } else {
        Seq::empty()
    };
    let b = if existing.feed_token@ != feed_token {
        a.push("feed_token"@)
    } else {
        a
    };
    if existing.name@ != name {
        b.push("name"@)
    } else {
        b
    }
}

pub fn home_changes(existing: &CalendarRow, key_hash: &str, feed_token: &str, name: &str) -> (r: Vec<
    &'static str,
>)
    ensures
        str_texts(r@) == home_changes_spec(*existing, key_hash@, feed_token@, name@),
{
    let mut changed: Vec<&'static str> = Vec::new();
    if !str_eq(existing.key_hash.as_str(), key_hash) {
        changed.push("agent_key");
    }
    if !str_eq(existing.feed_token.as_str(), feed_token) {
        changed.push("feed_token");
    }
    if !str_eq(existing.name.as_str(), name) {
        changed.push("name");
    }
    assert(str_texts(changed@) =~= home_changes_spec(*existing, key_hash@, feed_token@, name@));
    changed
}

/// The uid a write uses: the one given, else the generated one. It must be valid.
pub open spec fn chosen_uid(given: Option<Seq<char>>, generated: Seq<char>) -> Seq<char> {
    match given {
        Some(g) => g,
        None => generated,
    }
}

pub fn choose_uid(given: &Option<String>, generated: &str) -> (r: Result<String, String>)
    ensures
        r is Ok <==> valid_uid(chosen_uid(ostr(*given), generated@)),
        r matches Ok(u) ==> u@ == chosen_uid(ostr(*given), generated@),
        r matches Err(e) ==> e@ == uid_message(),
{
    let uid = match given {
        Some(g) => g.clone(),
        None => owned(generated),
    };
    check_uid(uid.as_str())?;
    Ok(uid)
}

/// The fields an event write stores. The row's sequence goes up by one when
/// the write replaces an existing row.
#[derive(Debug)]
pub struct EventWrite {
    pub summary: String,
    pub description: String,
    pub location: String,
    pub dtstart: String,
    pub dtend: String,
    pub all_day: bool,
    pub transparent: bool,
    pub rrule: String,
    pub tzid: String,
}

pub struct EventWriteView {
    pub summary: Seq<char>,
    pub description: Seq<char>,
    pub location: Seq<char>,
    pub dtstart: Seq<char>,
    pub dtend: Seq<char>,
    pub all_day: bool,
    pub transparent: bool,
    pub rrule: Seq<char>,
    pub tzid: Seq<char>,
}

impl View for EventWrite {
    type V = EventWriteView;

    open spec fn view(&self) -> EventWriteView {
        EventWriteView {
            summary: self.summary@,
            description: self.description@,
            location: self.location@,
            dtstart: self.dtstart@,
            dtend: self.dtend@,
            all_day: self.all_day,
            transparent: self.transparent,
            rrule: self.rrule@,
            tzid: self.tzid@,
        }
    }
}

pub open spec fn or_empty(o: Option<Seq<char>>) -> Seq<char> {
    match o {
        Some(s) => s,
        None => Seq::empty(),
    }
}

/// The times a write stores: wall-clock for a series, absolute for an event
/// leaving its series, else as given.
pub open spec fn stored_times(
    start: Seq<char>,
    end: Option<Seq<char>>,
    all_day: bool,
    rrule: Seq<char>,
    leaving_series: bool,
    previous_tz: Seq<char>,
) -> Result<(Seq<char>, Seq<char>, bool), Seq<char>> {
    if rrule.len() > 0 {
        resolve_for_event_spec(start, end, all_day, true)
    } else if leaving_series {
        resolve_after_series_spec(start, end, all_day, previous_tz)
    } else {
        resolve_times_spec(start, end, all_day)
    }
}

fn stored_times_exec(
    start: &str,
    end: Option<&str>,
    all_day: bool,
    rrule: &str,
    leaving_series: bool,
    previous_tz: &str,
) -> (r: Result<Times, String>)
    ensures
        times_view(r) == stored_times(start@, opt_view(end), all_day, rrule@, leaving_series, previous_tz@),
{
    if !rrule.is_empty() {
        resolve_for_event(start, end, all_day, true)
    } else if leaving_series {
        resolve_after_series(start, end, all_day, previous_tz)
    } else {
        resolve_times(start, end, all_day)
    }
}

/// `upsert_event`: a new row, or a full replacement of the row `existing`.
/// Text left out of the input keeps the existing row's, else is empty; an
/// event is transparent unless told otherwise.
pub open spec fn upsert_write(input: EventInputView, existing: Option<EventRow>) -> Result<
    EventWriteView,
    Seq<char>,
> {
    let all_day = input.all_day == Some(true) || ymd_of(input.start) is Some;
    let had_exceptions = match existing {
        Some(e) => e.exdates@.len() > 0 || e.overrides@.len() > 0,
        None => false,
    };
    let all_day_changed = match existing {
        Some(e) => e.all_day != all_day,
        None => false,
    };
    match finalize_recurrence_spec(
        all_day,
        or_empty(input.rrule),
        or_empty(input.time_zone),
        input.time_zone is Some,
        had_exceptions,
        all_day_changed,
    ) {
        Err(e) => Err(e),
        Ok((rrule, tzid)) => {
            let was_series = match existing {
                Some(e) => e.rrule@.len() > 0,
                None => false,
            };
            let previous_tz = match existing {
                Some(e) => e.tzid@,
                None => Seq::empty(),
            };
            match stored_times(
                input.start,
                input.end,
                all_day,
                rrule,
                was_series && rrule.len() == 0,
                previous_tz,
            ) {
                Err(e) => Err(e),
                Ok((dtstart, dtend, ad)) => Ok(
                    EventWriteView {
                        summary: input.summary,
                        description: match input.description {
                            Some(d) => d,
                            None => match existing {
                                Some(e) => e.description@,
                                None => Seq::empty(),
                            },
                        },
                        location: match input.location {
                            Some(l) => l,
                            None => match existing {
                                Some(e) => e.location@,
                                None => Seq::empty(),
                            },
                        },
                        dtstart,
                        dtend,
                        all_day: ad,
                        transparent: match input.transparent {
                            Some(t) => t,
                            None => match existing {
                                Some(e) => e.transparent,
                                None => true,
                            },
                        },
                        rrule,
                        tzid,
                    },
                ),
            }
        },
    }
}

fn opt_str(o: &Option<String>) -> (r: Option<&str>)
    ensures
        opt_view(r) == ostr(*o),
{
    match o {
        Some(s) => Some(s.as_str()),
        None => None,
    }
}

pub fn plan_upsert(input: &EventInput, existing: &Option<EventRow>) -> (r: Result<EventWrite, String>)
    ensures
        match r {
            Ok(w) => upsert_write(input@, *existing) == Ok::<EventWriteView, Seq<char>>(w@),
            Err(e) => upsert_write(input@, *existing) == Err::<EventWriteView, Seq<char>>(e@),
        },
{
    let all_day = input.all_day == Some(true) || is_ymd(input.start.as_str());
    let rrule_raw = match &input.rrule {
        Some(r) => r.as_str(),
        None => "",
    };
    let tz_raw = match &input.time_zone {
        Some(t) => t.as_str(),
        None => "",
    };
    proof {
        reveal_strlit("");
    }
    let (had_exceptions, all_day_changed, was_series, previous_tz) = match existing {
        Some(e) => (e.exdates.len() > 0 || e.overrides.len() > 0, e.all_day != all_day, !e.rrule.as_str().is_empty(), e.tzid.as_str()),
        None => (false, false, false, ""),
    };
    let (rrule, tzid) = finalize_recurrence(
        all_day,
        rrule_raw,
        tz_raw,
        input.time_zone.is_some(),
        had_exceptions,
        all_day_changed,
    )?;
    let times = stored_times_exec(
        input.start.as_str(),
        opt_str(&input.end),
        all_day,
        rrule.as_str(),
        was_series && rrule.as_str().is_empty(),
        previous_tz,
    )?;
    let description = match &input.description {
        Some(d) => d.clone(),
        None => match existing {
            Some(e) => e.description.clone(),
            None => String::new(),
        },
    };
    let location = match &input.location {
        Some(l) => l.clone(),
        None => match existing {
            Some(e) => e.location.clone(),
            None => String::new(),
        },
    };
    let transparent = match input.transparent {
        Some(t) => t,
        None => match existing {
            Some(e) => e.transparent,
            None => true,
        },
    };
    Ok(EventWrite {
        summary: input.summary.clone(),
        description,
        location,
        dtstart: times.dtstart,
        dtend: times.dtend,
        all_day: times.all_day,
        transparent,
        rrule,
        tzid,
    })
}

/// `patch_event`: each field left out of the patch keeps the row's value.
pub open spec fn patch_write(existing: EventRow, patch: EventPatchView) -> Result<
    EventWriteView,
    Seq<char>,
> {
    let start = match patch.start {
        Some(s) => s,
        None => existing.dtstart@,
    };
    let all_day = match patch.all_day {
        Some(b) => b,
        None => existing.all_day,
    };
    let end = match patch.end {
        Some(e) => e,
        None => existing.dtend@,
    };
    let rrule_raw = match patch.rrule {
        Some(r) => r,
        None => existing.rrule@,
    };
    let tz_raw = match patch.time_zone {
        Some(t) => t,
        None => existing.tzid@,
    };
    match finalize_recurrence_spec(
        all_day,
        rrule_raw,
        tz_raw,
        patch.time_zone is Some,
        existing.exdates@.len() > 0 || existing.overrides@.len() > 0,
        existing.all_day != all_day,
    ) {
        Err(e) => Err(e),
        Ok((rrule, tzid)) => match stored_times(
            start,
            Some(end),
            all_day,
            rrule,
            existing.rrule@.len() > 0 && rrule.len() == 0,
            existing.tzid@,
        ) {
            Err(e) => Err(e),
            Ok((dtstart, dtend, ad)) => Ok(
                EventWriteView {
                    summary: match patch.summary {
                        Some(x) => x,
                        None => existing.summary@,
                    },
                    description: match patch.description {
                        Some(x) => x,
                        None => existing.description@,
                    },
                    location: match patch.location {
                        Some(x) => x,
                        None => existing.location@,
                    },
                    dtstart,
                    dtend,
                    all_day: ad,
                    transparent: match patch.transparent {
                        Some(t) => t,
                        None => existing.transparent,
                    },
                    rrule,
                    tzid,
                },
            ),
        },
    }
}

fn or_text(o: &Option<String>, fallback: &String) -> (r: String)
    ensures
        r@ == (match ostr(*o) {
            Some(x) => x,
            None => fallback@,
        }),
{
    match o {
        Some(x) => x.clone(),
        None => fallback.clone(),
    }
}

pub fn plan_patch(existing: &EventRow, patch: &EventPatch) -> (r: Result<EventWrite, String>)
    ensures
        match r {
            Ok(w) => patch_write(*existing, patch@) == Ok::<EventWriteView, Seq<char>>(w@),
            Err(e) => patch_write(*existing, patch@) == Err::<EventWriteView, Seq<char>>(e@),
        },
{
    let start = or_text(&patch.start, &existing.dtstart);
    let all_day = match patch.all_day {
        Some(b) => b,
        None => existing.all_day,
    };
    let end = or_text(&patch.end, &existing.dtend);
    let rrule_raw = or_text(&patch.rrule, &existing.rrule);
    let tz_raw = or_text(&patch.time_zone, &existing.tzid);
    let (rrule, tzid) = finalize_recurrence(
        all_day,
        rrule_raw.as_str(),
        tz_raw.as_str(),
        patch.time_zone.is_some(),
        existing.exdates.len() > 0 || existing.overrides.len() > 0,
        existing.all_day != all_day,
    )?;
    let times = stored_times_exec(
        start.as_str(),
        Some(end.as_str()),
        all_day,
        rrule.as_str(),
        !existing.rrule.as_str().is_empty() && rrule.as_str().is_empty(),
        existing.tzid.as_str(),
    )?;
    Ok(EventWrite {
        summary: or_text(&patch.summary, &existing.summary),
        description: or_text(&patch.description, &existing.description),
        location: or_text(&patch.location, &existing.location),
        dtstart: times.dtstart,
        dtend: times.dtend,
        all_day: times.all_day,
        transparent: match patch.transparent {
            Some(t) => t,
            None => existing.transparent,
        },
        rrule,
        tzid,
    })
}

/// The event a series operation works on: it must exist and recur.
pub open spec fn series_of(found: Option<EventRow>) -> Result<EventRow, Seq<char>> {
    match found {
        None => Err("not found"@),
        Some(e) => if e.rrule@.len() == 0 {
            Err("event is not recurring"@)
        } else {
            Ok(e)
        },
    }
}

pub fn require_series(found: Option<EventRow>) -> (r: Result<EventRow, String>)
    ensures
        match r {
            Ok(e) => series_of(found) == Ok::<EventRow, Seq<char>>(e),
            Err(m) => series_of(found) == Err::<EventRow, Seq<char>>(m@),
        },
{
    match found {
        None => Err(owned("not found")),
        Some(e) => if e.rrule.as_str().is_empty() {
            Err(owned("event is not recurring"))
        } else {
            Ok(e)
        },
    }
}

/// The recurrence id an exception of `event` is stored under.
pub open spec fn exception_target(event: EventRow, recurrence_id: Seq<char>) -> Result<
    Seq<char>,
    Seq<char>,
> {
    if event.rrule@.len() == 0 {
        Err("event is not recurring"@)
    } else {
        recurrence_id_of(recurrence_id, event.all_day)
    }
}

pub fn exception_id(event: &EventRow, recurrence_id: &str) -> (r: Result<String, String>)
    ensures
        match r {
            Ok(t) => exception_target(*event, recurrence_id@) == Ok::<Seq<char>, Seq<char>>(t@),
            Err(e) => exception_target(*event, recurrence_id@) == Err::<Seq<char>, Seq<char>>(e@),
        },
{
    if event.rrule.as_str().is_empty() {
        return Err(owned("event is not recurring"));
    }
    normalize_recurrence_id(recurrence_id, event.all_day)
}

/// `put_exdate`: the date to exclude, and whether it was not excluded before.
pub fn plan_exdate(event: &EventRow, recurrence_id: &str) -> (r: Result<(String, bool), String>)
    ensures
        match r {
            Ok((t, created)) => exception_target(*event, recurrence_id@) == Ok::<
                Seq<char>,
                Seq<char>,
            >(t@) && created == !texts(event.exdates@).contains(t@),
            Err(e) => exception_target(*event, recurrence_id@) == Err::<Seq<char>, Seq<char>>(e@),
        },
{
    let rid = exception_id(event, recurrence_id)?;
    let mut i: usize = 0;
    while i < event.exdates.len()
        invariant
            i <= event.exdates@.len(),
            forall|k: int| 0 <= k < i ==> event.exdates@[k]@ != rid@,
            exception_target(*event, recurrence_id@) == Ok::<Seq<char>, Seq<char>>(rid@),
        decreases event.exdates@.len() - i,
    {
        if str_eq(event.exdates[i].as_str(), rid.as_str()) {
            assert(texts(event.exdates@)[i as int] == rid@);
            assert(texts(event.exdates@).contains(rid@));
            return Ok((rid, false));
        }
        i = i + 1;
    }
    proof {
        if texts(event.exdates@).contains(rid@) {
            let k = choose|k: int| 0 <= k < texts(event.exdates@).len() && texts(event.exdates@)[k] == rid@;
            assert(event.exdates@[k]@ == rid@);
        }
    }
    Ok((rid, true))
}

/// The override of the series at `rid`, if it has one.
pub open spec fn override_at(overrides: Seq<EventOverride>, rid: Seq<char>) -> Option<EventOverride>
    decreases overrides.len(),
{
    if overrides.len() == 0 {
        None
    } else if overrides[0].recurrence_id@ == rid {
        Some(overrides[0])
    } else {
        override_at(overrides.drop_first(), rid)
    }
}

/// The row an override write stores.
#[derive(Debug)]
pub struct OverrideWrite {
    pub recurrence_id: String,
    pub summary: String,
    pub description: String,
    pub location: String,
    pub dtstart: String,
    pub dtend: String,
    pub all_day: bool,
    pub transparent: bool,
    pub sequence: i64,
    /// No override stood at this recurrence id before.
    pub created: bool,
}

pub struct OverrideWriteView {
    pub recurrence_id: Seq<char>,
    pub summary: Seq<char>,
    pub description: Seq<char>,
    pub location: Seq<char>,
    pub dtstart: Seq<char>,
    pub dtend: Seq<char>,
    pub all_day: bool,
    pub transparent: bool,
    pub sequence: int,
    pub created: bool,
}

impl View for OverrideWrite {
    type V = OverrideWriteView;

    open spec fn view(&self) -> OverrideWriteView {
        OverrideWriteView {
            recurrence_id: self.recurrence_id@,
            summary: self.summary@,
            description: self.description@,
            location: self.location@,
            dtstart: self.dtstart@,
            dtend: self.dtend@,
            all_day: self.all_day,
            transparent: self.transparent,
            sequence: self.sequence as int,
            created: self.created,
        }
    }
}

/// `put_override`: the occurrence keeps the series' text and transparency
/// where the input leaves them out; replacing an override raises its sequence.
pub open spec fn override_write(event: EventRow, input: OverrideInputView) -> Result<
    OverrideWriteView,
    Seq<char>,
> {
    match exception_target(event, input.recurrence_id) {
        Err(e) => Err(e),
        Ok(rid) => match resolve_for_event_spec(input.start, input.end, event.all_day, true) {
            Err(e) => Err(e),
            Ok((dtstart, dtend, ad)) => if input.summary matches Some(t) && trim(t).len() == 0 {
                Err("summary cannot be empty"@)
            } else if input.summary matches Some(t) && utf8_len(t) > 512 {
                Err("summary is too long"@)
            } else if input.description matches Some(d) && utf8_len(d) > 4000 {
                Err("description is too long"@)
            } else if input.location matches Some(l) && utf8_len(l) > 512 {
                Err("location is too long"@)
            } else {
                let prior = override_at(event.overrides@, rid);
                Ok(
                    OverrideWriteView {
                        recurrence_id: rid,
                        summary: match input.summary {
                            Some(x) => x,
                            None => event.summary@,
                        },
                        description: match input.description {
                            Some(x) => x,
                            None => event.description@,
                        },
                        location: match input.location {
                            Some(x) => x,
                            None => event.location@,
                        },
                        dtstart,
                        dtend,
                        all_day: ad,
                        transparent: match input.transparent {
                            Some(t) => t,
                            None => event.transparent,
                        },
                        sequence: match prior {
                            Some(o) => o.sequence + 1,
                            None => 0,
                        },
                        created: prior is None,
                    },
                )
            },
        },
    }
}

fn find_override(overrides: &Vec<EventOverride>, rid: &str) -> (r: Option<usize>)
    ensures
        match r {
            Some(k) => k < overrides@.len() && override_at(overrides@, rid@) == Some(overrides@[k as int]),
            None => override_at(overrides@, rid@) is None,
        },
{
    let mut i: usize = 0;
    assert(overrides@.skip(0) =~= overrides@);
    while i < overrides.len()
        invariant
            i <= overrides@.len(),
            override_at(overrides@, rid@) == override_at(overrides@.skip(i as int), rid@),
        decreases overrides@.len() - i,
    {
        assert(overrides@.skip(i as int).drop_first() =~= overrides@.skip(i + 1));
        if str_eq(overrides[i].recurrence_id.as_str(), rid) {
            return Some(i);
        }
        i = i + 1;
    }
    None
}

/// The override write for `input` on the series `event`. The revision of
/// the override it replaces must still be able to go up by one.
pub fn plan_override(event: &EventRow, input: &OverrideInput) -> (r: Result<OverrideWrite, String>)
    requires
        exception_target(*event, input@.recurrence_id) matches Ok(rid) ==> (override_at(
            event.overrides@,
            rid,
        ) matches Some(o) ==> o.sequence < i64::MAX),
    ensures
        match r {
            Ok(w) => override_write(*event, input@) == Ok::<OverrideWriteView, Seq<char>>(w@),
            Err(e) => override_write(*event, input@) == Err::<OverrideWriteView, Seq<char>>(e@),
        },
{
    let rid = exception_id(event, input.recurrence_id.as_str())?;
    let times = resolve_for_event(input.start.as_str(), opt_str(&input.end), event.all_day, true)?;
    if let Some(t) = &input.summary {
        if trimmed(t.as_str()).as_str().is_empty() {
            return Err(owned("summary cannot be empty"));
        }
        if utf8_longer_than(t.as_str(), 512) {
            return Err(owned("summary is too long"));
        }
    }
    if let Some(d) = &input.description {
        if utf8_longer_than(d.as_str(), 4000) {
            return Err(owned("description is too long"));
        }
    }
    if let Some(l) = &input.location {
        if utf8_longer_than(l.as_str(), 512) {
            return Err(owned("location is too long"));
        }
    }
    let (sequence, created) = match find_override(&event.overrides, rid.as_str()) {
        Some(k) => (event.overrides[k].sequence + 1, false),
        None => (0, true),
    };
    Ok(OverrideWrite {
        recurrence_id: rid,
        summary: or_text(&input.summary, &event.summary),
        description: or_text(&input.description, &event.description),
        location: or_text(&input.location, &event.location),
        dtstart: times.dtstart,
        dtend: times.dtend,
        all_day: times.all_day,
        transparent: match input.transparent {
            Some(t) => t,
            None => event.transparent,
        },
        sequence,
        created,
    })
}

/// A calendar's JSON never carries its key hash: calendars that differ only
/// in it show the same JSON.
pub proof fn lemma_calendar_json_hides_key_hash(cal: CalendarRow, other: CalendarRow, base: Seq<char>)
    requires
        cal.id@ == other.id@,
        cal.name@ == other.name@,
        cal.feed_token@ == other.feed_token@,
        cal.created_at@ == other.created_at@,
        cal.feed@ == other.feed@,
    ensures
        calendar_members(cal, base) == calendar_members(other, base),
{
}

// ---- the database file --------------------------------------------------------------

/// What the database file on disk is, by its first bytes.
#[derive(Debug, Clone, Copy, PartialEq, Eq, Structural)]
pub enum FileKind {
    Missing,
    Plaintext,
    Encrypted,
}

/// The first 16 bytes of an unencrypted SQLite file, `SQLite format 3\0`.
/// SQLCipher replaces them.
pub open spec fn sqlite_header() -> Seq<u8> {
    seq![83u8, 81u8, 76u8, 105u8, 116u8, 101u8, 32u8, 102u8, 111u8, 114u8, 109u8, 97u8, 116u8, 32u8, 51u8, 0u8]
}

/// The file by its first read: `None` when it cannot be opened, `Some(None)`
/// when the read fails, else the bytes read (up to 16). Empty or absent is
/// missing; the plain SQLite header is plaintext; anything else is taken to
/// be encrypted.
pub open spec fn file_kind_of(first: Option<Option<Seq<u8>>>) -> FileKind {
    match first {
        None => FileKind::Missing,
        Some(None) => FileKind::Encrypted,
        Some(Some(b)) => if b.len() == 0 {
            FileKind::Missing
        } else if b == sqlite_header() {
            FileKind::Plaintext
        } else {
            FileKind::Encrypted
        },
    }
}

pub open spec fn first_read_view(first: Option<Option<&[u8]>>) -> Option<Option<Seq<u8>>> {
    match first {
        None => None,
        Some(None) => Some(None),
        Some(Some(b)) => Some(Some(b@)),
    }
}

pub fn file_kind(first: Option<Option<&[u8]>>) -> (k: FileKind)
    ensures
        k == file_kind_of(first_read_view(first)),
{
    match first {
        None => FileKind::Missing,
        Some(None) => FileKind::Encrypted,
        Some(Some(b)) => {
            if b.len() == 0 {
                return FileKind::Missing;
            }
            let header: [u8; 16] = [83, 81, 76, 105, 116, 101, 32, 102, 111, 114, 109, 97, 116, 32, 51, 0];
            if b.len() != 16 {
                assert(b@ != sqlite_header());
                return FileKind::Encrypted;
            }
            let mut i: usize = 0;
            while i < 16
                invariant
                    i <= 16,
                    b@.len() == 16,
                    first_read_view(first) == Some(Some(b@)),
                    header@ == sqlite_header(),
                    forall|k: int| 0 <= k < i ==> b@[k] == sqlite_header()[k],
                decreases 16 - i,
            {
                if b[i] != header[i] {
                    assert(b@[i as int] != sqlite_header()[i as int]);
                    return FileKind::Encrypted;
                }
                i = i + 1;
            }
            assert(b@ =~= sqlite_header());
            FileKind::Plaintext
        },
    }
}

/// An event `PUT` keeps the description, location and transparency it
/// leaves out.
pub proof fn lemma_event_put_keeps_what_it_leaves_out(m: Seq<(Seq<char>, Json)>, existing: EventRow)
    requires
        event_input_of(Json::Obj(m)) is Ok,
        upsert_write(event_input_of(Json::Obj(m))->Ok_0, Some(existing)) is Ok,
    ensures
        ({
            let w = upsert_write(event_input_of(Json::Obj(m))->Ok_0, Some(existing))->Ok_0;
            &&& obj_get(m, "description"@) is None ==> w.description == existing.description@
            &&& obj_get(m, "location"@) is None ==> w.location == existing.location@
            &&& obj_get(m, "transparent"@) is None ==> w.transparent == existing.transparent
        }),
{
}

/// The times of a one-off event as a write stores them: two dates for an
/// all-day event, else the UTC texts of two instants with four-digit years;
/// the end after the start.
pub open spec fn stored_one_off_times(e: EventRow, start_ms: int, end_ms: int) -> bool {
    if e.all_day {
        ymd_of(e.dtstart@) is Some && ymd_of(e.dtend@) is Some && key_lt(e.dtstart@, e.dtend@)
    } else {
        &&& e.dtstart@ == utc_text(start_ms) && four_digit_year(start_ms)
        &&& e.dtend@ == utc_text(end_ms) && four_digit_year(end_ms)
        &&& key_lt(e.dtstart@, e.dtend@)
    }
}

/// A patch that leaves the times, the rule and the zone out of a stored
/// one-off event keeps its start, end and all-day flag as they are.
#[verifier::spinoff_prover]
pub proof fn lemma_patch_keeps_times(existing: EventRow, patch: EventPatchView, start_ms: int, end_ms: int)
    requires
        patch.start is None,
        patch.end is None,
        patch.all_day is None,
        patch.rrule is None,
        patch.time_zone is None,
        existing.rrule@.len() == 0,
        existing.tzid@.len() == 0,
        existing.exdates@.len() == 0,
        existing.overrides@.len() == 0,
        stored_one_off_times(existing, start_ms, end_ms),
    ensures
        patch_write(existing, patch) matches Ok(w) && w.dtstart == existing.dtstart@ && w.dtend
            == existing.dtend@ && w.all_day == existing.all_day && w.rrule.len() == 0 && w.tzid.len() == 0,
{
    if !existing.all_day {
        lemma_utc_text_roundtrip(start_ms);
        lemma_utc_text_roundtrip(end_ms);
    }
}

/// The rule, zone and times of a series as a write stores them, read from
/// `raw_rule`, `raw_start` and `raw_end`: the rule in canonical form; two
/// dates and no zone for an all-day series, else two wall-clock times and a
/// supported zone; the end after the start.
pub open spec fn stored_series(e: EventRow, raw_rule: Seq<char>, raw_start: Seq<char>, raw_end: Seq<char>) -> bool {
    &&& canonical_rrule(raw_rule, e.all_day) == Ok::<Seq<char>, Seq<char>>(e.rrule@)
    &&& if e.all_day {
        ymd_of(e.dtstart@) is Some && ymd_of(e.dtend@) is Some && e.tzid@.len() == 0
    } else {
        wall_of(raw_start) == Some(e.dtstart@) && wall_of(raw_end) == Some(e.dtend@)
            && allowed_names().contains(e.tzid@)
    }
    &&& key_lt(e.dtstart@, e.dtend@)
}

proof fn lemma_series_rule(raw_rule: Seq<char>, r: Seq<char>, all_day: bool)
    requires
        canonical_rrule(raw_rule, all_day) == Ok::<Seq<char>, Seq<char>>(r),
    ensures
        canonical_rrule(r, all_day) == Ok::<Seq<char>, Seq<char>>(r),
        r.len() > 0,
{
    lemma_canonical_rrule_stable(raw_rule, all_day);
    if r.len() == 0 {
        assert(trim(r) =~= r);
    }
}

proof fn lemma_series_recurrence(r: Seq<char>, tz: Seq<char>, all_day: bool, had_exceptions: bool)
    requires
        canonical_rrule(r, all_day) == Ok::<Seq<char>, Seq<char>>(r),
        r.len() > 0,
        all_day ==> tz.len() == 0,
        !all_day ==> allowed_names().contains(tz),
    ensures
        finalize_recurrence_spec(all_day, r, tz, false, had_exceptions, false) == Ok::<
            (Seq<char>, Seq<char>),
            Seq<char>,
        >((r, tz)),
{
    lemma_allowed_nonempty(tz);
    if all_day {
        assert(tz =~= Seq::<char>::empty());
    }
}

#[verifier::spinoff_prover]
proof fn lemma_series_times(start: Seq<char>, end: Seq<char>, r: Seq<char>, all_day: bool, tz: Seq<char>, raw_start: Seq<char>, raw_end: Seq<char>)
    requires
        r.len() > 0,
        all_day ==> ymd_of(start) is Some && ymd_of(end) is Some,
        !all_day ==> wall_of(raw_start) == Some(start) && wall_of(raw_end) == Some(end),
        key_lt(start, end),
    ensures
        stored_times(start, Some(end), all_day, r, false, tz) == Ok::<(Seq<char>, Seq<char>, bool), Seq<char>>(
            (start, end, all_day),
        ),
{
    if !all_day {
        lemma_wall_of_idempotent(raw_start);
        lemma_wall_of_idempotent(raw_end);
    }
}

/// A patch that leaves the times, the rule and the zone out of a stored
/// series keeps its rule, zone, start, end and all-day flag as they are.
pub proof fn lemma_patch_keeps_series(
    existing: EventRow,
    patch: EventPatchView,
    raw_rule: Seq<char>,
    raw_start: Seq<char>,
    raw_end: Seq<char>,
)
    requires
        patch.start is None,
        patch.end is None,
        patch.all_day is None,
        patch.rrule is None,
        patch.time_zone is None,
        stored_series(existing, raw_rule, raw_start, raw_end),
    ensures
        patch_write(existing, patch) matches Ok(w) && w.rrule == existing.rrule@ && w.tzid
            == existing.tzid@ && w.dtstart == existing.dtstart@ && w.dtend == existing.dtend@
            && w.all_day == existing.all_day,
{
    let r = existing.rrule@;
    let ad = existing.all_day;
    let tz = existing.tzid@;
    let hx = existing.exdates@.len() > 0 || existing.overrides@.len() > 0;
    lemma_series_rule(raw_rule, r, ad);
    lemma_series_recurrence(r, tz, ad, hx);
    lemma_series_times(existing.dtstart@, existing.dtend@, r, ad, tz, raw_start, raw_end);
}

} // verus!
