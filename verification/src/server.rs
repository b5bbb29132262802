//! The decisions of the HTTP service: which route a request takes, what a
//! query string and a form say, who is authorized, and the JSON of the
//! answers. The sockets, the lock and the database calls stay with the
//! program.

use vstd::prelude::*;
use crate::atom::{AtomEntry, atom_text, render_atom};
use crate::ics::{IcsEvent, IcsOverride, IcsTodo, calendar_text, render_calendar, render_todos, todos_text};
use crate::time::{now_iso, utc_text};
use crate::sha256::{lemma_digest_hex_len, sha256_hex, sha256_spec};
use crate::util::hex_text;
use crate::notes::{NoteRow, json_note, note_members};
use crate::todos::{TodoRow, json_todo, todo_members};
use crate::json::{Json, Value, entry_get, insert_entry, json_get, json_items, key_lt, member_views, obj_build, obj_get, obj_insert, parse, parse_json, show, str_lt, stringify};
use vstd::utf8::*;
use crate::text::{ascii_lowercase, chars_of, dec, find_char, find_char_exec, lemma_find_char, lemma_find_char_at, lower, lower_seq, owned, push_dec, push_range, str_eq, text_eq, texts, trim, trimmed, utf8_len, utf8_longer_than};
use crate::http::{Request, Response, header_or_empty, json_response, pair_texts, text_response, utf8_text};
use crate::db::{CalendarRow, EventOverride, EventRow, calendar_members, event_members, has_char, json_calendar, json_calendar_created, json_event, normalize_recurrence_id, opt_view, ostr, override_at, recurrence_id_of, strip_trailing, strip_trailing_slashes};

verus! {

// ---- percent-decoding ---------------------------------------------------------------

/// What `String::from_utf8_lossy` makes of some bytes: each invalid sequence
/// becomes U+FFFD.
pub uninterp spec fn lossy_utf8(bytes: Seq<u8>) -> Seq<char>;

/// `String::from_utf8_lossy`. Valid UTF-8 is decoded as it is; what it does
/// with invalid bytes is left to the name `lossy_utf8`.
#[verifier::external_body]
fn lossy_text(bytes: &[u8]) -> (out: String)
    ensures
        out@ == lossy_utf8(bytes@),
        valid_utf8(bytes@) ==> out@ == decode_utf8(bytes@),
{
    String::from_utf8_lossy(bytes).into_owned()
}

/// The value of a hexadecimal digit byte, any case.
pub open spec fn hex_byte_value(b: u8) -> Option<int> {
    if 48 <= b <= 57 {
        Some(b - 48)
    } else if 97 <= b <= 102 {
        Some(b - 87)
    } else if 65 <= b <= 70 {
        Some(b - 55)
    } else {
        None
    }
}

fn hex_digit(b: u8) -> (r: Option<u8>)
    ensures
        match r {
            Some(v) => hex_byte_value(b) == Some(v as int),
            None => hex_byte_value(b) is None,
        },
{
    if 48 <= b && b <= 57 {
        Some(b - 48)
    } else if 97 <= b && b <= 102 {
        Some(b - 87)
    } else if 65 <= b && b <= 70 {
        Some(b - 55)
    } else {
        None
    }
}

/// The byte two hexadecimal digits spell.
pub fn hex_pair(hi: u8, lo: u8) -> (r: Option<u8>)
    ensures
        match r {
            Some(v) => hex_byte_value(hi) is Some && hex_byte_value(lo) is Some && v as int
                == hex_byte_value(hi).unwrap() * 16 + hex_byte_value(lo).unwrap(),
            None => hex_byte_value(hi) is None || hex_byte_value(lo) is None,
        },
{
    let h = hex_digit(hi)?;
    let l = hex_digit(lo)?;
    Some(h * 16 + l)
}

/// `+` is a space and `%XX` a byte; a `%` without two hex digits stays.
pub open spec fn percent_decode(b: Seq<u8>) -> Seq<u8>
    decreases b.len(),
{
    if b.len() == 0 {
        Seq::empty()
    } else if b[0] == 43u8 {
        seq![32u8] + percent_decode(b.drop_first())
    } else if b[0] == 37u8 && b.len() >= 3 && hex_byte_value(b[1]) is Some && hex_byte_value(b[2]) is Some {
        seq![(hex_byte_value(b[1]).unwrap() * 16 + hex_byte_value(b[2]).unwrap()) as u8]
            + percent_decode(b.skip(3))
    } else {
        seq![b[0]] + percent_decode(b.drop_first())
    }
}

/// A decoded form or query value.
pub open spec fn url_text(s: Seq<char>) -> Seq<char> {
    lossy_utf8(percent_decode(encode_utf8(s)))
}

pub fn urlencoding_decode(value: &str) -> (out: String)
    ensures
        out@ == url_text(value@),
{
    let bytes = value.as_bytes();
    let ghost all = bytes@;
    let mut out: Vec<u8> = Vec::new();
    let mut i: usize = 0;
    assert(all.skip(0) =~= all);
    while i < bytes.len()
        invariant
            i <= bytes@.len(),
            all == bytes@,
            out@ + percent_decode(all.skip(i as int)) == percent_decode(all),
        decreases bytes@.len() - i,
    {
        let ghost rest = all.skip(i as int);
        let b = bytes[i];
        if b == 43 {
            assert(rest.drop_first() =~= all.skip(i + 1));
            out.push(32);
            assert(out@ + percent_decode(all.skip(i + 1)) =~= percent_decode(all));
            i = i + 1;
        } else if b == 37 && bytes.len() - i >= 3 {
            match hex_pair(bytes[i + 1], bytes[i + 2]) {
                Some(v) => {
                    assert(rest.skip(3) =~= all.skip(i + 3));
                    out.push(v);
                    assert(out@ + percent_decode(all.skip(i + 3)) =~= percent_decode(all));
                    i = i + 3;
                },
                None => {
                    assert(rest.drop_first() =~= all.skip(i + 1));
                    out.push(b);
                    assert(out@ + percent_decode(all.skip(i + 1)) =~= percent_decode(all));
                    i = i + 1;
                },
            }
        } else {
            assert(rest.drop_first() =~= all.skip(i + 1));
            out.push(b);
            assert(out@ + percent_decode(all.skip(i + 1)) =~= percent_decode(all));
            i = i + 1;
        }
    }
    assert(all.skip(i as int) =~= Seq::<u8>::empty());
    assert(out@ =~= percent_decode(all));
    lossy_text(out.as_slice())
}

// ---- query strings ------------------------------------------------------------------

/// `s` split at each `c`.
pub open spec fn split_char(s: Seq<char>, c: char) -> Seq<Seq<char>>
    decreases s.len(),
{
    let f = find_char(s, c);
    if f >= s.len() || f < 0 {
        seq![s]
    } else {
        seq![s.take(f)] + split_char(s.skip(f + 1), c)
    }
}

/// `key` of `key=value`, the whole pair when it has no `=`.
pub open spec fn pair_key(p: Seq<char>) -> Seq<char> {
    let f = find_char(p, '=');
    if f < p.len() {
        p.take(f)
    } else {
        p
    }
}

/// `value` of `key=value`, empty when the pair has no `=`.
pub open spec fn pair_value(p: Seq<char>) -> Seq<char> {
    let f = find_char(p, '=');
    if f < p.len() {
        p.skip(f + 1)
    } else {
        Seq::empty()
    }
}

/// The decoded value of the first pair whose decoded key is `key`.
pub open spec fn find_param(pairs: Seq<Seq<char>>, key: Seq<char>) -> Option<Seq<char>>
    decreases pairs.len(),
{
    if pairs.len() == 0 {
        None
    } else if url_text(pair_key(pairs[0])) == key {
        Some(url_text(pair_value(pairs[0])))
    } else {
        find_param(pairs.drop_first(), key)
    }
}

/// One query-string parameter of a path, decoded.
pub open spec fn query_value(path: Seq<char>, key: Seq<char>) -> Option<Seq<char>> {
    let q = find_char(path, '?');
    if q >= path.len() {
        None
    } else {
        find_param(split_char(path.skip(q + 1), '&'), key)
    }
}

fn text_range(c: &[char], lo: usize, hi: usize) -> (out: String)
    requires
        lo <= hi <= c@.len(),
    ensures
        out@ == c@.subrange(lo as int, hi as int),
{
    let mut out = String::new();
    push_range(&mut out, c, lo, hi);
    out
}

/// The decoded key and value of the pair `c[lo..hi]`.
fn split_pair(c: &[char], lo: usize, hi: usize) -> (r: (String, String))
    requires
        lo <= hi <= c@.len(),
    ensures
        r.0@ == pair_key(c@.subrange(lo as int, hi as int)),
        r.1@ == pair_value(c@.subrange(lo as int, hi as int)),
{
    let ghost p = c@.subrange(lo as int, hi as int);
    let f = find_char_exec(c, lo, hi, '=');
    proof {
        lemma_find_char(p, '=');
        assert(p.take(f - lo) =~= c@.subrange(lo as int, f as int));
        if f < hi {
            assert(p.skip(f - lo + 1) =~= c@.subrange(f + 1, hi as int));
        } else {
            assert(p =~= c@.subrange(lo as int, f as int));
        }
    }
    if f < hi {
        (text_range(c, lo, f), text_range(c, f + 1, hi))
    } else {
        proof {
            reveal_strlit("");
        }
        (text_range(c, lo, hi), String::new())
    }
}

pub fn query_param(req: &Request, key: &str) -> (r: Option<String>)
    ensures
        match r {
            Some(v) => query_value(req.path@, key@) == Some(v@),
            None => query_value(req.path@, key@) is None,
        },
{
    let c = chars_of(req.path.as_str());
    let q = find_char_exec(c.as_slice(), 0, c.len(), '?');
    proof {
        assert(c@.subrange(0, c@.len() as int) =~= c@);
        lemma_find_char(c@, '?');
    }
    if q == c.len() {
        return None;
    }
    let ghost all = split_char(c@.skip(q + 1), '&');
    let mut start: usize = q + 1;
    let mut i: usize = q + 1;
    while i <= c.len()
        invariant
            q < start <= i <= c@.len(),
            c@ == req.path@,
            query_value(req.path@, key@) == find_param(all, key@),
            all == split_char(c@.skip(q + 1), '&'),
            find_param(all, key@) == find_param(split_char(c@.skip(start as int), '&'), key@),
            forall|k: int| start <= k < i && k < c@.len() ==> c@[k] != '&',
        decreases c@.len() + 1 - i,
    {
        if i == c.len() || c[i] == '&' {
            let ghost t = c@.skip(start as int);
            proof {
                assert forall|j: int| 0 <= j < i - start implies #[trigger] t[j] != '&' by {
                    assert(t[j] == c@[start + j]);
                }
                lemma_find_char_at(t, '&', i - start);
                assert(t.take(i - start) =~= c@.subrange(start as int, i as int));
            }
            let (k, v) = split_pair(c.as_slice(), start, i);
            let dk = urlencoding_decode(k.as_str());
            if str_eq(dk.as_str(), key) {
                proof {
                    if i < c@.len() {
                        assert(split_char(t, '&')[0] == t.take(i - start));
                    } else {
                        assert(t.take(i - start) =~= t);
                        assert(split_char(t, '&') == seq![t]);
                    }
                }
                return Some(urlencoding_decode(v.as_str()));
            }
            if i == c.len() {
                proof {
                    assert(t.take(i - start) =~= t);
                    assert(split_char(t, '&') == seq![t]);
                    assert(seq![t][0] == t);
                    assert(url_text(pair_key(t)) != key@);
                    assert(seq![t].drop_first() =~= Seq::<Seq<char>>::empty());
                    assert(find_param(seq![t], key@) == find_param(seq![t].drop_first(), key@));
                }
                return None;
            }
            proof {
                assert(t.skip(i - start + 1) =~= c@.skip(i + 1));
                assert((seq![t.take(i - start)] + split_char(c@.skip(i + 1), '&')).drop_first()
                    =~= split_char(c@.skip(i + 1), '&'));
            }
            start = i + 1;
        }
        i = i + 1;
    }
    None
}

// ---- who is asking ------------------------------------------------------------------

/// Whether `hay` holds `needle` somewhere.
pub open spec fn has_text(hay: Seq<char>, needle: Seq<char>) -> bool {
    exists|i: int| 0 <= i && i + needle.len() <= hay.len() && #[trigger] hay.subrange(i, i + needle.len()) == needle
}

/// `str::contains` with a text pattern.
pub fn contains_str(hay: &str, needle: &str) -> (b: bool)
    ensures
        b == has_text(hay@, needle@),
{
    let h = chars_of(hay);
    let n = chars_of(needle);
    if n.len() == 0 {
        assert(hay@.subrange(0, 0 + needle@.len() as int) =~= needle@);
        return true;
    }
    if n.len() > h.len() {
        return false;
    }
    let mut i: usize = 0;
    while i <= h.len() - n.len()
        invariant
            1 <= n@.len() <= h@.len(),
            i <= h@.len() - n@.len() + 1,
            h@ == hay@,
            n@ == needle@,
            forall|k: int| 0 <= k < i ==> #[trigger] h@.subrange(k, k + n@.len()) != n@,
        decreases h@.len() - n@.len() + 1 - i,
    {
        if text_eq(h.as_slice(), i, i + n.len(), needle) {
            return true;
        }
        i = i + 1;
    }
    false
}

/// The owner's own calendar is not subject to the caps meant for strangers.
pub fn is_home(cal: &CalendarRow) -> (b: bool)
    ensures
        b == (cal.id@ == "home"@),
{
    str_eq(cal.id.as_str(), "home")
}

/// The token of `Authorization: Bearer <token>`, else empty.
pub open spec fn bearer_token(header: Seq<char>) -> Seq<char> {
    if header.len() >= 7 && header.take(7) == "Bearer "@ {
        header.skip(7)
    } else {
        Seq::empty()
    }
}

pub fn bearer(header: &str) -> (out: String)
    ensures
        out@ == bearer_token(header@),
{
    let c = chars_of(header);
    proof {
        reveal_strlit("Bearer ");
    }
    if c.len() >= 7 && text_eq(c.as_slice(), 0, 7, "Bearer ") {
        assert(c@.subrange(0, 7) =~= c@.take(7));
        assert(c@.subrange(7, c@.len() as int) =~= c@.skip(7));
        return text_range(c.as_slice(), 7, c.len());
    }
    if c.len() >= 7 {
        assert(c@.subrange(0, 7) =~= c@.take(7));
    }
    String::new()
}

/// Equal and not empty, compared in time that does not depend on where the
/// two first differ.
pub fn safe_equal(given: &str, expected: &str) -> (b: bool)
    ensures
        b == (expected@.len() > 0 && given@ == expected@),
{
    if expected.is_empty() {
        return false;
    }
    let g = given.as_bytes();
    let e = expected.as_bytes();
    proof {
        encode_utf8_decode_utf8(given@);
        encode_utf8_decode_utf8(expected@);
    }
    if g.len() != e.len() {
        return false;
    }
    let mut acc: u8 = 0;
    let mut i: usize = 0;
    while i < g.len()
        invariant
            i <= g@.len(),
            g@.len() == e@.len(),
            (acc == 0) == (forall|k: int| 0 <= k < i ==> g@[k] == e@[k]),
        decreases g@.len() - i,
    {
        let a = g[i];
        let b = e[i];
        let next = acc | (a ^ b);
        assert((next == 0) == (acc == 0 && a == b)) by (bit_vector)
            requires
                next == acc | (a ^ b),
        ;
        acc = next;
        i = i + 1;
    }
    assert((acc == 0) == (g@ == e@)) by {
        if acc == 0 {
            assert(g@ =~= e@);
        }
    }
    acc == 0
}

/// A feed token from the path, without a `.ics` or `.atom` ending (any
/// case) when something is left before it.
pub open spec fn feed_token_text(raw: Seq<char>) -> Seq<char> {
    let lower = lower_seq(raw);
    if raw.len() > 4 && lower.skip(raw.len() - 4) == ".ics"@ {
        raw.take(raw.len() - 4)
    } else if raw.len() > 5 && lower.skip(raw.len() - 5) == ".atom"@ {
        raw.take(raw.len() - 5)
    } else {
        raw
    }
}

pub fn feed_token_of(raw: &str) -> (out: String)
    ensures
        out@ == feed_token_text(raw@),
{
    let lower = chars_of(ascii_lowercase(raw).as_str());
    let c = chars_of(raw);
    let n = c.len();
    assert(lower@.len() == n);
    if n > 4 && text_eq(lower.as_slice(), n - 4, n, ".ics") {
        assert(lower@.subrange(n - 4, n as int) =~= lower_seq(raw@).skip(n - 4));
        assert(c@.subrange(0, n - 4) =~= raw@.take(n - 4));
        return text_range(c.as_slice(), 0, n - 4);
    }
    if n > 4 {
        assert(lower@.subrange(n - 4, n as int) =~= lower_seq(raw@).skip(n - 4));
    }
    if n > 5 && text_eq(lower.as_slice(), n - 5, n, ".atom") {
        assert(lower@.subrange(n - 5, n as int) =~= lower_seq(raw@).skip(n - 5));
        assert(c@.subrange(0, n - 5) =~= raw@.take(n - 5));
        return text_range(c.as_slice(), 0, n - 5);
    }
    if n > 5 {
        assert(lower@.subrange(n - 5, n as int) =~= lower_seq(raw@).skip(n - 5));
    }
    owned(raw)
}

/// Where links point: the configured public base, else the scheme and host
/// the request names.
pub open spec fn base_of(fallback: Seq<char>, proto: Seq<char>, host: Seq<char>) -> Seq<char> {
    if fallback.len() > 0 {
        strip_trailing(fallback, '/')
    } else {
        (if proto.len() == 0 {
            "http"@
        } else {
            proto
        }) + "://"@ + (if host.len() == 0 {
            "localhost"@
        } else {
            host
        })
    }
}

pub fn request_base(req: &Request, fallback: &str) -> (out: String)
    ensures
        out@ == base_of(
            fallback@,
            header_or_empty(req@.headers, "x-forwarded-proto"@),
            header_or_empty(req@.headers, "host"@),
        ),
{
    proof {
        reveal_strlit("x-forwarded-proto");
        reveal_strlit("host");
        assert(lower_seq("x-forwarded-proto"@) =~= "x-forwarded-proto"@);
        assert(lower_seq("host"@) =~= "host"@);
    }
    if !fallback.is_empty() {
        return strip_trailing_slashes(fallback);
    }
    let proto = req.header("x-forwarded-proto");
    let host = req.header("host");
    let mut out = if proto.is_empty() {
        owned("http")
    } else {
        owned(proto)
    };
    out.push_str("://");
    out.push_str(if host.is_empty() {
        "localhost"
    } else {
        host
    });
    out
}

/// A browser asking for a page, not an agent asking for JSON.
pub fn wants_html(req: &Request) -> (b: bool)
    ensures
        b == (has_text(header_or_empty(req@.headers, "accept"@), "text/html"@) && !has_text(
            header_or_empty(req@.headers, "accept"@),
            "application/json"@,
        )),
{
    proof {
        reveal_strlit("accept");
        assert(lower_seq("accept"@) =~= "accept"@);
    }
    let accept = req.header("accept");
    contains_str(accept, "text/html") && !contains_str(accept, "application/json")
}

/// Index of the first `/feed/` in `s`, any case, or `s.len()`.
pub open spec fn feed_at(s: Seq<char>, k: int) -> bool {
    0 <= k && k + 6 <= s.len() && lower_seq(s).subrange(k, k + 6) == "/feed/"@
}

/// The path with the feed token replaced, for the log: a token in a log is a
/// leaked feed.
pub open spec fn redacted_path(path: Seq<char>) -> Seq<char> {
    if exists|k: int| #[trigger] feed_at(path, k) {
        let idx = choose|k: int| feed_at(path, k) && forall|j: int| 0 <= j < k ==> !#[trigger] feed_at(path, j);
        let start = idx + 6;
        let rest = path.skip(start);
        let end = find_char(rest, '/');
        path.take(start) + "<token>"@ + rest.skip(end)
    } else {
        path
    }
}

pub fn redact_feed(path: &str) -> (out: String)
    ensures
        out@ == redacted_path(path@),
{
    let lower = chars_of(ascii_lowercase(path).as_str());
    let c = chars_of(path);
    let n = c.len();
    let mut i: usize = 0;
    while i < n && n - i >= 6
        invariant
            i <= n,
            n == c@.len(),
            lower@ == lower_seq(c@),
            c@ == path@,
            forall|j: int| 0 <= j < i ==> !#[trigger] feed_at(path@, j),
        decreases n - i,
    {
        if text_eq(lower.as_slice(), i, i + 6, "/feed/") {
            let start = i + 6;
            let e = find_char_exec(c.as_slice(), start, n, '/');
            proof {
                assert(feed_at(path@, i as int));
                assert forall|k: int| feed_at(path@, k) && (forall|j: int| 0 <= j < k ==> !#[trigger] feed_at(path@, j)) implies k == i by {
                    if k < i {
                        assert(!feed_at(path@, k));
                    }
                    if k > i {
                        assert(feed_at(path@, i as int));
                    }
                }
                assert(c@.subrange(start as int, n as int) =~= path@.skip(start as int));
                lemma_find_char(path@.skip(start as int), '/');
            }
            let mut out = text_range(c.as_slice(), 0, start);
            out.push_str("<token>");
            push_range(&mut out, c.as_slice(), e, n);
            proof {
                assert(c@.subrange(0, start as int) =~= path@.take(start as int));
                assert(c@.subrange(e as int, n as int) =~= path@.skip(start as int).skip(e - start));
            }
            return out;
        }
        i = i + 1;
    }
    proof {
        assert forall|k: int| !#[trigger] feed_at(path@, k) by {
            if 0 <= k && k + 6 <= n {
                assert(k < i);
            }
        }
    }
    owned(path)
}

// ---- routes -------------------------------------------------------------------------

/// What follows `events/`: the collection, one event, or one of its two
/// lists of exceptions.
#[derive(Debug)]
pub enum Target {
    Collection,
    Event(String),
    Exdates(String),
    Overrides(String),
}

pub enum TargetView {
    Collection,
    Event(Seq<char>),
    Exdates(Seq<char>),
    Overrides(Seq<char>),
}

impl View for Target {
    type V = TargetView;

    open spec fn view(&self) -> TargetView {
        match self {
            Target::Collection => TargetView::Collection,
            Target::Event(u) => TargetView::Event(u@),
            Target::Exdates(u) => TargetView::Exdates(u@),
            Target::Overrides(u) => TargetView::Overrides(u@),
        }
    }
}

/// The handler a request goes to. Anything else is a 404.
#[derive(Debug)]
pub enum Route {
    Home,
    Health,
    LlmsTxt,
    OgImage,
    CreateCalendar,
    /// The feed token as the path has it, and whether the request is a HEAD.
    Feed(String, bool),
    CalendarInfo(String),
    DeleteCalendar(String),
    Events(String, Target),
    Todos(String, Option<String>),
    Notes(String, Option<String>),
    Export(String),
    NotFound,
}

pub enum RouteView {
    Home,
    Health,
    LlmsTxt,
    OgImage,
    CreateCalendar,
    Feed(Seq<char>, bool),
    CalendarInfo(Seq<char>),
    DeleteCalendar(Seq<char>),
    Events(Seq<char>, TargetView),
    Todos(Seq<char>, Option<Seq<char>>),
    Notes(Seq<char>, Option<Seq<char>>),
    Export(Seq<char>),
    NotFound,
}

impl View for Route {
    type V = RouteView;

    open spec fn view(&self) -> RouteView {
        match self {
            Route::Home => RouteView::Home,
            Route::Health => RouteView::Health,
            Route::LlmsTxt => RouteView::LlmsTxt,
            Route::OgImage => RouteView::OgImage,
            Route::CreateCalendar => RouteView::CreateCalendar,
            Route::Feed(t, h) => RouteView::Feed(t@, *h),
            Route::CalendarInfo(i) => RouteView::CalendarInfo(i@),
            Route::DeleteCalendar(i) => RouteView::DeleteCalendar(i@),
            Route::Events(c, t) => RouteView::Events(c@, t@),
            Route::Todos(c, u) => RouteView::Todos(c@, ostr(*u)),
            Route::Notes(c, u) => RouteView::Notes(c@, ostr(*u)),
            Route::Export(c) => RouteView::Export(c@),
            Route::NotFound => RouteView::NotFound,
        }
    }
}

pub open spec fn starts(s: Seq<char>, p: Seq<char>) -> bool {
    s.len() >= p.len() && s.take(p.len() as int) == p
}

pub open spec fn target_of(rest: Seq<char>) -> TargetView {
    let f = find_char(rest, '/');
    if f < rest.len() {
        let uid = rest.take(f);
        let tail = rest.skip(f + 1);
        if tail == "exdates"@ {
            TargetView::Exdates(uid)
        } else if tail == "overrides"@ {
            TargetView::Overrides(uid)
        } else {
            TargetView::Event(rest)
        }
    } else {
        TargetView::Event(rest)
    }
}

/// Which methods each events target answers.
pub open spec fn events_allowed(t: TargetView, m: Seq<char>) -> bool {
    match t {
        TargetView::Collection => m == "GET"@ || m == "POST"@,
        TargetView::Event(_) => m == "GET"@ || m == "PUT"@ || m == "PATCH"@ || m == "DELETE"@,
        _ => m == "PUT"@ || m == "DELETE"@,
    }
}

pub open spec fn events_route(cal: Seq<char>, t: TargetView, m: Seq<char>) -> RouteView {
    if events_allowed(t, m) {
        RouteView::Events(cal, t)
    } else {
        RouteView::NotFound
    }
}

/// Which methods the todos and notes collections and items answer.
pub open spec fn items_allowed(has_uid: bool, m: Seq<char>) -> bool {
    if has_uid {
        m == "GET"@ || m == "PUT"@ || m == "PATCH"@ || m == "DELETE"@
    } else {
        m == "GET"@ || m == "POST"@
    }
}

pub open spec fn items_route(cal: Seq<char>, uid: Option<Seq<char>>, m: Seq<char>, notes: bool) -> RouteView {
    if !items_allowed(uid is Some, m) {
        RouteView::NotFound
    } else if notes {
        RouteView::Notes(cal, uid)
    } else {
        RouteView::Todos(cal, uid)
    }
}

/// `todos/{uid}` or `notes/{uid}`. A uid never holds a slash, so anything
/// deeper is a 404.
pub open spec fn item_route(cal: Seq<char>, uid: Seq<char>, m: Seq<char>, notes: bool) -> RouteView {
    if uid.len() == 0 || has_char(uid, '/') {
        RouteView::NotFound
    } else {
        items_route(cal, Some(uid), m, notes)
    }
}

pub open spec fn export_route(cal: Seq<char>, m: Seq<char>) -> RouteView {
    if m == "GET"@ {
        RouteView::Export(cal)
    } else {
        RouteView::NotFound
    }
}

/// Everything under `/v1/c/`.
pub open spec fn scoped_route(m: Seq<char>, rest: Seq<char>) -> RouteView {
    let f = find_char(rest, '/');
    if f >= rest.len() {
        if m == "GET"@ {
            RouteView::CalendarInfo(rest)
        } else if m == "DELETE"@ {
            RouteView::DeleteCalendar(rest)
        } else {
            RouteView::NotFound
        }
    } else {
        let id = rest.take(f);
        let sub = rest.skip(f + 1);
        if sub == "events"@ {
            events_route(id, TargetView::Collection, m)
        } else if starts(sub, "events/"@) {
            events_route(id, target_of(sub.skip(7)), m)
        } else if sub == "todos"@ {
            items_route(id, None, m, false)
        } else if starts(sub, "todos/"@) {
            item_route(id, sub.skip(6), m, false)
        } else if sub == "export"@ {
            export_route(id, m)
        } else if sub == "notes"@ {
            items_route(id, None, m, true)
        } else if starts(sub, "notes/"@) {
            item_route(id, sub.skip(6), m, true)
        } else {
            RouteView::NotFound
        }
    }
}

/// Where a request goes, from its method and its path (the query string
/// ignored). The paths without a calendar id are the owner's `home` calendar.
pub open spec fn route_spec(m: Seq<char>, full: Seq<char>) -> RouteView {
    let p = full.take(find_char(full, '?'));
    if m == "GET"@ && p == "/"@ {
        RouteView::Home
    } else if m == "GET"@ && p == "/health"@ {
        RouteView::Health
    } else if m == "GET"@ && p == "/llms.txt"@ {
        RouteView::LlmsTxt
    } else if m == "GET"@ && p == "/og.png"@ {
        RouteView::OgImage
    } else if m == "POST"@ && p == "/calendars"@ {
        RouteView::CreateCalendar
    } else if starts(p, "/feed/"@) {
        if m != "GET"@ && m != "HEAD"@ {
            RouteView::NotFound
        } else {
            RouteView::Feed(p.skip(6), m == "HEAD"@)
        }
    } else if starts(p, "/v1/c/"@) {
        scoped_route(m, p.skip(6))
    } else if p == "/v1/events"@ {
        events_route("home"@, TargetView::Collection, m)
    } else if p == "/v1/todos"@ {
        items_route("home"@, None, m, false)
    } else if starts(p, "/v1/todos/"@) {
        item_route("home"@, p.skip(10), m, false)
    } else if p == "/v1/export"@ {
        export_route("home"@, m)
    } else if p == "/v1/notes"@ {
        items_route("home"@, None, m, true)
    } else if starts(p, "/v1/notes/"@) {
        item_route("home"@, p.skip(10), m, true)
    } else if starts(p, "/v1/events/"@) {
        events_route("home"@, target_of(p.skip(11)), m)
    } else {
        RouteView::NotFound
    }
}

fn starts_with_lit(c: &[char], lo: usize, lit: &str) -> (b: bool)
    requires
        lo <= c@.len(),
    ensures
        b == starts(c@.skip(lo as int), lit@),
{
    let n = chars_of(lit).len();
    if c.len() - lo < n {
        return false;
    }
    let b = text_eq(c, lo, lo + n, lit);
    assert(c@.skip(lo as int).take(n as int) =~= c@.subrange(lo as int, lo + n));
    b
}

fn is_lit(c: &[char], lo: usize, hi: usize, lit: &str) -> (b: bool)
    requires
        lo <= hi <= c@.len(),
    ensures
        b == (c@.subrange(lo as int, hi as int) == lit@),
{
    text_eq(c, lo, hi, lit)
}

fn target_from(c: &[char], lo: usize, hi: usize) -> (t: Target)
    requires
        lo <= hi <= c@.len(),
    ensures
        t@ == target_of(c@.subrange(lo as int, hi as int)),
{
    let ghost rest = c@.subrange(lo as int, hi as int);
    let f = find_char_exec(c, lo, hi, '/');
    proof {
        lemma_find_char(rest, '/');
    }
    if f < hi {
        proof {
            assert(rest.take(f - lo) =~= c@.subrange(lo as int, f as int));
            assert(rest.skip(f - lo + 1) =~= c@.subrange(f + 1, hi as int));
        }
        if is_lit(c, f + 1, hi, "exdates") {
            return Target::Exdates(text_range(c, lo, f));
        }
        if is_lit(c, f + 1, hi, "overrides") {
            return Target::Overrides(text_range(c, lo, f));
        }
    }
    Target::Event(text_range(c, lo, hi))
}

fn events_route_exec(cal: String, t: Target, m: &str) -> (r: Route)
    ensures
        r@ == events_route(cal@, t@, m@),
{
    let allowed = match &t {
        Target::Collection => str_eq(m, "GET") || str_eq(m, "POST"),
        Target::Event(_) => str_eq(m, "GET") || str_eq(m, "PUT") || str_eq(m, "PATCH") || str_eq(m, "DELETE"),
        _ => str_eq(m, "PUT") || str_eq(m, "DELETE"),
    };
    if allowed {
        Route::Events(cal, t)
    } else {
        Route::NotFound
    }
}

fn items_route_exec(cal: String, uid: Option<String>, m: &str, notes: bool) -> (r: Route)
    ensures
        r@ == items_route(cal@, ostr(uid), m@, notes),
{
    let allowed = if uid.is_some() {
        str_eq(m, "GET") || str_eq(m, "PUT") || str_eq(m, "PATCH") || str_eq(m, "DELETE")
    } else {
        str_eq(m, "GET") || str_eq(m, "POST")
    };
    if !allowed {
        Route::NotFound
    } else if notes {
        Route::Notes(cal, uid)
    } else {
        Route::Todos(cal, uid)
    }
}

fn item_route_exec(cal: String, c: &[char], lo: usize, hi: usize, m: &str, notes: bool) -> (r: Route)
    requires
        lo <= hi <= c@.len(),
    ensures
        r@ == item_route(cal@, c@.subrange(lo as int, hi as int), m@, notes),
{
    let ghost uid = c@.subrange(lo as int, hi as int);
    let f = find_char_exec(c, lo, hi, '/');
    proof {
        lemma_find_char(uid, '/');
        if has_char(uid, '/') {
            let k = choose|k: int| 0 <= k < uid.len() && uid[k] == '/';
            assert(find_char(uid, '/') <= k);
        }
        if f < hi {
            assert(uid[f - lo] == '/');
        }
    }
    if lo == hi || f < hi {
        return Route::NotFound;
    }
    items_route_exec(cal, Some(text_range(c, lo, hi)), m, notes)
}

fn export_route_exec(cal: String, m: &str) -> (r: Route)
    ensures
        r@ == export_route(cal@, m@),
{
    if str_eq(m, "GET") {
        Route::Export(cal)
    } else {
        Route::NotFound
    }
}

fn scoped_route_exec(m: &str, c: &[char], lo: usize, hi: usize) -> (r: Route)
    requires
        lo <= hi <= c@.len(),
    ensures
        r@ == scoped_route(m@, c@.subrange(lo as int, hi as int)),
{
    let ghost rest = c@.subrange(lo as int, hi as int);
    let f = find_char_exec(c, lo, hi, '/');
    proof {
        lemma_find_char(rest, '/');
    }
    if f == hi {
        if str_eq(m, "GET") {
            return Route::CalendarInfo(text_range(c, lo, hi));
        }
        if str_eq(m, "DELETE") {
            return Route::DeleteCalendar(text_range(c, lo, hi));
        }
        return Route::NotFound;
    }
    let id = text_range(c, lo, f);
    let s = f + 1;
    proof {
        assert(rest.take(f - lo) =~= c@.subrange(lo as int, f as int));
        assert(rest.skip(f - lo + 1) =~= c@.subrange(s as int, hi as int));
        assert(c@.subrange(s as int, hi as int) =~= c@.take(hi as int).skip(s as int));
    }
    let sub_chars = prefix_chars(c, hi);
    assert(sub_chars@ == c@.take(hi as int));
    let sc = sub_chars.as_slice();
    if is_lit(c, s, hi, "events") {
        return events_route_exec(id, Target::Collection, m);
    }
    if starts_with_lit(sc, s, "events/") {
        proof {
            reveal_strlit("events/");
            assert(c@.subrange(s + 7, hi as int) =~= c@.subrange(s as int, hi as int).skip(7));
        }
        return events_route_exec(id, target_from(c, s + 7, hi), m);
    }
    if is_lit(c, s, hi, "todos") {
        return items_route_exec(id, None, m, false);
    }
    if starts_with_lit(sc, s, "todos/") {
        proof {
            reveal_strlit("todos/");
            assert(c@.subrange(s + 6, hi as int) =~= c@.subrange(s as int, hi as int).skip(6));
        }
        return item_route_exec(id, c, s + 6, hi, m, false);
    }
    if is_lit(c, s, hi, "export") {
        return export_route_exec(id, m);
    }
    if is_lit(c, s, hi, "notes") {
        return items_route_exec(id, None, m, true);
    }
    if starts_with_lit(sc, s, "notes/") {
        proof {
            reveal_strlit("notes/");
            assert(c@.subrange(s + 6, hi as int) =~= c@.subrange(s as int, hi as int).skip(6));
        }
        return item_route_exec(id, c, s + 6, hi, m, true);
    }
    Route::NotFound
}

/// The first `hi` chars of `c`.
fn prefix_chars(c: &[char], hi: usize) -> (out: Vec<char>)
    requires
        hi <= c@.len(),
    ensures
        out@ == c@.take(hi as int),
{
    let mut out: Vec<char> = Vec::new();
    let mut i: usize = 0;
    while i < hi
        invariant
            i <= hi <= c@.len(),
            out@ == c@.take(i as int),
        decreases hi - i,
    {
        out.push(c[i]);
        i = i + 1;
        assert(out@ =~= c@.take(i as int));
    }
    out
}

pub fn route_of(method: &str, path: &str) -> (r: Route)
    ensures
        r@ == route_spec(method@, path@),
{
    let full = chars_of(path);
    let q = find_char_exec(full.as_slice(), 0, full.len(), '?');
    proof {
        assert(full@.subrange(0, full@.len() as int) =~= full@);
    }
    let c = prefix_chars(full.as_slice(), q);
    let ghost p = c@;
    assert(p == path@.take(find_char(path@, '?')));
    let n = c.len();
    let m = method;
    let cs = c.as_slice();
    assert(cs@.subrange(0, n as int) =~= p);
    assert(cs@.skip(0) =~= p);
    if str_eq(m, "GET") && is_lit(cs, 0, n, "/") {
        return Route::Home;
    }
    if str_eq(m, "GET") && is_lit(cs, 0, n, "/health") {
        return Route::Health;
    }
    if str_eq(m, "GET") && is_lit(cs, 0, n, "/llms.txt") {
        return Route::LlmsTxt;
    }
    if str_eq(m, "GET") && is_lit(cs, 0, n, "/og.png") {
        return Route::OgImage;
    }
    if str_eq(m, "POST") && is_lit(cs, 0, n, "/calendars") {
        return Route::CreateCalendar;
    }
    if starts_with_lit(cs, 0, "/feed/") {
        proof {
            reveal_strlit("/feed/");
        }
        if !str_eq(m, "GET") && !str_eq(m, "HEAD") {
            return Route::NotFound;
        }
        assert(cs@.subrange(6, n as int) =~= p.skip(6));
        return Route::Feed(text_range(cs, 6, n), str_eq(m, "HEAD"));
    }
    if starts_with_lit(cs, 0, "/v1/c/") {
        proof {
            reveal_strlit("/v1/c/");
            assert(cs@.subrange(6, n as int) =~= p.skip(6));
        }
        return scoped_route_exec(m, cs, 6, n);
    }
    if is_lit(cs, 0, n, "/v1/events") {
        return events_route_exec(owned("home"), Target::Collection, m);
    }
    if is_lit(cs, 0, n, "/v1/todos") {
        return items_route_exec(owned("home"), None, m, false);
    }
    if starts_with_lit(cs, 0, "/v1/todos/") {
        proof {
            reveal_strlit("/v1/todos/");
            assert(cs@.subrange(10, n as int) =~= p.skip(10));
        }
        return item_route_exec(owned("home"), cs, 10, n, m, false);
    }
    if is_lit(cs, 0, n, "/v1/export") {
        return export_route_exec(owned("home"), m);
    }
    if is_lit(cs, 0, n, "/v1/notes") {
        return items_route_exec(owned("home"), None, m, true);
    }
    if starts_with_lit(cs, 0, "/v1/notes/") {
        proof {
            reveal_strlit("/v1/notes/");
            assert(cs@.subrange(10, n as int) =~= p.skip(10));
        }
        return item_route_exec(owned("home"), cs, 10, n, m, true);
    }
    if starts_with_lit(cs, 0, "/v1/events/") {
        proof {
            reveal_strlit("/v1/events/");
            assert(cs@.subrange(11, n as int) =~= p.skip(11));
        }
        return events_route_exec(owned("home"), target_from(cs, 11, n), m);
    }
    Route::NotFound
}

// ---- answers ------------------------------------------------------------------------

pub open spec fn error_json(msg: Seq<char>) -> Json {
    Json::Obj(obj_build(seq![("error"@, Json::Str(msg))]))
}

/// `{"error": msg}` with the status.
pub fn json_err(status: u16, msg: &str) -> (r: Response)
    ensures
        r.status == status,
        pair_texts(r.headers@) == seq![("content-type"@, "application/json; charset=utf-8"@)],
        r.body@ == encode_utf8(show(error_json(msg@))),
{
    let mut pairs: Vec<(&str, Value)> = Vec::new();
    pairs.push(("error", Value::String(owned(msg))));
    assert(member_views(pairs@) =~= seq![("error"@, Json::Str(msg@))]);
    let v = Value::object(pairs.as_slice());
    json_response(status, stringify(&v).as_str())
}

/// A 429 that says when to try again.
pub fn too_many(retry_after: u64) -> (r: Response)
    ensures
        r.status == 429,
        pair_texts(r.headers@) == seq![
            ("content-type"@, "application/json; charset=utf-8"@),
            ("retry-after"@, dec(retry_after as nat)),
        ],
        r.body@ == encode_utf8(show(error_json("rate limit exceeded"@))),
{
    let mut n = String::new();
    push_dec(&mut n, retry_after);
    let r = json_err(429, "rate limit exceeded").header("retry-after", n.as_str());
    r
}

/// The answer to a HEAD: the GET's status and headers, no body, and the
/// GET's length, as HTTP requires.
pub fn head_of(res: Response) -> (r: Response)
    ensures
        r.status == res.status,
        pair_texts(r.headers@) == pair_texts(res.headers@).push(("content-length"@, dec(res.body@.len()))),
        r.body@.len() == 0,
{
    let len = res.body.len();
    let mut n = String::new();
    push_dec(&mut n, len as u64);
    let mut res = res;
    res.body = Vec::new();
    res.header("content-length", n.as_str())
}

/// The calendar as the API shows it: its own fields (the key only at
/// creation) plus where its todos and notes are written and subscribed.
pub open spec fn calendar_view_json(
    cal: CalendarRow,
    key: Option<Seq<char>>,
    base: Seq<char>,
    todos_token: Seq<char>,
    notes_token: Seq<char>,
) -> Json {
    let origin = strip_trailing(base, '/');
    let own = obj_build(calendar_members(cal, base));
    let with_key = match key {
        Some(k) => obj_insert(own, "key"@, Json::Str(k)),
        None => own,
    };
    let todos = Json::Obj(
        obj_build(
            seq![
                ("write"@, Json::Str(origin + "/v1/c/"@ + cal.id@ + "/todos"@)),
                ("subscribe"@, Json::Str(origin + "/feed/"@ + todos_token + ".ics"@)),
            ],
        ),
    );
    let notes = Json::Obj(
        obj_build(
            seq![
                ("write"@, Json::Str(origin + "/v1/c/"@ + cal.id@ + "/notes"@)),
                ("subscribe"@, Json::Str(origin + "/feed/"@ + notes_token + ".atom"@)),
            ],
        ),
    );
    Json::Obj(obj_insert(obj_insert(with_key, "todos"@, todos), "notes"@, notes))
}

fn link_pair(origin: &str, id: &str, kind: &str, token: &str, ext: &str) -> (r: Value)
    ensures
        r@ == Json::Obj(
            obj_build(
                seq![
                    ("write"@, Json::Str(origin@ + "/v1/c/"@ + id@ + "/"@ + kind@)),
                    ("subscribe"@, Json::Str(origin@ + "/feed/"@ + token@ + ext@)),
                ],
            ),
        ),
{
    let mut write = owned(origin);
    write.push_str("/v1/c/");
    write.push_str(id);
    write.push_str("/");
    write.push_str(kind);
    let mut subscribe = owned(origin);
    subscribe.push_str("/feed/");
    subscribe.push_str(token);
    subscribe.push_str(ext);
    let mut pairs: Vec<(&str, Value)> = Vec::new();
    pairs.push(("write", Value::String(write)));
    pairs.push(("subscribe", Value::String(subscribe)));
    assert(member_views(pairs@) =~= seq![
        ("write"@, Json::Str(origin@ + "/v1/c/"@ + id@ + "/"@ + kind@)),
        ("subscribe"@, Json::Str(origin@ + "/feed/"@ + token@ + ext@)),
    ]);
    Value::object(pairs.as_slice())
}

pub fn calendar_view(
    cal: &CalendarRow,
    key: Option<&str>,
    base: &str,
    todos_token: &str,
    notes_token: &str,
) -> (r: Value)
    ensures
        r@ == calendar_view_json(*cal, opt_view(key), base@, todos_token@, notes_token@),
{
    let view = match key {
        Some(k) => json_calendar_created(cal, k, base),
        None => json_calendar(cal, base),
    };
    let origin = strip_trailing_slashes(base);
    let todos = link_pair(origin.as_str(), cal.id.as_str(), "todos", todos_token, ".ics");
    let notes = link_pair(origin.as_str(), cal.id.as_str(), "notes", notes_token, ".atom");
    proof {
        reveal_strlit("/");
        reveal_strlit("todos");
        reveal_strlit("notes");
        reveal_strlit("/todos");
        reveal_strlit("/notes");
        assert("/"@ + "todos"@ =~= "/todos"@);
        assert("/"@ + "notes"@ =~= "/notes"@);
        let o = origin@;
        assert(o + "/v1/c/"@ + cal.id@ + "/"@ + "todos"@ =~= o + "/v1/c/"@ + cal.id@ + "/todos"@);
        assert(o + "/v1/c/"@ + cal.id@ + "/"@ + "notes"@ =~= o + "/v1/c/"@ + cal.id@ + "/notes"@);
    }
    if let Value::Object(m) = view {
        let mut m = m;
        insert_entry(&mut m, owned("todos"), todos);
        insert_entry(&mut m, owned("notes"), notes);
        Value::Object(m)
    } else {
        proof {
            assert(false);
        }
        Value::Null
    }
}

// ---- request parameters -------------------------------------------------------------

/// `?format=json|md` of an export: `true` for Markdown.
pub open spec fn export_format_of(param: Option<Seq<char>>) -> Result<bool, Seq<char>> {
    match param {
        None => Ok(false),
        Some(f) => if f == "json"@ {
            Ok(false)
        } else if f == "md"@ || f == "markdown"@ {
            Ok(true)
        } else {
            Err("format must be json or md"@)
        },
    }
}

pub fn export_format(param: Option<&str>) -> (r: Result<bool, String>)
    ensures
        match r {
            Ok(b) => export_format_of(opt_view(param)) == Ok::<bool, Seq<char>>(b),
            Err(e) => export_format_of(opt_view(param)) == Err::<bool, Seq<char>>(e@),
        },
{
    match param {
        None => Ok(false),
        Some(f) => if str_eq(f, "json") {
            Ok(false)
        } else if str_eq(f, "md") || str_eq(f, "markdown") {
            Ok(true)
        } else {
            Err(owned("format must be json or md"))
        },
    }
}

/// `?status=open|done|all` of a todo list: which todos, by whether they are done.
pub open spec fn todo_status_of(param: Option<Seq<char>>) -> Result<Option<bool>, Seq<char>> {
    match param {
        None => Ok(None),
        Some(s) => if s == "all"@ {
            Ok(None)
        } else if s == "open"@ {
            Ok(Some(false))
        } else if s == "done"@ {
            Ok(Some(true))
        } else {
            Err("status must be open, done or all"@)
        },
    }
}

pub fn todo_status(param: Option<&str>) -> (r: Result<Option<bool>, String>)
    ensures
        match r {
            Ok(b) => todo_status_of(opt_view(param)) == Ok::<Option<bool>, Seq<char>>(b),
            Err(e) => todo_status_of(opt_view(param)) == Err::<Option<bool>, Seq<char>>(e@),
        },
{
    match param {
        None => Ok(None),
        Some(s) => if str_eq(s, "all") {
            Ok(None)
        } else if str_eq(s, "open") {
            Ok(Some(false))
        } else if str_eq(s, "done") {
            Ok(Some(true))
        } else {
            Err(owned("status must be open, done or all"))
        },
    }
}

/// `?q=` of a notes search: trimmed, none when blank, at most 200 octets.
pub open spec fn search_text_of(param: Option<Seq<char>>) -> Result<Option<Seq<char>>, Seq<char>> {
    match param {
        None => Ok(None),
        Some(q) => if trim(q).len() == 0 {
            Ok(None)
        } else if utf8_len(trim(q)) > 200 {
            Err("q is too long"@)
        } else {
            Ok(Some(trim(q)))
        },
    }
}

pub fn search_text(param: Option<&str>) -> (r: Result<Option<String>, String>)
    ensures
        match r {
            Ok(o) => search_text_of(opt_view(param)) == Ok::<Option<Seq<char>>, Seq<char>>(ostr(o)),
            Err(e) => search_text_of(opt_view(param)) == Err::<Option<Seq<char>>, Seq<char>>(e@),
        },
{
    match param {
        None => Ok(None),
        Some(q) => {
            let t = trimmed(q);
            if t.as_str().is_empty() {
                Ok(None)
            } else if utf8_longer_than(t.as_str(), 200) {
                Err(owned("q is too long"))
            } else {
                Ok(Some(t))
            }
        },
    }
}

/// `?tag=` of a list: trimmed and lowercased.
pub fn list_tag(param: Option<&str>) -> (r: Option<String>)
    ensures
        ostr(r) == match opt_view(param) {
            Some(t) => Some(lower_seq(trim(t))),
            None => None,
        },
{
    match param {
        Some(t) => Some(ascii_lowercase(trimmed(t).as_str())),
        None => None,
    }
}

/// `?body=true` or `?body=1` asks a notes list for the bodies too.
pub fn wants_bodies(param: Option<&str>) -> (b: bool)
    ensures
        b == match opt_view(param) {
            Some(v) => v == "true"@ || v == "1"@,
            None => false,
        },
{
    match param {
        Some(v) => str_eq(v, "true") || str_eq(v, "1"),
        None => false,
    }
}

/// The uid of a sealed write: the path's, else the body's `uid` string; an
/// empty one is none.
pub open spec fn seal_uid_of(path_uid: Option<Seq<char>>, body: Json) -> Option<Seq<char>> {
    let u = match path_uid {
        Some(p) => Some(p),
        None => match json_get(body, "uid"@) {
            Some(Json::Str(s)) => Some(s),
            _ => None,
        },
    };
    match u {
        Some(x) => if x.len() > 0 {
            Some(x)
        } else {
            None
        },
        None => None,
    }
}

pub fn seal_uid(path_uid: Option<&str>, body: &Value) -> (r: Option<String>)
    ensures
        ostr(r) == seal_uid_of(opt_view(path_uid), body@),
{
    let u = match path_uid {
        Some(p) => Some(owned(p)),
        None => match body.get("uid") {
            Some(v) => match v.as_str() {
                Some(s) => Some(owned(s)),
                None => None,
            },
            None => None,
        },
    };
    match u {
        Some(x) => if x.as_str().is_empty() {
            None
        } else {
            Some(x)
        },
        None => None,
    }
}

/// A calendar other than `home` that is already at its cap refuses a new item.
pub fn refuses_new(home: bool, creating: bool, count: i64, max: i64) -> (b: bool)
    ensures
        b == (!home && creating && count >= max),
{
    !home && creating && count >= max
}

/// Adding an exception at `recurrence_id` would pass the per-series cap:
/// the series holds `max` already and none at that id (replacing one is
/// always allowed). An id that does not normalize is left for the write to
/// report.
pub open spec fn exception_cap_hit(event: EventRow, recurrence_id: Seq<char>, max: int) -> bool {
    event.exdates@.len() + event.overrides@.len() >= max && match recurrence_id_of(
        recurrence_id,
        event.all_day,
    ) {
        Err(_) => false,
        Ok(rid) => !texts(event.exdates@).contains(rid) && override_at(event.overrides@, rid) is None,
    }
}

pub fn exceptions_full(event: &EventRow, recurrence_id: &str, max: usize) -> (b: bool)
    ensures
        b == exception_cap_hit(*event, recurrence_id@, max as int),
{
    if event.exdates.len() < max && max - event.exdates.len() > event.overrides.len() {
        return false;
    }
    let rid = match normalize_recurrence_id(recurrence_id, event.all_day) {
        Ok(r) => r,
        Err(_) => {
            return false;
        },
    };
    let mut i: usize = 0;
    while i < event.exdates.len()
        invariant
            i <= event.exdates@.len(),
            forall|k: int| 0 <= k < i ==> event.exdates@[k]@ != rid@,
            recurrence_id_of(recurrence_id@, event.all_day) == Ok::<Seq<char>, Seq<char>>(rid@),
            event.exdates@.len() + event.overrides@.len() >= max,
        decreases event.exdates@.len() - i,
    {
        if str_eq(event.exdates[i].as_str(), rid.as_str()) {
            assert(texts(event.exdates@)[i as int] == rid@);
            assert(texts(event.exdates@).contains(rid@));
            return false;
        }
        i = i + 1;
    }
    proof {
        if texts(event.exdates@).contains(rid@) {
            let k = choose|k: int| 0 <= k < texts(event.exdates@).len() && texts(event.exdates@)[k] == rid@;
            assert(event.exdates@[k]@ == rid@);
        }
    }
    let mut j: usize = 0;
    assert(event.overrides@.skip(0) =~= event.overrides@);
    while j < event.overrides.len()
        invariant
            j <= event.overrides@.len(),
            override_at(event.overrides@, rid@) == override_at(event.overrides@.skip(j as int), rid@),
            recurrence_id_of(recurrence_id@, event.all_day) == Ok::<Seq<char>, Seq<char>>(rid@),
            event.exdates@.len() + event.overrides@.len() >= max,
            !texts(event.exdates@).contains(rid@),
        decreases event.overrides@.len() - j,
    {
        assert(event.overrides@.skip(j as int).drop_first() =~= event.overrides@.skip(j + 1));
        if str_eq(event.overrides[j].recurrence_id.as_str(), rid.as_str()) {
            return false;
        }
        j = j + 1;
    }
    true
}

// ---- lists --------------------------------------------------------------------------

pub fn events_json(rows: &[EventRow]) -> (r: Value)
    ensures
        r@ == Json::Obj(
            obj_build(seq![("events"@, Json::Arr(rows@.map_values(|e: EventRow| Json::Obj(obj_build(event_members(e))))))]),
        ),
{
    let mut items: Vec<Value> = Vec::new();
    let mut i: usize = 0;
    while i < rows.len()
        invariant
            i <= rows@.len(),
            json_items(items@) == rows@.take(i as int).map_values(|e: EventRow| Json::Obj(obj_build(event_members(e)))),
        decreases rows@.len() - i,
    {
        let ghost before = items@;
        items.push(json_event(&rows[i]));
        proof {
            assert(items@.drop_last() =~= before);
            assert(rows@.take(i + 1).map_values(|e: EventRow| Json::Obj(obj_build(event_members(e)))) =~= rows@.take(
                i as int,
            ).map_values(|e: EventRow| Json::Obj(obj_build(event_members(e)))).push(Json::Obj(obj_build(event_members(rows@[i as int])))));
        }
        i = i + 1;
    }
    assert(rows@.take(i as int) =~= rows@);
    let mut pairs: Vec<(&str, Value)> = Vec::new();
    pairs.push(("events", Value::Array(items)));
    assert(member_views(pairs@) =~= seq![("events"@, Json::Arr(rows@.map_values(|e: EventRow| Json::Obj(obj_build(event_members(e))))))]);
    Value::object(pairs.as_slice())
}

/// The rows a tag filter keeps: all without a tag, else those carrying it.
pub open spec fn tagged(tags: Seq<Seq<char>>, tag: Option<Seq<char>>) -> bool {
    match tag {
        None => true,
        Some(t) => tags.contains(t),
    }
}

pub open spec fn todos_kept(rows: Seq<TodoRow>, tag: Option<Seq<char>>) -> Seq<Json>
    decreases rows.len(),
{
    if rows.len() == 0 {
        Seq::empty()
    } else {
        let rest = todos_kept(rows.drop_last(), tag);
        if tagged(texts(rows.last().tags@), tag) {
            rest.push(Json::Obj(obj_build(todo_members(rows.last()))))
        } else {
            rest
        }
    }
}

fn has_tag(tags: &Vec<String>, tag: &Option<String>) -> (b: bool)
    ensures
        b == tagged(texts(tags@), ostr(*tag)),
{
    match tag {
        None => true,
        Some(t) => {
            let mut i: usize = 0;
            while i < tags.len()
                invariant
                    i <= tags@.len(),
                    forall|k: int| 0 <= k < i ==> tags@[k]@ != t@,
                    ostr(*tag) == Some(t@),
                decreases tags@.len() - i,
            {
                if str_eq(tags[i].as_str(), t.as_str()) {
                    assert(texts(tags@)[i as int] == t@);
                    assert(texts(tags@).contains(t@));
                    return true;
                }
                i = i + 1;
            }
            proof {
                if texts(tags@).contains(t@) {
                    let k = choose|k: int| 0 <= k < texts(tags@).len() && texts(tags@)[k] == t@;
                    assert(tags@[k]@ == t@);
                }
            }
            false
        },
    }
}

/// `{"todos": [...]}`, those carrying `tag` when one is given.
pub fn todos_json(rows: &[TodoRow], tag: &Option<String>) -> (r: Value)
    ensures
        r@ == Json::Obj(obj_build(seq![("todos"@, Json::Arr(todos_kept(rows@, ostr(*tag))))])),
{
    let mut items: Vec<Value> = Vec::new();
    let mut i: usize = 0;
    while i < rows.len()
        invariant
            i <= rows@.len(),
            json_items(items@) == todos_kept(rows@.take(i as int), ostr(*tag)),
        decreases rows@.len() - i,
    {
        proof {
            assert(rows@.take(i + 1).drop_last() =~= rows@.take(i as int));
        }
        if has_tag(&rows[i].tags, tag) {
            let ghost before = items@;
            items.push(json_todo(&rows[i]));
            assert(items@.drop_last() =~= before);
        }
        i = i + 1;
    }
    assert(rows@.take(i as int) =~= rows@);
    let mut pairs: Vec<(&str, Value)> = Vec::new();
    pairs.push(("todos", Value::Array(items)));
    assert(member_views(pairs@) =~= seq![("todos"@, Json::Arr(todos_kept(rows@, ostr(*tag))))]);
    Value::object(pairs.as_slice())
}

pub open spec fn notes_kept(rows: Seq<NoteRow>, tag: Option<Seq<char>>, with_body: bool) -> Seq<Json>
    decreases rows.len(),
{
    if rows.len() == 0 {
        Seq::empty()
    } else {
        let rest = notes_kept(rows.drop_last(), tag, with_body);
        if tagged(texts(rows.last().tags@), tag) {
            rest.push(Json::Obj(obj_build(note_members(rows.last(), with_body))))
        } else {
            rest
        }
    }
}

/// `{"notes": [...]}`, those carrying `tag` when one is given.
pub fn notes_json(rows: &[NoteRow], tag: &Option<String>, with_body: bool) -> (r: Value)
    ensures
        r@ == Json::Obj(obj_build(seq![("notes"@, Json::Arr(notes_kept(rows@, ostr(*tag), with_body)))])),
{
    let mut items: Vec<Value> = Vec::new();
    let mut i: usize = 0;
    while i < rows.len()
        invariant
            i <= rows@.len(),
            json_items(items@) == notes_kept(rows@.take(i as int), ostr(*tag), with_body),
        decreases rows@.len() - i,
    {
        proof {
            assert(rows@.take(i + 1).drop_last() =~= rows@.take(i as int));
        }
        if has_tag(&rows[i].tags, tag) {
            let ghost before = items@;
            items.push(json_note(&rows[i], with_body));
            assert(items@.drop_last() =~= before);
        }
        i = i + 1;
    }
    assert(rows@.take(i as int) =~= rows@);
    let mut pairs: Vec<(&str, Value)> = Vec::new();
    pairs.push(("notes", Value::Array(items)));
    assert(member_views(pairs@) =~= seq![("notes"@, Json::Arr(notes_kept(rows@, ostr(*tag), with_body)))]);
    Value::object(pairs.as_slice())
}

// ---- creating a calendar ------------------------------------------------------------

/// The decoded `name` of a form, from the first pair whose key is `name`.
pub open spec fn form_name(pairs: Seq<Seq<char>>) -> Option<Seq<char>>
    decreases pairs.len(),
{
    if pairs.len() == 0 {
        None
    } else if pair_key(pairs[0]) == "name"@ {
        Some(url_text(pair_value(pairs[0])))
    } else {
        form_name(pairs.drop_first())
    }
}

pub open spec fn json_name(body: Seq<u8>) -> Result<Option<Seq<char>>, Seq<char>> {
    if !valid_utf8(body) {
        Err("body must be valid JSON"@)
    } else if trim(decode_utf8(body)).len() == 0 {
        Ok(None)
    } else {
        match parse_json(decode_utf8(body)) {
            Err(_) => Err("body must be valid JSON"@),
            Ok(Json::Obj(m)) => match obj_get(m, "name"@) {
                None => Ok(None),
                Some(Json::Null) => Ok(None),
                Some(Json::Str(n)) => Ok(Some(n)),
                Some(_) => Err("name must be a string"@),
            },
            Ok(_) => Err("body must be an object"@),
        }
    }
}

/// The name a `POST /calendars` asks for: from a JSON body or a form,
/// by the content type; none for anything else.
pub open spec fn calendar_name_in(ctype: Seq<char>, body: Seq<u8>) -> Result<Option<Seq<char>>, Seq<char>> {
    if has_text(ctype, "application/json"@) {
        json_name(body)
    } else if has_text(ctype, "application/x-www-form-urlencoded"@) {
        Ok(form_name(split_char(lossy_utf8(body), '&')))
    } else {
        Ok(None)
    }
}

fn name_from_json(body: &[u8]) -> (r: Result<Option<String>, String>)
    ensures
        match r {
            Ok(o) => json_name(body@) == Ok::<Option<Seq<char>>, Seq<char>>(ostr(o)),
            Err(e) => json_name(body@) == Err::<Option<Seq<char>>, Seq<char>>(e@),
        },
{
    let text = match utf8_text(body) {
        Some(t) => t,
        None => {
            return Err(owned("body must be valid JSON"));
        },
    };
    proof {
        encode_utf8_decode_utf8(text@);
    }
    if trimmed(text).as_str().is_empty() {
        return Ok(None);
    }
    let value = match parse(text) {
        Ok(v) => v,
        Err(_) => {
            return Err(owned("body must be valid JSON"));
        },
    };
    let obj = match value.as_object() {
        Some(o) => o,
        None => {
            return Err(owned("body must be an object"));
        },
    };
    match entry_get(obj, "name") {
        None => Ok(None),
        Some(Value::Null) => Ok(None),
        Some(Value::String(n)) => Ok(Some(n.clone())),
        Some(_) => Err(owned("name must be a string")),
    }
}

fn name_from_form(body: &[u8]) -> (r: Option<String>)
    ensures
        ostr(r) == form_name(split_char(lossy_utf8(body@), '&')),
{
    let text = lossy_text(body);
    let c = chars_of(text.as_str());
    let ghost all = split_char(c@, '&');
    let mut start: usize = 0;
    let mut i: usize = 0;
    assert(c@.skip(0) =~= c@);
    while i <= c.len()
        invariant
            start <= i <= c@.len(),
            c@ == lossy_utf8(body@),
            all == split_char(c@, '&'),
            form_name(all) == form_name(split_char(c@.skip(start as int), '&')),
            forall|k: int| start <= k < i && k < c@.len() ==> c@[k] != '&',
        decreases c@.len() + 1 - i,
    {
        if i == c.len() || c[i] == '&' {
            let ghost t = c@.skip(start as int);
            proof {
                assert forall|j: int| 0 <= j < i - start implies #[trigger] t[j] != '&' by {
                    assert(t[j] == c@[start + j]);
                }
                lemma_find_char_at(t, '&', i - start);
                assert(t.take(i - start) =~= c@.subrange(start as int, i as int));
                if i == c@.len() {
                    assert(t.take(i - start) =~= t);
                    assert(split_char(t, '&') == seq![t]);
                    assert(seq![t][0] == t);
                    assert(seq![t].drop_first() =~= Seq::<Seq<char>>::empty());
                } else {
                    assert(t.skip(i - start + 1) =~= c@.skip(i + 1));
                    assert((seq![t.take(i - start)] + split_char(c@.skip(i + 1), '&')).drop_first()
                        =~= split_char(c@.skip(i + 1), '&'));
                }
            }
            let (k, v) = split_pair(c.as_slice(), start, i);
            if str_eq(k.as_str(), "name") {
                return Some(urlencoding_decode(v.as_str()));
            }
            if i == c.len() {
                proof {
                    assert(form_name(seq![t]) == form_name(seq![t].drop_first()));
                }
                return None;
            }
            start = i + 1;
        }
        i = i + 1;
    }
    None
}

pub fn parse_calendar_name(ctype: &str, body: &[u8]) -> (r: Result<Option<String>, String>)
    ensures
        match r {
            Ok(o) => calendar_name_in(ctype@, body@) == Ok::<Option<Seq<char>>, Seq<char>>(ostr(o)),
            Err(e) => calendar_name_in(ctype@, body@) == Err::<Option<Seq<char>>, Seq<char>>(e@),
        },
{
    if contains_str(ctype, "application/json") {
        return name_from_json(body);
    }
    if contains_str(ctype, "application/x-www-form-urlencoded") {
        return Ok(name_from_form(body));
    }
    Ok(None)
}

// ---- feeds --------------------------------------------------------------------------

pub open spec fn ics_override_matches(o: IcsOverride, e: EventOverride) -> bool {
    &&& o.recurrence_id@ == e.recurrence_id@
    &&& o.summary@ == e.summary@
    &&& o.description@ == e.description@
    &&& o.location@ == e.location@
    &&& o.dtstart@ == e.dtstart@
    &&& o.dtend@ == e.dtend@
    &&& o.all_day == e.all_day
    &&& o.transparent == e.transparent
    &&& o.sequence == e.sequence
    &&& o.updated_at@ == e.updated_at@
}

/// An event as the feed renders it: the same fields.
pub open spec fn ics_event_matches(i: IcsEvent, e: EventRow) -> bool {
    &&& i.uid@ == e.uid@
    &&& i.summary@ == e.summary@
    &&& i.description@ == e.description@
    &&& i.location@ == e.location@
    &&& i.dtstart@ == e.dtstart@
    &&& i.dtend@ == e.dtend@
    &&& i.all_day == e.all_day
    &&& i.transparent == e.transparent
    &&& i.sequence == e.sequence
    &&& i.updated_at@ == e.updated_at@
    &&& i.rrule@ == e.rrule@
    &&& i.tzid@ == e.tzid@
    &&& texts(i.exdates@) == texts(e.exdates@)
    &&& i.overrides@.len() == e.overrides@.len()
    &&& forall|k: int| 0 <= k < i.overrides@.len() ==> ics_override_matches(#[trigger] i.overrides@[k], e.overrides@[k])
}

fn copy_texts(v: &Vec<String>) -> (r: Vec<String>)
    ensures
        texts(r@) == texts(v@),
{
    let mut out: Vec<String> = Vec::new();
    let mut i: usize = 0;
    while i < v.len()
        invariant
            i <= v@.len(),
            texts(out@) == texts(v@.take(i as int)),
        decreases v@.len() - i,
    {
        let ghost before = out@;
        out.push(v[i].clone());
        proof {
            assert(texts(out@) =~= texts(before).push(v@[i as int]@));
            assert(texts(v@.take(i + 1)) =~= texts(v@.take(i as int)).push(v@[i as int]@));
        }
        i = i + 1;
    }
    assert(v@.take(i as int) =~= v@);
    out
}

pub fn ics_event_of(ev: &EventRow) -> (r: IcsEvent)
    ensures
        ics_event_matches(r, *ev),
{
    let mut overrides: Vec<IcsOverride> = Vec::new();
    let mut i: usize = 0;
    while i < ev.overrides.len()
        invariant
            i <= ev.overrides@.len(),
            overrides@.len() == i,
            forall|k: int| 0 <= k < i ==> ics_override_matches(#[trigger] overrides@[k], ev.overrides@[k]),
        decreases ev.overrides@.len() - i,
    {
        let o = &ev.overrides[i];
        overrides.push(IcsOverride {
            recurrence_id: o.recurrence_id.clone(),
            summary: o.summary.clone(),
            description: o.description.clone(),
            location: o.location.clone(),
            dtstart: o.dtstart.clone(),
            dtend: o.dtend.clone(),
            all_day: o.all_day,
            transparent: o.transparent,
            sequence: o.sequence,
            updated_at: o.updated_at.clone(),
        });
        i = i + 1;
    }
    IcsEvent {
        uid: ev.uid.clone(),
        summary: ev.summary.clone(),
        description: ev.description.clone(),
        location: ev.location.clone(),
        dtstart: ev.dtstart.clone(),
        dtend: ev.dtend.clone(),
        all_day: ev.all_day,
        transparent: ev.transparent,
        sequence: ev.sequence,
        updated_at: ev.updated_at.clone(),
        rrule: ev.rrule.clone(),
        tzid: ev.tzid.clone(),
        exdates: copy_texts(&ev.exdates),
        overrides,
    }
}

/// A todo as the feed renders it: the same fields.
pub open spec fn ics_todo_matches(i: IcsTodo, t: TodoRow) -> bool {
    &&& i.uid@ == t.uid@
    &&& i.title@ == t.title@
    &&& i.description@ == t.description@
    &&& i.due@ == t.due@
    &&& i.done == t.done
    &&& i.completed_at@ == t.completed_at@
    &&& i.priority == t.priority
    &&& texts(i.tags@) == texts(t.tags@)
    &&& i.sequence == t.sequence
    &&& i.created_at@ == t.created_at@
    &&& i.updated_at@ == t.updated_at@
}

pub fn ics_todo_of(t: &TodoRow) -> (r: IcsTodo)
    ensures
        ics_todo_matches(r, *t),
{
    IcsTodo {
        uid: t.uid.clone(),
        title: t.title.clone(),
        description: t.description.clone(),
        due: t.due.clone(),
        done: t.done,
        completed_at: t.completed_at.clone(),
        priority: t.priority,
        tags: copy_texts(&t.tags),
        sequence: t.sequence,
        created_at: t.created_at.clone(),
        updated_at: t.updated_at.clone(),
    }
}

/// A note as an Atom entry, its id `urn:almanac:<calendar>:<uid>`.
pub open spec fn atom_entry_matches(a: AtomEntry, cal_id: Seq<char>, n: NoteRow) -> bool {
    &&& a.id@ == "urn:almanac:"@ + cal_id + ":"@ + n.uid@
    &&& a.title@ == n.title@
    &&& a.updated@ == n.updated_at@
    &&& a.published@ == n.created_at@
    &&& a.content@ == n.body@
    &&& texts(a.tags@) == texts(n.tags@)
}

pub fn atom_entry_of(cal_id: &str, n: &NoteRow) -> (r: AtomEntry)
    ensures
        atom_entry_matches(r, cal_id@, *n),
{
    let mut id = owned("urn:almanac:");
    id.push_str(cal_id);
    id.push_str(":");
    id.push_str(n.uid.as_str());
    AtomEntry {
        id,
        title: n.title.clone(),
        updated: n.updated_at.clone(),
        published: n.created_at.clone(),
        content: n.body.clone(),
        tags: copy_texts(&n.tags),
    }
}

/// The latest `updated_at` of the notes, by code point order.
pub open spec fn latest_update(ns: Seq<NoteRow>) -> Option<Seq<char>>
    decreases ns.len(),
{
    if ns.len() == 0 {
        None
    } else {
        match latest_update(ns.drop_last()) {
            None => Some(ns.last().updated_at@),
            Some(m) => if key_lt(m, ns.last().updated_at@) {
                Some(ns.last().updated_at@)
            } else {
                Some(m)
            },
        }
    }
}

pub fn notes_updated(notes: &[NoteRow]) -> (r: Option<String>)
    ensures
        ostr(r) == latest_update(notes@),
{
    let mut best: Option<String> = None;
    let mut i: usize = 0;
    while i < notes.len()
        invariant
            i <= notes@.len(),
            ostr(best) == latest_update(notes@.take(i as int)),
        decreases notes@.len() - i,
    {
        proof {
            assert(notes@.take(i + 1).drop_last() =~= notes@.take(i as int));
        }
        let u = notes[i].updated_at.as_str();
        best = match best {
            None => Some(owned(u)),
            Some(m) => if str_lt(m.as_str(), u) {
                Some(owned(u))
            } else {
                Some(m)
            },
        };
        i = i + 1;
    }
    assert(notes@.take(i as int) =~= notes@);
    best
}

// ---- request bodies and authentication ----------------------------------------------

/// A request body as JSON: valid UTF-8, not empty, and parsed. The callers
/// say what shape they need.
pub open spec fn body_json(body: Seq<u8>) -> Result<Json, Seq<char>> {
    if !valid_utf8(body) || decode_utf8(body).len() == 0 {
        Err("body must be an object"@)
    } else {
        match parse_json(decode_utf8(body)) {
            Ok(v) => Ok(v),
            Err(_) => Err("body must be an object"@),
        }
    }
}

pub fn parse_body(req: &Request) -> (r: Result<Value, String>)
    ensures
        match r {
            Ok(v) => body_json(req.body@) == Ok::<Json, Seq<char>>(v@),
            Err(e) => body_json(req.body@) == Err::<Json, Seq<char>>(e@),
        },
{
    let text = match utf8_text(req.body.as_slice()) {
        Some(t) => t,
        None => {
            return Err(owned("body must be an object"));
        },
    };
    proof {
        encode_utf8_decode_utf8(text@);
    }
    if text.is_empty() {
        return Err(owned("body must be an object"));
    }
    match parse(text) {
        Ok(v) => Ok(v),
        Err(_) => Err(owned("body must be an object")),
    }
}

/// How a write key is stored: the lowercase hex of its SHA-256.
pub open spec fn key_hash_text(key: Seq<char>) -> Seq<char> {
    hex_text(sha256_spec(encode_utf8(key)))
}

/// The request's bearer token is the calendar's write key. A row without a
/// hash never matches.
pub open spec fn authorized(cal: CalendarRow, header: Seq<char>) -> bool {
    cal.key_hash@.len() > 0 && key_hash_text(bearer_token(header)) == cal.key_hash@
}

/// The calendar, when the `Authorization` header carries its write key.
pub fn calendar_auth(cal: Option<CalendarRow>, header: &str) -> (r: Option<CalendarRow>)
    ensures
        r is Some <==> (cal matches Some(c) && authorized(c, header@)),
        r matches Some(c) ==> cal == Some(c),
{
    match cal {
        Some(c) => {
            let given = sha256_hex(bearer(header).as_str());
            if safe_equal(given.as_str(), c.key_hash.as_str()) {
                Some(c)
            } else {
                None
            }
        },
        None => None,
    }
}

/// A calendar whose stored hash is that of `key` accepts `Bearer <key>`.
pub proof fn lemma_write_key_authenticates(cal: CalendarRow, key: Seq<char>)
    requires
        cal.key_hash@ == key_hash_text(key),
    ensures
        authorized(cal, "Bearer "@ + key),
{
    reveal_strlit("Bearer ");
    let h = "Bearer "@ + key;
    assert(h.take(7) =~= "Bearer "@);
    assert(h.skip(7) =~= key);
    lemma_digest_hex_len(encode_utf8(key));
}

/// `out` is the `.ics` feed of `events`: each as it is stored, stamped with
/// some current time where a stored time does not parse.
pub open spec fn event_feed_doc(name: Seq<char>, events: Seq<EventRow>, out: Seq<char>) -> bool {
    exists|items: Seq<IcsEvent>, now: i64|
        items.len() == events.len() && (forall|k: int|
            0 <= k < items.len() ==> ics_event_matches(#[trigger] items[k], events[k])) && out
            == calendar_text(name, items, now as int)
}

/// The events of a calendar as its `.ics` feed.
pub fn render_events(name: &str, events: &[EventRow]) -> (out: String)
    ensures
        event_feed_doc(name@, events@, out@),
{
    let mut items: Vec<IcsEvent> = Vec::new();
    let mut i: usize = 0;
    while i < events.len()
        invariant
            i <= events@.len(),
            items@.len() == i,
            forall|k: int| 0 <= k < i ==> ics_event_matches(#[trigger] items@[k], events@[k]),
        decreases events@.len() - i,
    {
        items.push(ics_event_of(&events[i]));
        i = i + 1;
    }
    render_calendar(name, items.as_slice())
}

/// `out` is the todos feed: each todo as it is stored.
pub open spec fn todo_feed_doc(name: Seq<char>, todos: Seq<TodoRow>, out: Seq<char>) -> bool {
    exists|items: Seq<IcsTodo>, now: i64|
        items.len() == todos.len() && (forall|k: int|
            0 <= k < items.len() ==> ics_todo_matches(#[trigger] items[k], todos[k])) && out
            == todos_text(name, items, now as int)
}

pub fn render_todo_feed(name: &str, todos: &[TodoRow]) -> (out: String)
    ensures
        todo_feed_doc(name@, todos@, out@),
{
    let mut items: Vec<IcsTodo> = Vec::new();
    let mut i: usize = 0;
    while i < todos.len()
        invariant
            i <= todos@.len(),
            items@.len() == i,
            forall|k: int| 0 <= k < i ==> ics_todo_matches(#[trigger] items@[k], todos@[k]),
        decreases todos@.len() - i,
    {
        items.push(ics_todo_of(&todos[i]));
        i = i + 1;
    }
    render_todos(name, items.as_slice())
}

/// `out` is the Atom feed of a calendar's notes: one entry per note, the
/// feed updated when the newest note was, or now when there is none.
pub open spec fn note_feed_doc(cal_id: Seq<char>, name: Seq<char>, notes: Seq<NoteRow>, out: Seq<char>) -> bool {
    exists|entries: Seq<AtomEntry>, updated: Seq<char>|
        {
            &&& entries.len() == notes.len()
            &&& forall|k: int|
                0 <= k < entries.len() ==> atom_entry_matches(#[trigger] entries[k], cal_id, notes[k])
            &&& match latest_update(notes) {
                Some(u) => updated == u,
                None => exists|ms: i64| updated == utc_text(ms as int),
            }
            &&& out == atom_text("urn:almanac:"@ + cal_id + ":notes"@, name + " Notes"@, updated, entries)
        }
}

pub fn render_note_feed(cal_id: &str, name: &str, notes: &[NoteRow]) -> (out: String)
    ensures
        note_feed_doc(cal_id@, name@, notes@, out@),
{
    let mut entries: Vec<AtomEntry> = Vec::new();
    let mut i: usize = 0;
    while i < notes.len()
        invariant
            i <= notes@.len(),
            entries@.len() == i,
            forall|k: int| 0 <= k < i ==> atom_entry_matches(#[trigger] entries@[k], cal_id@, notes@[k]),
        decreases notes@.len() - i,
    {
        entries.push(atom_entry_of(cal_id, &notes[i]));
        i = i + 1;
    }
    let updated = match notes_updated(notes) {
        Some(u) => u,
        None => now_iso(),
    };
    let mut feed_id = owned("urn:almanac:");
    feed_id.push_str(cal_id);
    feed_id.push_str(":notes");
    let mut title = owned(name);
    title.push_str(" Notes");
    render_atom(feed_id.as_str(), title.as_str(), updated.as_str(), entries.as_slice())
}

/// Which feed a token opens.
#[derive(Debug)]
pub enum FeedSource {
    /// The events feed of the calendar the token was found on.
    Events,
    /// The todos feed of the calendar with this id.
    Todos(String),
    /// The notes feed of the calendar with this id.
    Notes(String),
    NotFound,
}

/// The calendar a token was looked up on owns its events feed when its
/// (non-empty) feed token is the token.
pub open spec fn owns_events_feed(token: Seq<char>, by_token: Option<CalendarRow>) -> bool {
    by_token matches Some(c) && c.feed_token@.len() > 0 && c.feed_token@ == token
}

/// Resolve a feed token: the events feed of the calendar whose feed token it
/// is; otherwise the todos or notes feed it was issued for (`target` is the
/// calendar id and kind stored for it); otherwise nothing.
pub fn feed_source(token: &str, by_token: Option<&CalendarRow>, target: Option<(String, String)>) -> (r: FeedSource)
    ensures
        ({
            let owner = match by_token {
                Some(c) => Some(*c),
                None => None,
            };
            match r {
                FeedSource::Events => owns_events_feed(token@, owner),
                FeedSource::Todos(id) => !owns_events_feed(token@, owner) && (target matches Some(t)
                    && t.1@ == "todos"@ && id@ == t.0@),
                FeedSource::Notes(id) => !owns_events_feed(token@, owner) && (target matches Some(t)
                    && t.1@ == "notes"@ && id@ == t.0@),
                FeedSource::NotFound => !owns_events_feed(token@, owner) && !(target matches Some(t) && (
                t.1@ == "todos"@ || t.1@ == "notes"@)),
            }
        }),
{
    if let Some(cal) = by_token {
        if safe_equal(token, cal.feed_token.as_str()) {
            return FeedSource::Events;
        }
    }
    match target {
        Some((id, kind)) => {
            if str_eq(kind.as_str(), "todos") {
                FeedSource::Todos(id)
            } else if str_eq(kind.as_str(), "notes") {
                FeedSource::Notes(id)
            } else {
                FeedSource::NotFound
            }
        },
        None => FeedSource::NotFound,
    }
}

/// What a feed token resolved to: the rows of the feed, read from the
/// database.
#[derive(Debug)]
pub enum FeedBody {
    /// The calendar's name and its events.
    Events(String, Vec<EventRow>),
    /// The calendar's name and its todos.
    Todos(String, Vec<TodoRow>),
    /// The calendar's id, its name, and its newest notes.
    Notes(String, String, Vec<NoteRow>),
}

/// The file name and content type each feed is served with.
pub open spec fn feed_kind(body: FeedBody) -> (Seq<char>, Seq<char>) {
    match body {
        FeedBody::Events(_, _) => ("calendar.ics"@, "text/calendar; charset=utf-8"@),
        FeedBody::Todos(_, _) => ("todos.ics"@, "text/calendar; charset=utf-8"@),
        FeedBody::Notes(_, _, _) => ("notes.atom"@, "application/atom+xml; charset=utf-8"@),
    }
}

pub open spec fn feed_doc(body: FeedBody, text: Seq<char>) -> bool {
    match body {
        FeedBody::Events(name, events) => event_feed_doc(name@, events@, text),
        FeedBody::Todos(name, todos) => todo_feed_doc(name@, todos@, text),
        FeedBody::Notes(id, name, notes) => note_feed_doc(id@, name@, notes@, text),
    }
}

/// A feed as served: not cached, shown inline under its file name.
pub fn feed_response(body: FeedBody) -> (r: Response)
    ensures
        r.status == 200,
        pair_texts(r.headers@) == seq![
            ("content-type"@, feed_kind(body).1),
            ("cache-control"@, "no-cache"@),
            ("content-disposition"@, "inline; filename=\""@ + feed_kind(body).0 + "\""@),
        ],
        exists|text: Seq<char>| r.body@ == encode_utf8(text) && feed_doc(body, text),
{
    let ghost b = body;
    let (filename, ctype, text) = match body {
        FeedBody::Events(name, events) => (
            "calendar.ics",
            "text/calendar; charset=utf-8",
            render_events(name.as_str(), events.as_slice()),
        ),
        FeedBody::Todos(name, todos) => (
            "todos.ics",
            "text/calendar; charset=utf-8",
            render_todo_feed(name.as_str(), todos.as_slice()),
        ),
        FeedBody::Notes(id, name, notes) => (
            "notes.atom",
            "application/atom+xml; charset=utf-8",
            render_note_feed(id.as_str(), name.as_str(), notes.as_slice()),
        ),
    };
    assert(feed_kind(b) == (filename@, ctype@));
    assert(feed_doc(b, text@));
    let mut disposition = owned("inline; filename=\"");
    disposition.push_str(filename);
    disposition.push_str("\"");
    let bytes = text.as_str().as_bytes_vec();
    let r = text_response(200, ctype, bytes).header("cache-control", "no-cache").header(
        "content-disposition",
        disposition.as_str(),
    );
    assert(pair_texts(r.headers@) =~= seq![
        ("content-type"@, ctype@),
        ("cache-control"@, "no-cache"@),
        ("content-disposition"@, "inline; filename=\""@ + filename@ + "\""@),
    ]);
    r
}

} // verus!
