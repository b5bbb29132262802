//! Todos: the rows, the rules for writing them, and their JSON.
//!
//! They live in the same database as events, keyed by calendar id, so the one
//! write key for a calendar covers them too.

use vstd::prelude::*;
use crate::time::{instant_text, is_ymd, parse_instant, ymd_of};
use crate::json::{Json, Value, entry_get, json_entries, json_items, json_of, lemma_json_items_len, member_views, obj_build, obj_get};
use crate::text::{ascii_lowercase, chars_of, find_char, is_digit, is_lower, lemma_find_char_at, lower_seq, owned, push_range, str_eq, text_result, texts, trim, trimmed, utf8_len, utf8_longer_than};
use crate::db::{choose_uid, chosen_uid, has_char, is_uid, opt_view, ostr, text_json, text_values, uid_message, valid_uid};

verus! {

pub const MAX_TAGS: usize = 10;

#[derive(Debug, Clone)]
pub struct TodoRow {
    pub uid: String,
    pub title: String,
    pub description: String,
    /// `""` for none, `YYYY-MM-DD` for a day, else a UTC instant.
    pub due: String,
    /// RFC 5545: 0 undefined, 1 highest .. 9 lowest.
    pub priority: i64,
    pub done: bool,
    /// `""` unless done.
    pub completed_at: String,
    pub tags: Vec<String>,
    pub sequence: i64,
    pub created_at: String,
    pub updated_at: String,
    pub seal: String,
}

/// What a write may set. `None` leaves the stored value alone; for text fields
/// `Some("")` clears it.
#[derive(Debug)]
pub struct TodoFields {
    pub uid: Option<String>,
    pub title: Option<String>,
    pub description: Option<String>,
    pub due: Option<String>,
    pub priority: Option<i64>,
    pub done: Option<bool>,
    pub tags: Option<Vec<String>>,
}

// ---- stored tags --------------------------------------------------------------------

/// Each tag followed by a comma.
pub open spec fn tags_with_commas(tags: Seq<Seq<char>>) -> Seq<char>
    decreases tags.len(),
{
    if tags.len() == 0 {
        Seq::empty()
    } else {
        tags_with_commas(tags.drop_last()) + tags.last() + seq![',']
    }
}

/// Tags are stored as `,a,b,` so every one is delimited on both sides.
pub open spec fn packed_tags(tags: Seq<Seq<char>>) -> Seq<char> {
    if tags.len() == 0 {
        Seq::empty()
    } else {
        seq![','] + tags_with_commas(tags)
    }
}

pub fn pack_tags(tags: &[String]) -> (out: String)
    ensures
        out@ == packed_tags(texts(tags@)),
{
    let mut out = String::new();
    if tags.len() == 0 {
        return out;
    }
    out.push(',');
    let mut i: usize = 0;
    while i < tags.len()
        invariant
            i <= tags@.len(),
            out@ == seq![','] + tags_with_commas(texts(tags@.take(i as int))),
        decreases tags@.len() - i,
    {
        out.push_str(tags[i].as_str());
        out.push(',');
        proof {
            assert(texts(tags@.take(i + 1)).drop_last() =~= texts(tags@.take(i as int)));
        }
        i = i + 1;
        assert(out@ =~= seq![','] + tags_with_commas(texts(tags@.take(i as int))));
    }
    assert(tags@.take(i as int) =~= tags@);
    out
}

/// The pieces of `s` between commas, empty ones included.
pub open spec fn comma_pieces(s: Seq<char>) -> Seq<Seq<char>>
    decreases s.len(),
{
    let f = find_char(s, ',');
    if f >= s.len() || f < 0 {
        seq![s]
    } else {
        seq![s.take(f)] + comma_pieces(s.skip(f + 1))
    }
}

pub open spec fn nonempty_pieces(pieces: Seq<Seq<char>>) -> Seq<Seq<char>>
    decreases pieces.len(),
{
    if pieces.len() == 0 {
        Seq::empty()
    } else {
        let rest = nonempty_pieces(pieces.drop_first());
        if pieces[0].len() > 0 {
            seq![pieces[0]] + rest
        } else {
            rest
        }
    }
}

/// The tags of a stored `,a,b,` text.
pub open spec fn unpacked_tags(raw: Seq<char>) -> Seq<Seq<char>> {
    nonempty_pieces(comma_pieces(raw))
}

proof fn lemma_nonempty_single(x: Seq<char>)
    ensures
        nonempty_pieces(seq![x]) == (if x.len() > 0 {
            seq![x]
        } else {
            Seq::<Seq<char>>::empty()
        }),
{
    assert(seq![x].drop_first() =~= Seq::<Seq<char>>::empty());
    assert(nonempty_pieces(Seq::<Seq<char>>::empty()) == Seq::<Seq<char>>::empty());
    assert(seq![x] + Seq::<Seq<char>>::empty() =~= seq![x]);
}

proof fn lemma_nonempty_concat(a: Seq<Seq<char>>, b: Seq<Seq<char>>)
    ensures
        nonempty_pieces(a + b) == nonempty_pieces(a) + nonempty_pieces(b),
    decreases a.len(),
{
    if a.len() == 0 {
        assert(a + b =~= b);
    } else {
        assert((a + b).drop_first() =~= a.drop_first() + b);
        lemma_nonempty_concat(a.drop_first(), b);
    }
}

pub fn unpack_tags(raw: &str) -> (out: Vec<String>)
    ensures
        texts(out@) == unpacked_tags(raw@),
{
    let c = chars_of(raw);
    let mut out: Vec<String> = Vec::new();
    let mut start: usize = 0;
    let mut i: usize = 0;
    assert(c@.skip(0) =~= c@);
    while i < c.len()
        invariant
            start <= i <= c@.len(),
            c@ == raw@,
            forall|k: int| start <= k < i ==> c@[k] != ',',
            texts(out@) + nonempty_pieces(comma_pieces(c@.skip(start as int))) == unpacked_tags(
                raw@,
            ),
        decreases c@.len() - i,
    {
        if c[i] == ',' {
            let ghost t = c@.skip(start as int);
            proof {
                assert forall|j: int| 0 <= j < i - start implies #[trigger] t[j] != ',' by {
                    assert(t[j] == c@[start + j]);
                }
                lemma_find_char_at(t, ',', i - start);
                assert(t.take(i - start) =~= c@.subrange(start as int, i as int));
                assert(t.skip(i - start + 1) =~= c@.skip(i + 1));
                assert(comma_pieces(t) == seq![t.take(i - start)] + comma_pieces(t.skip(i - start + 1)));
                lemma_nonempty_concat(seq![t.take(i - start)], comma_pieces(t.skip(i - start + 1)));
                lemma_nonempty_single(t.take(i - start));
            }
            if i > start {
                let mut piece = String::new();
                push_range(&mut piece, c.as_slice(), start, i);
                let ghost before = out@;
                out.push(piece);
                proof {
                    assert(texts(out@) =~= texts(before) + seq![c@.subrange(start as int, i as int)]);
                }
            }
            start = i + 1;
        }
        i = i + 1;
    }
    proof {
        let t = c@.skip(start as int);
        assert forall|j: int| 0 <= j < t.len() implies #[trigger] t[j] != ',' by {
            assert(t[j] == c@[start + j]);
        }
        lemma_find_char_at(t, ',', t.len() as int);
        assert(comma_pieces(t) == seq![t]);
        lemma_nonempty_single(t);
        assert(t =~= c@.subrange(start as int, c@.len() as int));
    }
    if start < c.len() {
        let mut piece = String::new();
        push_range(&mut piece, c.as_slice(), start, c.len());
        let ghost before = out@;
        out.push(piece);
        assert(texts(out@) =~= texts(before) + seq![c@.subrange(start as int, c@.len() as int)]);
    }
    assert(texts(out@) =~= unpacked_tags(raw@));
    out
}

/// A tag as stored: no comma, not empty.
pub open spec fn storable_tag(t: Seq<char>) -> bool {
    t.len() > 0 && !has_char(t, ',')
}

proof fn lemma_tags_with_commas_front(tags: Seq<Seq<char>>)
    requires
        tags.len() > 0,
    ensures
        tags_with_commas(tags) == tags[0] + seq![','] + tags_with_commas(tags.drop_first()),
    decreases tags.len(),
{
    if tags.len() == 1 {
        assert(tags.drop_last() =~= Seq::<Seq<char>>::empty());
        assert(tags.drop_first() =~= Seq::<Seq<char>>::empty());
        assert(tags_with_commas(tags.drop_last()) == Seq::<char>::empty());
        assert(tags_with_commas(tags.drop_first()) == Seq::<char>::empty());
        assert(tags_with_commas(tags) =~= tags[0] + seq![','] + tags_with_commas(tags.drop_first()));
    } else {
        lemma_tags_with_commas_front(tags.drop_last());
        assert(tags.drop_last().drop_first() =~= tags.drop_first().drop_last());
        assert(tags.drop_first().last() == tags.last());
        assert(tags_with_commas(tags) =~= tags[0] + seq![','] + tags_with_commas(tags.drop_first()));
    }
}

proof fn lemma_pieces_of_commas(tags: Seq<Seq<char>>)
    requires
        forall|k: int| 0 <= k < tags.len() ==> storable_tag(#[trigger] tags[k]),
    ensures
        comma_pieces(tags_with_commas(tags)) == tags + seq![Seq::<char>::empty()],
    decreases tags.len(),
{
    if tags.len() == 0 {
        lemma_find_char_at(Seq::<char>::empty(), ',', 0);
        assert(comma_pieces(Seq::<char>::empty()) =~= seq![Seq::<char>::empty()]);
        assert(tags + seq![Seq::<char>::empty()] =~= seq![Seq::<char>::empty()]);
    } else {
        let t0 = tags[0];
        let rest = tags_with_commas(tags.drop_first());
        lemma_tags_with_commas_front(tags);
        let s = t0 + seq![','] + rest;
        assert(storable_tag(tags[0]));
        assert forall|j: int| 0 <= j < t0.len() implies #[trigger] s[j] != ',' by {
            assert(s[j] == t0[j]);
            if t0[j] == ',' {
                assert(has_char(t0, ','));
            }
        }
        lemma_find_char_at(s, ',', t0.len() as int);
        assert(s.take(t0.len() as int) =~= t0);
        assert(s.skip(t0.len() as int + 1) =~= rest);
        assert forall|k: int| 0 <= k < tags.drop_first().len() implies storable_tag(
            #[trigger] tags.drop_first()[k],
        ) by {
            assert(tags.drop_first()[k] == tags[k + 1]);
        }
        lemma_pieces_of_commas(tags.drop_first());
        assert(comma_pieces(s) =~= seq![t0] + (tags.drop_first() + seq![Seq::<char>::empty()]));
        assert(tags + seq![Seq::<char>::empty()] =~= seq![t0] + (tags.drop_first() + seq![
            Seq::<char>::empty(),
        ]));
    }
}

proof fn lemma_nonempty_all(tags: Seq<Seq<char>>)
    requires
        forall|k: int| 0 <= k < tags.len() ==> (#[trigger] tags[k]).len() > 0,
    ensures
        nonempty_pieces(tags) == tags,
    decreases tags.len(),
{
    if tags.len() > 0 {
        assert forall|k: int| 0 <= k < tags.drop_first().len() implies (
        #[trigger] tags.drop_first()[k]).len() > 0 by {
            assert(tags.drop_first()[k] == tags[k + 1]);
        }
        lemma_nonempty_all(tags.drop_first());
        assert(seq![tags[0]] + tags.drop_first() =~= tags);
    }
}

/// Storing tags and reading them back gives the same tags, in order, for
/// tags that hold no comma and are not empty.
pub proof fn lemma_tags_roundtrip(tags: Seq<Seq<char>>)
    requires
        forall|k: int| 0 <= k < tags.len() ==> storable_tag(#[trigger] tags[k]),
    ensures
        unpacked_tags(packed_tags(tags)) == tags,
{
    if tags.len() == 0 {
        lemma_find_char_at(Seq::<char>::empty(), ',', 0);
        assert(comma_pieces(Seq::<char>::empty()) =~= seq![Seq::<char>::empty()]);
        lemma_nonempty_single(Seq::<char>::empty());
    } else {
        let w = tags_with_commas(tags);
        let s = seq![','] + w;
        lemma_find_char_at(s, ',', 0);
        assert(s.skip(1) =~= w);
        assert(s.take(0) =~= Seq::<char>::empty());
        lemma_pieces_of_commas(tags);
        assert(comma_pieces(s) == seq![Seq::<char>::empty()] + (tags + seq![Seq::<char>::empty()]));
        lemma_nonempty_concat(seq![Seq::<char>::empty()], tags + seq![Seq::<char>::empty()]);
        lemma_nonempty_concat(tags, seq![Seq::<char>::empty()]);
        assert(seq![Seq::<char>::empty()].drop_first() =~= Seq::<Seq<char>>::empty());
        assert forall|k: int| 0 <= k < tags.len() implies (#[trigger] tags[k]).len() > 0 by {
            assert(storable_tag(tags[k]));
        }
        lemma_nonempty_all(tags);
        lemma_nonempty_single(Seq::<char>::empty());
        assert(tags + Seq::<Seq<char>>::empty() =~= tags);
    }
}

// ---- input --------------------------------------------------------------------------

pub open spec fn due_message() -> Seq<char> {
    "due must be YYYY-MM-DD or an ISO-8601 datetime"@
}

/// `""` clears, a date stays a date, anything else becomes a UTC instant.
pub open spec fn due_of(value: Seq<char>) -> Result<Seq<char>, Seq<char>> {
    if value.len() == 0 || ymd_of(value) is Some {
        Ok(value)
    } else {
        match instant_text(value) {
            Some(t) => Ok(t),
            None => Err(due_message()),
        }
    }
}

pub fn parse_due(value: &str) -> (r: Result<String, String>)
    ensures
        text_result(r) == due_of(value@),
{
    if value.is_empty() || is_ymd(value) {
        return Ok(owned(value));
    }
    match parse_instant(value) {
        Some(t) => Ok(t),
        None => Err(owned("due must be YYYY-MM-DD or an ISO-8601 datetime")),
    }
}

pub open spec fn tag_char(c: char) -> bool {
    is_lower(c) || is_digit(c) || c == '_' || c == '-'
}

/// `[a-z0-9_-]{1,32}`.
pub open spec fn valid_tag(t: Seq<char>) -> bool {
    0 < t.len() <= 32 && forall|k: int| 0 <= k < t.len() ==> tag_char(#[trigger] t[k])
}

pub open spec fn bad_tag_message() -> Seq<char> {
    "tags are 1-32 chars: letters, digits, _ -"@
}

pub open spec fn tag_list_message() -> Seq<char> {
    "tags must be a list of strings"@
}

/// Reads `items` into `acc`: each lowercased and trimmed, a repeat dropped.
pub open spec fn collect_tags(items: Seq<Json>, acc: Seq<Seq<char>>) -> Result<
    Seq<Seq<char>>,
    Seq<char>,
>
    decreases items.len(),
{
    if items.len() == 0 {
        Ok(acc)
    } else {
        match items[0] {
            Json::Str(raw) => {
                let tag = lower_seq(trim(raw));
                if !valid_tag(tag) {
                    Err(bad_tag_message())
                } else {
                    collect_tags(
                        items.drop_first(),
                        if acc.contains(tag) {
                            acc
                        } else {
                            acc.push(tag)
                        },
                    )
                }
            },
            _ => Err(tag_list_message()),
        }
    }
}

/// Lowercased, deduplicated, `[a-z0-9_-]{1,32}`, at most ten.
pub open spec fn tags_of(items: Seq<Json>) -> Result<Seq<Seq<char>>, Seq<char>> {
    match collect_tags(items, Seq::empty()) {
        Err(e) => Err(e),
        Ok(t) => if t.len() > 10 {
            Err("at most 10 tags"@)
        } else {
            Ok(t)
        },
    }
}

fn contains_text(v: &Vec<String>, t: &str) -> (b: bool)
    ensures
        b == texts(v@).contains(t@),
{
    let mut i: usize = 0;
    while i < v.len()
        invariant
            i <= v@.len(),
            forall|k: int| 0 <= k < i ==> v@[k]@ != t@,
        decreases v@.len() - i,
    {
        if str_eq(v[i].as_str(), t) {
            assert(texts(v@)[i as int] == t@);
            return true;
        }
        i = i + 1;
    }
    proof {
        if texts(v@).contains(t@) {
            let k = choose|k: int| 0 <= k < texts(v@).len() && texts(v@)[k] == t@;
            assert(v@[k]@ == t@);
        }
    }
    false
}

fn is_valid_tag(t: &str) -> (b: bool)
    ensures
        b == valid_tag(t@),
{
    let c = chars_of(t);
    if c.len() == 0 || c.len() > 32 {
        return false;
    }
    let mut i: usize = 0;
    while i < c.len()
        invariant
            i <= c@.len(),
            c@ == t@,
            forall|k: int| 0 <= k < i ==> tag_char(#[trigger] c@[k]),
        decreases c@.len() - i,
    {
        let ch = c[i];
        if !(('a' <= ch && ch <= 'z') || ('0' <= ch && ch <= '9') || ch == '_' || ch == '-') {
            return false;
        }
        i = i + 1;
    }
    true
}

pub fn parse_tags(items: &[Value]) -> (r: Result<Vec<String>, String>)
    ensures
        match r {
            Ok(t) => tags_of(json_items(items@)) == Ok::<Seq<Seq<char>>, Seq<char>>(texts(t@)),
            Err(e) => tags_of(json_items(items@)) == Err::<Seq<Seq<char>>, Seq<char>>(e@),
        },
{
    let ghost all = json_items(items@);
    proof {
        lemma_json_items_len(items@);
        assert(all.skip(0) =~= all);
        assert(texts(Seq::<String>::empty()) =~= Seq::<Seq<char>>::empty());
    }
    let mut tags: Vec<String> = Vec::new();
    let mut i: usize = 0;
    while i < items.len()
        invariant
            i <= items@.len(),
            all == json_items(items@),
            all.len() == items@.len(),
            forall|k: int| 0 <= k < items@.len() ==> #[trigger] all[k] == json_of(items@[k]),
            collect_tags(all, Seq::empty()) == collect_tags(all.skip(i as int), texts(tags@)),
        decreases items@.len() - i,
    {
        let ghost rest = all.skip(i as int);
        assert(rest[0] == json_of(items@[i as int]));
        assert(rest.drop_first() =~= all.skip(i + 1));
        let raw = match items[i].as_str() {
            Some(r) => r,
            None => {
                return Err(owned("tags must be a list of strings"));
            },
        };
        let tag = ascii_lowercase(trimmed(raw).as_str());
        if !is_valid_tag(tag.as_str()) {
            return Err(owned("tags are 1-32 chars: letters, digits, _ -"));
        }
        if !contains_text(&tags, tag.as_str()) {
            let ghost before = tags@;
            tags.push(tag);
            assert(texts(tags@) =~= texts(before).push(tags@.last()@));
        }
        i = i + 1;
    }
    assert(all.skip(i as int) =~= Seq::<Json>::empty());
    if tags.len() > MAX_TAGS {
        return Err(owned("at most 10 tags"));
    }
    Ok(tags)
}

pub struct TodoFieldsView {
    pub uid: Option<Seq<char>>,
    pub title: Option<Seq<char>>,
    pub description: Option<Seq<char>>,
    pub due: Option<Seq<char>>,
    pub priority: Option<int>,
    pub done: Option<bool>,
    pub tags: Option<Seq<Seq<char>>>,
}

pub open spec fn otexts(o: Option<Vec<String>>) -> Option<Seq<Seq<char>>> {
    match o {
        Some(v) => Some(texts(v@)),
        None => None,
    }
}

impl View for TodoFields {
    type V = TodoFieldsView;

    open spec fn view(&self) -> TodoFieldsView {
        TodoFieldsView {
            uid: ostr(self.uid),
            title: ostr(self.title),
            description: ostr(self.description),
            due: ostr(self.due),
            priority: match self.priority {
                Some(p) => Some(p as int),
                None => None,
            },
            done: self.done,
            tags: otexts(self.tags),
        }
    }
}

pub open spec fn title_member(m: Seq<(Seq<char>, Json)>, partial: bool) -> Result<Option<Seq<char>>, Seq<char>> {
    match obj_get(m, "title"@) {
        None => if partial {
            Ok(None)
        } else {
            Err("title is required"@)
        },
        Some(Json::Str(s)) => if trim(s).len() == 0 {
            Err(
                if partial {
                    "title cannot be empty"@
                } else {
                    "title is required"@
                },
            )
        } else if utf8_len(trim(s)) > 512 {
            Err("title is too long"@)
        } else {
            Ok(Some(trim(s)))
        },
        Some(_) => Err("title must be a string"@),
    }
}

pub open spec fn description_member(m: Seq<(Seq<char>, Json)>) -> Result<Option<Seq<char>>, Seq<char>> {
    match obj_get(m, "description"@) {
        None => Ok(None),
        Some(Json::Null) => Ok(Some(Seq::empty())),
        Some(Json::Str(s)) => if utf8_len(s) > 4000 {
            Err("description is too long"@)
        } else {
            Ok(Some(s))
        },
        Some(_) => Err("description must be a string"@),
    }
}

pub open spec fn due_member(m: Seq<(Seq<char>, Json)>) -> Result<Option<Seq<char>>, Seq<char>> {
    match obj_get(m, "due"@) {
        None => Ok(None),
        Some(Json::Null) => Ok(Some(Seq::empty())),
        Some(Json::Str(s)) => match due_of(trim(s)) {
            Ok(d) => Ok(Some(d)),
            Err(e) => Err(e),
        },
        Some(_) => Err("due must be a string"@),
    }
}

pub open spec fn priority_message() -> Seq<char> {
    "priority must be a whole number from 0 to 9"@
}

pub open spec fn priority_member(m: Seq<(Seq<char>, Json)>) -> Result<Option<int>, Seq<char>> {
    match obj_get(m, "priority"@) {
        None => Ok(None),
        Some(Json::Null) => Ok(Some(0)),
        Some(Json::Number(n)) => if 0 <= n <= 9 {
            Ok(Some(n))
        } else {
            Err(priority_message())
        },
        Some(_) => Err(priority_message()),
    }
}

pub open spec fn done_member(m: Seq<(Seq<char>, Json)>) -> Result<Option<bool>, Seq<char>> {
    match obj_get(m, "done"@) {
        None => Ok(None),
        Some(Json::Bool(b)) => Ok(Some(b)),
        Some(_) => Err("done must be true or false"@),
    }
}

pub open spec fn tags_member(m: Seq<(Seq<char>, Json)>) -> Result<Option<Seq<Seq<char>>>, Seq<char>> {
    match obj_get(m, "tags"@) {
        None => Ok(None),
        Some(Json::Null) => Ok(Some(Seq::empty())),
        Some(Json::Arr(items)) => match tags_of(items) {
            Ok(t) => Ok(Some(t)),
            Err(e) => Err(e),
        },
        Some(_) => Err(tag_list_message()),
    }
}

pub open spec fn uid_member(m: Seq<(Seq<char>, Json)>) -> Result<Option<Seq<char>>, Seq<char>> {
    match obj_get(m, "uid"@) {
        None => Ok(None),
        Some(Json::Str(s)) => if valid_uid(trim(s)) {
            Ok(Some(trim(s)))
        } else {
            Err(uid_message())
        },
        Some(_) => Err(uid_message()),
    }
}

/// `parse_todo_fields`: the members are read in the order title,
/// description, due, priority, done, tags, uid, and the first bad one is the
/// error. A full body (`partial` false) needs a title; a patch needs at
/// least one field besides the uid.
pub open spec fn todo_fields_of(body: Json, partial: bool) -> Result<TodoFieldsView, Seq<char>> {
    match body {
        Json::Obj(m) => match title_member(m, partial) {
            Err(e) => Err(e),
            Ok(title) => match description_member(m) {
                Err(e) => Err(e),
                Ok(description) => match due_member(m) {
                    Err(e) => Err(e),
                    Ok(due) => match priority_member(m) {
                        Err(e) => Err(e),
                        Ok(priority) => match done_member(m) {
                            Err(e) => Err(e),
                            Ok(done) => match tags_member(m) {
                                Err(e) => Err(e),
                                Ok(tags) => match uid_member(m) {
                                    Err(e) => Err(e),
                                    Ok(uid) => if partial && title is None && description is None
                                        && due is None && priority is None && done is None
                                        && tags is None {
                                        Err("no fields to update"@)
                                    } else {
                                        Ok(
                                            TodoFieldsView {
                                                uid,
                                                title,
                                                description,
                                                due,
                                                priority,
                                                done,
                                                tags,
                                            },
                                        )
                                    },
                                },
                            },
                        },
                    },
                },
            },
        },
        _ => Err("body must be an object"@),
    }
}

fn read_title(obj: &Vec<(String, Value)>, partial: bool) -> (r: Result<Option<String>, String>)
    ensures
        match r {
            Ok(o) => title_member(json_entries(obj@), partial) == Ok::<Option<Seq<char>>, Seq<char>>(ostr(o)),
            Err(e) => title_member(json_entries(obj@), partial) == Err::<Option<Seq<char>>, Seq<char>>(e@),
        },
{
    match entry_get(obj, "title") {
        None => if partial {
            Ok(None)
        } else {
            Err(owned("title is required"))
        },
        Some(Value::String(s)) => {
            let t = trimmed(s.as_str());
            if t.as_str().is_empty() {
                return Err(owned(
                    if partial {
                        "title cannot be empty"
                    } else {
                        "title is required"
                    },
                ));
            }
            if utf8_longer_than(t.as_str(), 512) {
                return Err(owned("title is too long"));
            }
            Ok(Some(t))
        },
        Some(_) => Err(owned("title must be a string")),
    }
}

fn read_description(obj: &Vec<(String, Value)>) -> (r: Result<Option<String>, String>)
    ensures
        match r {
            Ok(o) => description_member(json_entries(obj@)) == Ok::<Option<Seq<char>>, Seq<char>>(ostr(o)),
            Err(e) => description_member(json_entries(obj@)) == Err::<Option<Seq<char>>, Seq<char>>(e@),
        },
{
    match entry_get(obj, "description") {
        None => Ok(None),
        Some(Value::Null) => Ok(Some(String::new())),
        Some(Value::String(s)) => if utf8_longer_than(s.as_str(), 4000) {
            Err(owned("description is too long"))
        } else {
            Ok(Some(s.clone()))
        },
        Some(_) => Err(owned("description must be a string")),
    }
}

fn read_due(obj: &Vec<(String, Value)>) -> (r: Result<Option<String>, String>)
    ensures
        match r {
            Ok(o) => due_member(json_entries(obj@)) == Ok::<Option<Seq<char>>, Seq<char>>(ostr(o)),
            Err(e) => due_member(json_entries(obj@)) == Err::<Option<Seq<char>>, Seq<char>>(e@),
        },
{
    match entry_get(obj, "due") {
        None => Ok(None),
        Some(Value::Null) => Ok(Some(String::new())),
        Some(Value::String(s)) => {
            let d = parse_due(trimmed(s.as_str()).as_str())?;
            Ok(Some(d))
        },
        Some(_) => Err(owned("due must be a string")),
    }
}

fn read_priority(obj: &Vec<(String, Value)>) -> (r: Result<Option<i64>, String>)
    ensures
        match r {
            Ok(Some(p)) => priority_member(json_entries(obj@)) == Ok::<Option<int>, Seq<char>>(Some(p as int)),
            Ok(None) => priority_member(json_entries(obj@)) == Ok::<Option<int>, Seq<char>>(None),
            Err(e) => priority_member(json_entries(obj@)) == Err::<Option<int>, Seq<char>>(e@),
        },
{
    match entry_get(obj, "priority") {
        None => Ok(None),
        Some(Value::Null) => Ok(Some(0)),
        Some(Value::Number(n)) => if 0 <= *n && *n <= 9 {
            Ok(Some(*n))
        } else {
            Err(owned("priority must be a whole number from 0 to 9"))
        },
        Some(_) => Err(owned("priority must be a whole number from 0 to 9")),
    }
}

fn read_done(obj: &Vec<(String, Value)>) -> (r: Result<Option<bool>, String>)
    ensures
        match r {
            Ok(o) => done_member(json_entries(obj@)) == Ok::<Option<bool>, Seq<char>>(o),
            Err(e) => done_member(json_entries(obj@)) == Err::<Option<bool>, Seq<char>>(e@),
        },
{
    match entry_get(obj, "done") {
        None => Ok(None),
        Some(Value::Bool(b)) => Ok(Some(*b)),
        Some(_) => Err(owned("done must be true or false")),
    }
}

pub fn read_tag_list(obj: &Vec<(String, Value)>) -> (r: Result<Option<Vec<String>>, String>)
    ensures
        match r {
            Ok(o) => tags_member(json_entries(obj@)) == Ok::<Option<Seq<Seq<char>>>, Seq<char>>(otexts(o)),
            Err(e) => tags_member(json_entries(obj@)) == Err::<Option<Seq<Seq<char>>>, Seq<char>>(e@),
        },
{
    match entry_get(obj, "tags") {
        None => Ok(None),
        Some(Value::Null) => {
            let v: Vec<String> = Vec::new();
            assert(texts(v@) =~= Seq::<Seq<char>>::empty());
            Ok(Some(v))
        },
        Some(Value::Array(items)) => {
            let t = parse_tags(items.as_slice())?;
            Ok(Some(t))
        },
        Some(_) => Err(owned("tags must be a list of strings")),
    }
}

pub fn read_item_uid(obj: &Vec<(String, Value)>) -> (r: Result<Option<String>, String>)
    ensures
        match r {
            Ok(o) => uid_member(json_entries(obj@)) == Ok::<Option<Seq<char>>, Seq<char>>(ostr(o)),
            Err(e) => uid_member(json_entries(obj@)) == Err::<Option<Seq<char>>, Seq<char>>(e@),
        },
{
    match entry_get(obj, "uid") {
        None => Ok(None),
        Some(Value::String(s)) => {
            let t = trimmed(s.as_str());
            if is_uid(t.as_str()) {
                Ok(Some(t))
            } else {
                Err(owned("uid must be 1-200 chars: letters, digits, . _ @ -"))
            }
        },
        Some(_) => Err(owned("uid must be 1-200 chars: letters, digits, . _ @ -")),
    }
}

/// Parse a todo body. Wrong types are errors, never silently dropped.
pub fn parse_todo_fields(body: &Value, partial: bool) -> (r: Result<TodoFields, String>)
    ensures
        match r {
            Ok(f) => todo_fields_of(body@, partial) == Ok::<TodoFieldsView, Seq<char>>(f@),
            Err(e) => todo_fields_of(body@, partial) == Err::<TodoFieldsView, Seq<char>>(e@),
        },
{
    let obj = match body.as_object() {
        Some(o) => o,
        None => {
            return Err(owned("body must be an object"));
        },
    };
    let title = read_title(obj, partial)?;
    let description = read_description(obj)?;
    let due = read_due(obj)?;
    let priority = read_priority(obj)?;
    let done = read_done(obj)?;
    let tags = read_tag_list(obj)?;
    let uid = read_item_uid(obj)?;
    if partial && title.is_none() && description.is_none() && due.is_none() && priority.is_none()
        && done.is_none() && tags.is_none() {
        return Err(owned("no fields to update"));
    }
    Ok(TodoFields { uid, title, description, due, priority, done, tags })
}

// ---- what a write stores ------------------------------------------------------------

pub open spec fn opt_todo(o: Option<&TodoRow>) -> Option<TodoRow> {
    match o {
        Some(e) => Some(*e),
        None => None,
    }
}

/// `completed_at` for a todo about to be saved. Finishing stamps the time;
/// staying finished keeps the original; reopening clears it.
pub open spec fn completion_spec(done: bool, existing: Option<TodoRow>, now: Seq<char>) -> Seq<char> {
    if !done {
        Seq::empty()
    } else {
        match existing {
            Some(e) => if e.done && e.completed_at@.len() > 0 {
                e.completed_at@
            } else {
                now
            },
            None => now,
        }
    }
}

pub fn completion(done: bool, existing: Option<&TodoRow>, now: &str) -> (out: String)
    ensures
        out@ == completion_spec(done, opt_todo(existing), now@),
{
    if !done {
        return String::new();
    }
    match existing {
        Some(e) => if e.done && !e.completed_at.as_str().is_empty() {
            e.completed_at.clone()
        } else {
            owned(now)
        },
        None => owned(now),
    }
}

/// The uid a full todo write uses: the title is checked first, then the uid
/// given (else the generated one) must be valid.
pub fn todo_write_uid(fields: &TodoFields, uid: Option<&str>, generated: &str) -> (r: Result<
    String,
    String,
>)
    ensures
        fields.title is None ==> (r matches Err(e) && e@ == "title is required"@),
        fields.title is Some ==> (r is Ok <==> valid_uid(chosen_uid(opt_view(uid), generated@))),
        fields.title is Some ==> (r matches Ok(u) ==> u@ == chosen_uid(opt_view(uid), generated@)),
        fields.title is Some ==> (r matches Err(e) ==> e@ == uid_message()),
{
    if fields.title.is_none() {
        return Err(owned("title is required"));
    }
    let given = match uid {
        Some(u) => Some(owned(u)),
        None => None,
    };
    choose_uid(&given, generated)
}

/// The fields a todo write stores, tags packed for storage.
#[derive(Debug)]
pub struct TodoWrite {
    pub title: String,
    pub description: String,
    pub due: String,
    pub priority: i64,
    pub done: bool,
    pub completed_at: String,
    pub tags: String,
}

pub struct TodoWriteView {
    pub title: Seq<char>,
    pub description: Seq<char>,
    pub due: Seq<char>,
    pub priority: int,
    pub done: bool,
    pub completed_at: Seq<char>,
    pub tags: Seq<char>,
}

impl View for TodoWrite {
    type V = TodoWriteView;

    open spec fn view(&self) -> TodoWriteView {
        TodoWriteView {
            title: self.title@,
            description: self.description@,
            due: self.due@,
            priority: self.priority as int,
            done: self.done,
            completed_at: self.completed_at@,
            tags: self.tags@,
        }
    }
}

/// `upsert_todo`: what the fields leave out comes from the existing row, else
/// is empty, priority 0, not done.
pub open spec fn todo_upsert_write(f: TodoFieldsView, existing: Option<TodoRow>, now: Seq<char>) -> Result<
    TodoWriteView,
    Seq<char>,
> {
    match f.title {
        None => Err("title is required"@),
        Some(title) => {
            let done = match f.done {
                Some(d) => d,
                None => match existing {
                    Some(e) => e.done,
                    None => false,
                },
            };
            Ok(
                TodoWriteView {
                    title,
                    description: match f.description {
                        Some(d) => d,
                        None => match existing {
                            Some(e) => e.description@,
                            None => Seq::empty(),
                        },
                    },
                    due: match f.due {
                        Some(d) => d,
                        None => match existing {
                            Some(e) => e.due@,
                            None => Seq::empty(),
                        },
                    },
                    priority: match f.priority {
                        Some(p) => p,
                        None => match existing {
                            Some(e) => e.priority as int,
                            None => 0,
                        },
                    },
                    done,
                    completed_at: completion_spec(done, existing, now),
                    tags: packed_tags(
                        match f.tags {
                            Some(t) => t,
                            None => match existing {
                                Some(e) => texts(e.tags@),
                                None => Seq::empty(),
                            },
                        },
                    ),
                },
            )
        },
    }
}

pub fn text_or(o: &Option<String>, fallback: Option<&String>) -> (r: String)
    ensures
        r@ == (match ostr(*o) {
            Some(x) => x,
            None => match fallback {
                Some(f) => f@,
                None => Seq::empty(),
            },
        }),
{
    match o {
        Some(x) => x.clone(),
        None => match fallback {
            Some(f) => f.clone(),
            None => String::new(),
        },
    }
}

pub fn tags_or(o: &Option<Vec<String>>, fallback: Option<&Vec<String>>) -> (r: String)
    ensures
        r@ == packed_tags(
            match otexts(*o) {
                Some(t) => t,
                None => match fallback {
                    Some(f) => texts(f@),
                    None => Seq::empty(),
                },
            },
        ),
{
    match o {
        Some(t) => pack_tags(t.as_slice()),
        None => match fallback {
            Some(f) => pack_tags(f.as_slice()),
            None => {
                let e: Vec<String> = Vec::new();
                assert(texts(e@) =~= Seq::<Seq<char>>::empty());
                pack_tags(e.as_slice())
            },
        },
    }
}

pub fn plan_todo_upsert(fields: &TodoFields, existing: &Option<TodoRow>, now: &str) -> (r: Result<
    TodoWrite,
    String,
>)
    ensures
        match r {
            Ok(w) => todo_upsert_write(fields@, *existing, now@) == Ok::<TodoWriteView, Seq<char>>(w@),
            Err(e) => todo_upsert_write(fields@, *existing, now@) == Err::<TodoWriteView, Seq<char>>(e@),
        },
{
    let title = match &fields.title {
        Some(t) => t.clone(),
        None => {
            return Err(owned("title is required"));
        },
    };
    let e = match existing {
        Some(e) => Some(e),
        None => None,
    };
    let done = match fields.done {
        Some(d) => d,
        None => match e {
            Some(x) => x.done,
            None => false,
        },
    };
    let description = text_or(&fields.description, match e {
        Some(x) => Some(&x.description),
        None => None,
    });
    let due = text_or(&fields.due, match e {
        Some(x) => Some(&x.due),
        None => None,
    });
    let priority = match fields.priority {
        Some(p) => p,
        None => match e {
            Some(x) => x.priority,
            None => 0,
        },
    };
    let tags = tags_or(&fields.tags, match e {
        Some(x) => Some(&x.tags),
        None => None,
    });
    let completed_at = completion(done, e, now);
    Ok(TodoWrite { title, description, due, priority, done, completed_at, tags })
}

/// `patch_todo`: each field left out keeps the row's value.
pub open spec fn todo_patch_write(existing: TodoRow, f: TodoFieldsView, now: Seq<char>) -> TodoWriteView {
    let done = match f.done {
        Some(d) => d,
        None => existing.done,
    };
    TodoWriteView {
        title: match f.title {
            Some(t) => t,
            None => existing.title@,
        },
        description: match f.description {
            Some(d) => d,
            None => existing.description@,
        },
        due: match f.due {
            Some(d) => d,
            None => existing.due@,
        },
        priority: match f.priority {
            Some(p) => p,
            None => existing.priority as int,
        },
        done,
        completed_at: completion_spec(done, Some(existing), now),
        tags: packed_tags(
            match f.tags {
                Some(t) => t,
                None => texts(existing.tags@),
            },
        ),
    }
}

pub fn plan_todo_patch(existing: &TodoRow, fields: &TodoFields, now: &str) -> (w: TodoWrite)
    ensures
        w@ == todo_patch_write(*existing, fields@, now@),
{
    let done = match fields.done {
        Some(d) => d,
        None => existing.done,
    };
    TodoWrite {
        title: text_or(&fields.title, Some(&existing.title)),
        description: text_or(&fields.description, Some(&existing.description)),
        due: text_or(&fields.due, Some(&existing.due)),
        priority: match fields.priority {
            Some(p) => p,
            None => existing.priority,
        },
        done,
        completed_at: completion(done, Some(existing), now),
        tags: tags_or(&fields.tags, Some(&existing.tags)),
    }
}

// ---- JSON ---------------------------------------------------------------------------

/// `null` for an empty text.
pub open spec fn optional_text(s: Seq<char>) -> Json {
    if s.len() == 0 {
        Json::Null
    } else {
        Json::Str(s)
    }
}

pub open spec fn todo_members(row: TodoRow) -> Seq<(Seq<char>, Json)> {
    if row.seal@.len() > 0 {
        seq![
            ("uid"@, Json::Str(row.uid@)),
            ("seal"@, Json::Str(row.seal@)),
            ("createdAt"@, Json::Str(row.created_at@)),
            ("updatedAt"@, Json::Str(row.updated_at@)),
        ]
    } else {
        seq![
            ("uid"@, Json::Str(row.uid@)),
            ("title"@, Json::Str(row.title@)),
            ("description"@, Json::Str(row.description@)),
            ("due"@, optional_text(row.due@)),
            ("priority"@, Json::Number(row.priority as int)),
            ("done"@, Json::Bool(row.done)),
            ("completedAt"@, optional_text(row.completed_at@)),
            ("tags"@, Json::Arr(row.tags@.map_values(|t: String| text_json(t)))),
            ("createdAt"@, Json::Str(row.created_at@)),
            ("updatedAt"@, Json::Str(row.updated_at@)),
        ]
    }
}

fn optional_value(s: &String) -> (v: Value)
    ensures
        v@ == optional_text(s@),
{
    if s.as_str().is_empty() {
        Value::Null
    } else {
        Value::String(s.clone())
    }
}

pub fn json_todo(row: &TodoRow) -> (r: Value)
    ensures
        r@ == Json::Obj(obj_build(todo_members(*row))),
{
    let mut pairs: Vec<(&str, Value)> = Vec::new();
    pairs.push(("uid", Value::String(row.uid.clone())));
    if !row.seal.as_str().is_empty() {
        pairs.push(("seal", Value::String(row.seal.clone())));
        pairs.push(("createdAt", Value::String(row.created_at.clone())));
        pairs.push(("updatedAt", Value::String(row.updated_at.clone())));
        assert(member_views(pairs@) =~= todo_members(*row));
        return Value::object(pairs.as_slice());
    }
    pairs.push(("title", Value::String(row.title.clone())));
    pairs.push(("description", Value::String(row.description.clone())));
    pairs.push(("due", optional_value(&row.due)));
    pairs.push(("priority", Value::Number(row.priority)));
    pairs.push(("done", Value::Bool(row.done)));
    pairs.push(("completedAt", optional_value(&row.completed_at)));
    pairs.push(("tags", Value::Array(text_values(&row.tags))));
    pairs.push(("createdAt", Value::String(row.created_at.clone())));
    pairs.push(("updatedAt", Value::String(row.updated_at.clone())));
    assert(member_views(pairs@) =~= todo_members(*row));
    Value::object(pairs.as_slice())
}

pub open spec fn good_tags(t: Seq<Seq<char>>) -> bool {
    &&& forall|k: int| 0 <= k < t.len() ==> valid_tag(#[trigger] t[k])
    &&& forall|j: int, k: int| 0 <= j < k < t.len() ==> #[trigger] t[j] != #[trigger] t[k]
}

proof fn lemma_collect_tags_good(items: Seq<Json>, acc: Seq<Seq<char>>)
    requires
        good_tags(acc),
    ensures
        collect_tags(items, acc) matches Ok(t) ==> good_tags(t),
    decreases items.len(),
{
    if items.len() > 0 {
        if let Json::Str(raw) = items[0] {
            let tag = lower_seq(trim(raw));
            if valid_tag(tag) {
                if acc.contains(tag) {
                    lemma_collect_tags_good(items.drop_first(), acc);
                } else {
                    let next = acc.push(tag);
                    assert forall|j: int, k: int| 0 <= j < k < next.len() implies #[trigger] next[j]
                        != #[trigger] next[k] by {
                        if k == next.len() - 1 {
                            assert(next[j] == acc[j]);
                            if acc[j] == tag {
                                assert(acc.contains(tag));
                            }
                        }
                    }
                    lemma_collect_tags_good(items.drop_first(), next);
                }
            }
        }
    }
}

/// Tags read from a request are valid, distinct and at most ten, and come
/// back unchanged from storage.
pub proof fn lemma_parsed_tags_survive_storage(items: Seq<Json>)
    ensures
        tags_of(items) matches Ok(t) ==> {
            &&& t.len() <= 10
            &&& good_tags(t)
            &&& unpacked_tags(packed_tags(t)) == t
        },
{
    lemma_collect_tags_good(items, Seq::empty());
    if let Ok(t) = tags_of(items) {
        assert forall|k: int| 0 <= k < t.len() implies storable_tag(#[trigger] t[k]) by {
            assert(valid_tag(t[k]));
            if has_char(t[k], ',') {
                let j = choose|j: int| 0 <= j < t[k].len() && t[k][j] == ',';
                assert(tag_char(t[k][j]));
            }
        }
        lemma_tags_roundtrip(t);
    }
}

/// A patch keeps what it leaves out: the stored text, priority and done
/// flag, tags that read back as the stored ones, and, for an item that stays
/// done, the time it was first finished.
pub proof fn lemma_todo_patch_keeps_absent(existing: TodoRow, f: TodoFieldsView, now: Seq<char>)
    requires
        forall|k: int| 0 <= k < existing.tags@.len() ==> storable_tag(#[trigger] existing.tags@[k]@),
    ensures
        ({
            let w = todo_patch_write(existing, f, now);
            &&& f.title is None ==> w.title == existing.title@
            &&& f.description is None ==> w.description == existing.description@
            &&& f.due is None ==> w.due == existing.due@
            &&& f.priority is None ==> w.priority == existing.priority
            &&& f.done is None ==> w.done == existing.done
            &&& f.tags is None ==> unpacked_tags(w.tags) == texts(existing.tags@)
            &&& (f.done is None || f.done == Some(true)) && existing.done && existing.completed_at@.len() > 0
                ==> w.completed_at == existing.completed_at@
        }),
{
    assert forall|k: int| 0 <= k < texts(existing.tags@).len() implies storable_tag(
        #[trigger] texts(existing.tags@)[k],
    ) by {
        assert(texts(existing.tags@)[k] == existing.tags@[k]@);
    }
    lemma_tags_roundtrip(texts(existing.tags@));
}

/// `PUT` is idempotent: the same fields again, over the row the first `PUT`
/// stored, store the same thing, whenever the second one runs; a finished
/// item keeps the time it was first finished.
pub proof fn lemma_put_is_idempotent(
    f: TodoFieldsView,
    existing: Option<TodoRow>,
    now: Seq<char>,
    stored: TodoRow,
    later: Seq<char>,
)
    requires
        now.len() > 0,
        f.tags matches Some(t) ==> forall|k: int| 0 <= k < t.len() ==> storable_tag(#[trigger] t[k]),
        existing matches Some(e) ==> forall|k: int|
            0 <= k < e.tags@.len() ==> storable_tag(#[trigger] e.tags@[k]@),
        todo_upsert_write(f, existing, now) matches Ok(w) && stored.title@ == w.title
            && stored.description@ == w.description && stored.due@ == w.due && stored.priority == w.priority
            && stored.done == w.done && stored.completed_at@ == w.completed_at && texts(stored.tags@)
            == unpacked_tags(w.tags),
    ensures
        todo_upsert_write(f, Some(stored), later) == todo_upsert_write(f, existing, now),
{
    let t0 = match f.tags {
        Some(t) => t,
        None => match existing {
            Some(e) => texts(e.tags@),
            None => Seq::empty(),
        },
    };
    assert forall|k: int| 0 <= k < t0.len() implies storable_tag(#[trigger] t0[k]) by {
        if f.tags is None {
            if let Some(e) = existing {
                assert(texts(e.tags@)[k] == e.tags@[k]@);
            }
        }
    }
    lemma_tags_roundtrip(t0);
}

/// A `PUT` keeps what its body leaves out and clears what it sends as null;
/// `"done": true` stamps the time an open item is finished and keeps the
/// stamp of one already finished, `"done": false` clears it.
pub proof fn lemma_put_keeps_what_it_leaves_out(
    m: Seq<(Seq<char>, Json)>,
    existing: TodoRow,
    now: Seq<char>,
)
    requires
        todo_fields_of(Json::Obj(m), false) is Ok,
        forall|k: int| 0 <= k < existing.tags@.len() ==> storable_tag(#[trigger] existing.tags@[k]@),
    ensures
        ({
            let f = todo_fields_of(Json::Obj(m), false)->Ok_0;
            let r = todo_upsert_write(f, Some(existing), now);
            &&& r is Ok
            &&& obj_get(m, "description"@) is None ==> r->Ok_0.description == existing.description@
            &&& obj_get(m, "description"@) == Some(Json::Null) ==> r->Ok_0.description == Seq::<char>::empty()
            &&& obj_get(m, "due"@) is None ==> r->Ok_0.due == existing.due@
            &&& obj_get(m, "due"@) == Some(Json::Null) ==> r->Ok_0.due == Seq::<char>::empty()
            &&& obj_get(m, "priority"@) is None ==> r->Ok_0.priority == existing.priority
            &&& obj_get(m, "priority"@) == Some(Json::Null) ==> r->Ok_0.priority == 0
            &&& obj_get(m, "done"@) is None ==> r->Ok_0.done == existing.done
            &&& obj_get(m, "tags"@) is None ==> unpacked_tags(r->Ok_0.tags) == texts(existing.tags@)
            &&& obj_get(m, "tags"@) == Some(Json::Null) ==> r->Ok_0.tags == Seq::<char>::empty()
            &&& obj_get(m, "done"@) == Some(Json::Bool(false)) ==> r->Ok_0.completed_at == Seq::<char>::empty()
            &&& obj_get(m, "done"@) == Some(Json::Bool(true)) && !existing.done ==> r->Ok_0.completed_at == now
            &&& obj_get(m, "done"@) == Some(Json::Bool(true)) && existing.done && existing.completed_at@.len() > 0
                ==> r->Ok_0.completed_at == existing.completed_at@
        }),
{
    assert forall|k: int| 0 <= k < texts(existing.tags@).len() implies storable_tag(
        #[trigger] texts(existing.tags@)[k],
    ) by {
        assert(texts(existing.tags@)[k] == existing.tags@[k]@);
    }
    lemma_tags_roundtrip(texts(existing.tags@));
}


/// A patch sets each field it names, whatever the stored row held: two rows
/// patched with the same fields agree on every named field. Tags read back
/// as the ones named. Finishing a todo that was open stamps `now`; reopening
/// one clears the stamp.
pub proof fn lemma_todo_patch_sets_named(existing: TodoRow, other: TodoRow, f: TodoFieldsView, now: Seq<char>)
    requires
        f.tags matches Some(t) ==> forall|k: int| 0 <= k < t.len() ==> storable_tag(#[trigger] t[k]),
    ensures
        ({
            let w = todo_patch_write(existing, f, now);
            let v = todo_patch_write(other, f, now);
            &&& f.title matches Some(t) ==> w.title == t && v.title == t
            &&& f.description matches Some(d) ==> w.description == d && v.description == d
            &&& f.due matches Some(d) ==> w.due == d && v.due == d
            &&& f.priority matches Some(p) ==> w.priority == p && v.priority == p
            &&& f.done matches Some(d) ==> w.done == d && v.done == d
            &&& f.tags matches Some(t) ==> unpacked_tags(w.tags) == t && w.tags == v.tags
            &&& f.done == Some(true) && !existing.done ==> w.completed_at == now
            &&& f.done == Some(false) ==> w.completed_at.len() == 0
        }),
{
    if let Some(t) = f.tags {
        lemma_tags_roundtrip(t);
    }
}

} // verus!
