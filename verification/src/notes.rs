//! Notes: the rows, the rules for writing them, and their JSON.
//!
//! Same shape as todos: rows in the shared database keyed by calendar id and
//! the calendar's one write key.

use vstd::prelude::*;
use crate::text::{chars_of, owned, texts, trim, trimmed, utf8_len, utf8_longer_than};
use crate::json::{Json, Value, entry_get, json_entries, member_views, obj_build, obj_get};
use crate::db::{choose_uid, chosen_uid, opt_view, ostr, text_json, text_values, uid_message, valid_uid};
use crate::todos::{lemma_tags_roundtrip, otexts, packed_tags, storable_tag, unpacked_tags, read_item_uid, read_tag_list, tags_member, tags_or, text_or, uid_member};

verus! {

pub const MAX_TITLE: usize = 200;

/// Markdown text. Under the 64KB request cap so a note always fits in one PUT.
pub const MAX_BODY: usize = 32768;

#[derive(Debug, Clone)]
pub struct NoteRow {
    pub uid: String,
    pub title: String,
    pub body: String,
    pub tags: Vec<String>,
    pub pinned: bool,
    pub sequence: i64,
    pub created_at: String,
    pub updated_at: String,
    pub seal: String,
}

/// What a write may set. `None` leaves the stored value alone.
#[derive(Debug)]
pub struct NoteFields {
    pub uid: Option<String>,
    pub title: Option<String>,
    pub body: Option<String>,
    pub tags: Option<Vec<String>>,
    pub pinned: Option<bool>,
}

// ---- search -------------------------------------------------------------------------

pub open spec fn like_escaped(s: Seq<char>) -> Seq<char>
    decreases s.len(),
{
    if s.len() == 0 {
        Seq::empty()
    } else {
        let c = s.last();
        like_escaped(s.drop_last()) + if c == '\\' || c == '%' || c == '_' {
            seq!['\\', c]
        } else {
            seq![c]
        }
    }
}

/// `%needle%` for `LIKE ... ESCAPE '\'`, with the wildcards in `needle` made literal.
pub fn like_pattern(needle: &str) -> (out: String)
    ensures
        out@ == seq!['%'] + like_escaped(needle@) + seq!['%'],
{
    let c = chars_of(needle);
    let mut out = String::new();
    out.push('%');
    let mut i: usize = 0;
    while i < c.len()
        invariant
            i <= c@.len(),
            c@ == needle@,
            out@ == seq!['%'] + like_escaped(c@.take(i as int)),
        decreases c@.len() - i,
    {
        let ch = c[i];
        if ch == '\\' || ch == '%' || ch == '_' {
            out.push('\\');
        }
        out.push(ch);
        proof {
            assert(c@.take(i + 1).drop_last() =~= c@.take(i as int));
        }
        i = i + 1;
        assert(out@ =~= seq!['%'] + like_escaped(c@.take(i as int)));
    }
    out.push('%');
    assert(c@.take(i as int) =~= c@);
    out
}

// ---- input --------------------------------------------------------------------------

pub struct NoteFieldsView {
    pub uid: Option<Seq<char>>,
    pub title: Option<Seq<char>>,
    pub body: Option<Seq<char>>,
    pub tags: Option<Seq<Seq<char>>>,
    pub pinned: Option<bool>,
}

impl View for NoteFields {
    type V = NoteFieldsView;

    open spec fn view(&self) -> NoteFieldsView {
        NoteFieldsView {
            uid: ostr(self.uid),
            title: ostr(self.title),
            body: ostr(self.body),
            tags: otexts(self.tags),
            pinned: self.pinned,
        }
    }
}

pub open spec fn note_title_member(m: Seq<(Seq<char>, Json)>, partial: bool) -> Result<
    Option<Seq<char>>,
    Seq<char>,
> {
    match obj_get(m, "title"@) {
        None => if partial {
            Ok(None)
        } else {
            Err("title is required"@)
        },
        Some(Json::Str(s)) => if trim(s).len() == 0 {
            Err(
                if partial {
                    "title cannot be empty"@
                } else {
                    "title is required"@
                },
            )
        } else if utf8_len(trim(s)) > 200 {
            Err("title is too long"@)
        } else {
            Ok(Some(trim(s)))
        },
        Some(_) => Err("title must be a string"@),
    }
}

pub open spec fn body_member(m: Seq<(Seq<char>, Json)>) -> Result<Option<Seq<char>>, Seq<char>> {
    match obj_get(m, "body"@) {
        None => Ok(None),
        Some(Json::Null) => Ok(Some(Seq::empty())),
        Some(Json::Str(s)) => if utf8_len(s) > 32768 {
            Err("body is too long"@)
        } else {
            Ok(Some(s))
        },
        Some(_) => Err("body must be a string"@),
    }
}

pub open spec fn pinned_member(m: Seq<(Seq<char>, Json)>) -> Result<Option<bool>, Seq<char>> {
    match obj_get(m, "pinned"@) {
        None => Ok(None),
        Some(Json::Bool(b)) => Ok(Some(b)),
        Some(_) => Err("pinned must be true or false"@),
    }
}

/// `parse_note_fields`: members read in the order title, body, pinned, tags,
/// uid; the first bad one is the error. A full body needs a title; a patch
/// needs at least one field besides the uid.
pub open spec fn note_fields_of(body: Json, partial: bool) -> Result<NoteFieldsView, Seq<char>> {
    match body {
        Json::Obj(m) => match note_title_member(m, partial) {
            Err(e) => Err(e),
            Ok(title) => match body_member(m) {
                Err(e) => Err(e),
                Ok(text) => match pinned_member(m) {
                    Err(e) => Err(e),
                    Ok(pinned) => match tags_member(m) {
                        Err(e) => Err(e),
                        Ok(tags) => match uid_member(m) {
                            Err(e) => Err(e),
                            Ok(uid) => if partial && title is None && text is None && pinned is None
                                && tags is None {
                                Err("no fields to update"@)
                            } else {
                                Ok(NoteFieldsView { uid, title, body: text, tags, pinned })
                            },
                        },
                    },
                },
            },
        },
        _ => Err("body must be an object"@),
    }
}

fn read_note_title(obj: &Vec<(String, Value)>, partial: bool) -> (r: Result<Option<String>, String>)
    ensures
        match r {
            Ok(o) => note_title_member(json_entries(obj@), partial) == Ok::<Option<Seq<char>>, Seq<char>>(ostr(o)),
            Err(e) => note_title_member(json_entries(obj@), partial) == Err::<Option<Seq<char>>, Seq<char>>(e@),
        },
{
    match entry_get(obj, "title") {
        None => if partial {
            Ok(None)
        } else {
            Err(owned("title is required"))
        },
        Some(Value::String(s)) => {
            let t = trimmed(s.as_str());
            if t.as_str().is_empty() {
                return Err(owned(
                    if partial {
                        "title cannot be empty"
                    } else {
                        "title is required"
                    },
                ));
            }
            if utf8_longer_than(t.as_str(), MAX_TITLE) {
                return Err(owned("title is too long"));
            }
            Ok(Some(t))
        },
        Some(_) => Err(owned("title must be a string")),
    }
}

fn read_body(obj: &Vec<(String, Value)>) -> (r: Result<Option<String>, String>)
    ensures
        match r {
            Ok(o) => body_member(json_entries(obj@)) == Ok::<Option<Seq<char>>, Seq<char>>(ostr(o)),
            Err(e) => body_member(json_entries(obj@)) == Err::<Option<Seq<char>>, Seq<char>>(e@),
        },
{
    match entry_get(obj, "body") {
        None => Ok(None),
        Some(Value::Null) => Ok(Some(String::new())),
        Some(Value::String(s)) => if utf8_longer_than(s.as_str(), MAX_BODY) {
            Err(owned("body is too long"))
        } else {
            Ok(Some(s.clone()))
        },
        Some(_) => Err(owned("body must be a string")),
    }
}

fn read_pinned(obj: &Vec<(String, Value)>) -> (r: Result<Option<bool>, String>)
    ensures
        match r {
            Ok(o) => pinned_member(json_entries(obj@)) == Ok::<Option<bool>, Seq<char>>(o),
            Err(e) => pinned_member(json_entries(obj@)) == Err::<Option<bool>, Seq<char>>(e@),
        },
{
    match entry_get(obj, "pinned") {
        None => Ok(None),
        Some(Value::Bool(b)) => Ok(Some(*b)),
        Some(_) => Err(owned("pinned must be true or false")),
    }
}

/// Parse a note body. Wrong types are errors, never silently dropped.
pub fn parse_note_fields(body: &Value, partial: bool) -> (r: Result<NoteFields, String>)
    ensures
        match r {
            Ok(f) => note_fields_of(body@, partial) == Ok::<NoteFieldsView, Seq<char>>(f@),
            Err(e) => note_fields_of(body@, partial) == Err::<NoteFieldsView, Seq<char>>(e@),
        },
{
    let obj = match body.as_object() {
        Some(o) => o,
        None => {
            return Err(owned("body must be an object"));
        },
    };
    let title = read_note_title(obj, partial)?;
    let text = read_body(obj)?;
    let pinned = read_pinned(obj)?;
    let tags = read_tag_list(obj)?;
    let uid = read_item_uid(obj)?;
    if partial && title.is_none() && text.is_none() && pinned.is_none() && tags.is_none() {
        return Err(owned("no fields to update"));
    }
    Ok(NoteFields { uid, title, body: text, tags, pinned })
}

// ---- what a write stores ------------------------------------------------------------

/// The uid a full note write uses: the title is checked first, then the uid
/// given (else the generated one) must be valid.
pub fn note_write_uid(fields: &NoteFields, uid: Option<&str>, generated: &str) -> (r: Result<
    String,
    String,
>)
    ensures
        fields.title is None ==> (r matches Err(e) && e@ == "title is required"@),
        fields.title is Some ==> (r is Ok <==> valid_uid(chosen_uid(opt_view(uid), generated@))),
        fields.title is Some ==> (r matches Ok(u) ==> u@ == chosen_uid(opt_view(uid), generated@)),
        fields.title is Some ==> (r matches Err(e) ==> e@ == uid_message()),
{
    if fields.title.is_none() {
        return Err(owned("title is required"));
    }
    let given = match uid {
        Some(u) => Some(owned(u)),
        None => None,
    };
    choose_uid(&given, generated)
}

/// The fields a note write stores, tags packed for storage.
#[derive(Debug)]
pub struct NoteWrite {
    pub title: String,
    pub body: String,
    pub tags: String,
    pub pinned: bool,
}

pub struct NoteWriteView {
    pub title: Seq<char>,
    pub body: Seq<char>,
    pub tags: Seq<char>,
    pub pinned: bool,
}

impl View for NoteWrite {
    type V = NoteWriteView;

    open spec fn view(&self) -> NoteWriteView {
        NoteWriteView { title: self.title@, body: self.body@, tags: self.tags@, pinned: self.pinned }
    }
}

/// `upsert_note`: what the fields leave out comes from the existing row,
/// else is empty and not pinned.
pub open spec fn note_upsert_write(f: NoteFieldsView, existing: Option<NoteRow>) -> Result<
    NoteWriteView,
    Seq<char>,
> {
    match f.title {
        None => Err("title is required"@),
        Some(title) => Ok(
            NoteWriteView {
                title,
                body: match f.body {
                    Some(b) => b,
                    None => match existing {
                        Some(e) => e.body@,
                        None => Seq::empty(),
                    },
                },
                tags: packed_tags(
                    match f.tags {
                        Some(t) => t,
                        None => match existing {
                            Some(e) => texts(e.tags@),
                            None => Seq::empty(),
                        },
                    },
                ),
                pinned: match f.pinned {
                    Some(p) => p,
                    None => match existing {
                        Some(e) => e.pinned,
                        None => false,
                    },
                },
            },
        ),
    }
}

pub fn plan_note_upsert(fields: &NoteFields, existing: &Option<NoteRow>) -> (r: Result<
    NoteWrite,
    String,
>)
    ensures
        match r {
            Ok(w) => note_upsert_write(fields@, *existing) == Ok::<NoteWriteView, Seq<char>>(w@),
            Err(e) => note_upsert_write(fields@, *existing) == Err::<NoteWriteView, Seq<char>>(e@),
        },
{
    let title = match &fields.title {
        Some(t) => t.clone(),
        None => {
            return Err(owned("title is required"));
        },
    };
    let (body, tags, pinned) = match existing {
        Some(e) => (
            text_or(&fields.body, Some(&e.body)),
            tags_or(&fields.tags, Some(&e.tags)),
            match fields.pinned {
                Some(p) => p,
                None => e.pinned,
            },
        ),
        None => (
            text_or(&fields.body, None),
            tags_or(&fields.tags, None),
            match fields.pinned {
                Some(p) => p,
                None => false,
            },
        ),
    };
    Ok(NoteWrite { title, body, tags, pinned })
}

/// `patch_note`: each field left out keeps the row's value.
pub open spec fn note_patch_write(existing: NoteRow, f: NoteFieldsView) -> NoteWriteView {
    NoteWriteView {
        title: match f.title {
            Some(t) => t,
            None => existing.title@,
        },
        body: match f.body {
            Some(b) => b,
            None => existing.body@,
        },
        tags: packed_tags(
            match f.tags {
                Some(t) => t,
                None => texts(existing.tags@),
            },
        ),
        pinned: match f.pinned {
            Some(p) => p,
            None => existing.pinned,
        },
    }
}

pub fn plan_note_patch(existing: &NoteRow, fields: &NoteFields) -> (w: NoteWrite)
    ensures
        w@ == note_patch_write(*existing, fields@),
{
    NoteWrite {
        title: text_or(&fields.title, Some(&existing.title)),
        body: text_or(&fields.body, Some(&existing.body)),
        tags: tags_or(&fields.tags, Some(&existing.tags)),
        pinned: match fields.pinned {
            Some(p) => p,
            None => existing.pinned,
        },
    }
}

// ---- JSON ---------------------------------------------------------------------------

/// A note's members. `with_body` false leaves the text out: a list of long
/// notes would otherwise be megabytes. `size` counts the body's octets.
pub open spec fn note_members(row: NoteRow, with_body: bool) -> Seq<(Seq<char>, Json)> {
    if row.seal@.len() > 0 {
        seq![
            ("uid"@, Json::Str(row.uid@)),
            ("seal"@, Json::Str(row.seal@)),
            ("createdAt"@, Json::Str(row.created_at@)),
            ("updatedAt"@, Json::Str(row.updated_at@)),
        ]
    } else {
        let plain = seq![
            ("uid"@, Json::Str(row.uid@)),
            ("title"@, Json::Str(row.title@)),
            ("size"@, Json::Number((utf8_len(row.body@) as i64) as int)),
            ("pinned"@, Json::Bool(row.pinned)),
            ("tags"@, Json::Arr(row.tags@.map_values(|t: String| text_json(t)))),
            ("createdAt"@, Json::Str(row.created_at@)),
            ("updatedAt"@, Json::Str(row.updated_at@)),
        ];
        if with_body {
            plain.push(("body"@, Json::Str(row.body@)))
        } else {
            plain
        }
    }
}

pub fn json_note(row: &NoteRow, with_body: bool) -> (r: Value)
    ensures
        r@ == Json::Obj(obj_build(note_members(*row, with_body))),
{
    let mut pairs: Vec<(&str, Value)> = Vec::new();
    pairs.push(("uid", Value::String(row.uid.clone())));
    if !row.seal.as_str().is_empty() {
        pairs.push(("seal", Value::String(row.seal.clone())));
        pairs.push(("createdAt", Value::String(row.created_at.clone())));
        pairs.push(("updatedAt", Value::String(row.updated_at.clone())));
        assert(member_views(pairs@) =~= note_members(*row, with_body));
        return Value::object(pairs.as_slice());
    }
    let size = row.body.as_str().as_bytes().len() as i64;
    pairs.push(("title", Value::String(row.title.clone())));
    pairs.push(("size", Value::Number(size)));
    pairs.push(("pinned", Value::Bool(row.pinned)));
    pairs.push(("tags", Value::Array(text_values(&row.tags))));
    pairs.push(("createdAt", Value::String(row.created_at.clone())));
    pairs.push(("updatedAt", Value::String(row.updated_at.clone())));
    if with_body {
        pairs.push(("body", Value::String(row.body.clone())));
    }
    assert(member_views(pairs@) =~= note_members(*row, with_body));
    Value::object(pairs.as_slice())
}

/// A patch keeps what it leaves out: the stored title, body and pin, and
/// tags that read back as the stored ones.
pub proof fn lemma_note_patch_keeps_absent(existing: NoteRow, f: NoteFieldsView)
    requires
        forall|k: int| 0 <= k < existing.tags@.len() ==> storable_tag(#[trigger] existing.tags@[k]@),
    ensures
        ({
            let w = note_patch_write(existing, f);
            &&& f.title is None ==> w.title == existing.title@
            &&& f.body is None ==> w.body == existing.body@
            &&& f.pinned is None ==> w.pinned == existing.pinned
            &&& f.tags is None ==> unpacked_tags(w.tags) == texts(existing.tags@)
        }),
{
    assert forall|k: int| 0 <= k < texts(existing.tags@).len() implies storable_tag(
        #[trigger] texts(existing.tags@)[k],
    ) by {
        assert(texts(existing.tags@)[k] == existing.tags@[k]@);
    }
    lemma_tags_roundtrip(texts(existing.tags@));
}

/// A `PUT` keeps what its body leaves out and clears what it sends as null:
/// with no `body` member the stored text stays, with `"body": null` it is
/// emptied; tags the same; with no `pinned` the pin stays.
pub proof fn lemma_put_keeps_what_it_leaves_out(m: Seq<(Seq<char>, Json)>, existing: NoteRow)
    requires
        note_fields_of(Json::Obj(m), false) is Ok,
        forall|k: int| 0 <= k < existing.tags@.len() ==> storable_tag(#[trigger] existing.tags@[k]@),
    ensures
        ({
            let f = note_fields_of(Json::Obj(m), false)->Ok_0;
            let r = note_upsert_write(f, Some(existing));
            &&& r is Ok
            &&& obj_get(m, "body"@) is None ==> r->Ok_0.body == existing.body@
            &&& obj_get(m, "body"@) == Some(Json::Null) ==> r->Ok_0.body == Seq::<char>::empty()
            &&& obj_get(m, "tags"@) is None ==> unpacked_tags(r->Ok_0.tags) == texts(existing.tags@)
            &&& obj_get(m, "tags"@) == Some(Json::Null) ==> r->Ok_0.tags == Seq::<char>::empty()
            &&& obj_get(m, "pinned"@) is None ==> r->Ok_0.pinned == existing.pinned
        }),
{
    assert forall|k: int| 0 <= k < texts(existing.tags@).len() implies storable_tag(
        #[trigger] texts(existing.tags@)[k],
    ) by {
        assert(texts(existing.tags@)[k] == existing.tags@[k]@);
    }
    lemma_tags_roundtrip(texts(existing.tags@));
}

/// `PUT` is idempotent: the same fields again, over the row the first `PUT`
/// stored, store the same thing.
pub proof fn lemma_put_is_idempotent(f: NoteFieldsView, existing: Option<NoteRow>, stored: NoteRow)
    requires
        f.tags matches Some(t) ==> forall|k: int| 0 <= k < t.len() ==> storable_tag(#[trigger] t[k]),
        existing matches Some(e) ==> forall|k: int|
            0 <= k < e.tags@.len() ==> storable_tag(#[trigger] e.tags@[k]@),
        note_upsert_write(f, existing) matches Ok(w) && stored.title@ == w.title && stored.body@
            == w.body && stored.pinned == w.pinned && texts(stored.tags@) == unpacked_tags(w.tags),
    ensures
        note_upsert_write(f, Some(stored)) == note_upsert_write(f, existing),
{
    let t0 = match f.tags {
        Some(t) => t,
        None => match existing {
            Some(e) => texts(e.tags@),
            None => Seq::empty(),
        },
    };
    assert forall|k: int| 0 <= k < t0.len() implies storable_tag(#[trigger] t0[k]) by {
        if f.tags is None {
            if let Some(e) = existing {
                assert(texts(e.tags@)[k] == e.tags@[k]@);
            }
        }
    }
    lemma_tags_roundtrip(t0);
}


/// A patch sets each field it names, whatever the stored note held: two
/// notes patched with the same fields agree on every named field, and named
/// tags read back as given.
pub proof fn lemma_note_patch_sets_named(existing: NoteRow, other: NoteRow, f: NoteFieldsView)
    requires
        f.tags matches Some(t) ==> forall|k: int| 0 <= k < t.len() ==> storable_tag(#[trigger] t[k]),
    ensures
        ({
            let w = note_patch_write(existing, f);
            let v = note_patch_write(other, f);
            &&& f.title matches Some(t) ==> w.title == t && v.title == t
            &&& f.body matches Some(b) ==> w.body == b && v.body == b
            &&& f.pinned matches Some(p) ==> w.pinned == p && v.pinned == p
            &&& f.tags matches Some(t) ==> unpacked_tags(w.tags) == t && w.tags == v.tags
        }),
{
    if let Some(t) = f.tags {
        lemma_tags_roundtrip(t);
    }
}

} // verus!
