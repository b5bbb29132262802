//! Everything a calendar holds, as one document.
//!
//! The point is that nobody is locked in: a calendar can be read out whole,
//! as JSON for a machine or Markdown for a person, with the one write key.

use vstd::prelude::*;
use crate::text::{chars_of, dec, find_char, find_char_exec, is_ws_exec, join_strings, join_with, lemma_find_char, owned, push_dec, push_range, texts, trim, trim_end, trimmed};
use crate::json::{Json, Value, json_items, member_views, obj_build};
use crate::db::{CalendarRow, EventRow, event_members, json_event};
use crate::todos::{TodoRow, json_todo, todo_members};
use crate::notes::{NoteRow, json_note, note_members};

verus! {

// ---- JSON ---------------------------------------------------------------------------

pub open spec fn event_json(e: EventRow) -> Json {
    Json::Obj(obj_build(event_members(e)))
}

pub open spec fn todo_json(t: TodoRow) -> Json {
    Json::Obj(obj_build(todo_members(t)))
}

pub open spec fn note_json(n: NoteRow) -> Json {
    Json::Obj(obj_build(note_members(n, true)))
}

/// The export: the calendar's id, name and creation time (no hosts or
/// tokens: an export has no use for them), then every event, todo and note,
/// notes with their bodies.
pub open spec fn export_members(
    cal: CalendarRow,
    exported_at: Seq<char>,
    events: Seq<EventRow>,
    todos: Seq<TodoRow>,
    notes: Seq<NoteRow>,
) -> Seq<(Seq<char>, Json)> {
    seq![
        ("exportedAt"@, Json::Str(exported_at)),
        (
            "calendar"@,
            Json::Obj(
                obj_build(
                    seq![
                        ("id"@, Json::Str(cal.id@)),
                        ("name"@, Json::Str(cal.name@)),
                        ("createdAt"@, Json::Str(cal.created_at@)),
                    ],
                ),
            ),
        ),
        ("events"@, Json::Arr(events.map_values(|e: EventRow| event_json(e)))),
        ("todos"@, Json::Arr(todos.map_values(|t: TodoRow| todo_json(t)))),
        ("notes"@, Json::Arr(notes.map_values(|n: NoteRow| note_json(n)))),
    ]
}

fn event_values(v: &[EventRow]) -> (r: Vec<Value>)
    ensures
        json_items(r@) == v@.map_values(|e: EventRow| event_json(e)),
{
    let mut out: Vec<Value> = Vec::new();
    let mut i: usize = 0;
    while i < v.len()
        invariant
            i <= v@.len(),
            json_items(out@) == v@.take(i as int).map_values(|e: EventRow| event_json(e)),
        decreases v@.len() - i,
    {
        let ghost before = out@;
        out.push(json_event(&v[i]));
        proof {
            assert(out@.drop_last() =~= before);
            assert(v@.take(i + 1).map_values(|e: EventRow| event_json(e)) =~= v@.take(
                i as int,
            ).map_values(|e: EventRow| event_json(e)).push(event_json(v@[i as int])));
        }
        i = i + 1;
    }
    assert(v@.take(i as int) =~= v@);
    out
}

fn todo_values(v: &[TodoRow]) -> (r: Vec<Value>)
    ensures
        json_items(r@) == v@.map_values(|t: TodoRow| todo_json(t)),
{
    let mut out: Vec<Value> = Vec::new();
    let mut i: usize = 0;
    while i < v.len()
        invariant
            i <= v@.len(),
            json_items(out@) == v@.take(i as int).map_values(|t: TodoRow| todo_json(t)),
        decreases v@.len() - i,
    {
        let ghost before = out@;
        out.push(json_todo(&v[i]));
        proof {
            assert(out@.drop_last() =~= before);
            assert(v@.take(i + 1).map_values(|t: TodoRow| todo_json(t)) =~= v@.take(
                i as int,
            ).map_values(|t: TodoRow| todo_json(t)).push(todo_json(v@[i as int])));
        }
        i = i + 1;
    }
    assert(v@.take(i as int) =~= v@);
    out
}

fn note_values(v: &[NoteRow]) -> (r: Vec<Value>)
    ensures
        json_items(r@) == v@.map_values(|n: NoteRow| note_json(n)),
{
    let mut out: Vec<Value> = Vec::new();
    let mut i: usize = 0;
    while i < v.len()
        invariant
            i <= v@.len(),
            json_items(out@) == v@.take(i as int).map_values(|n: NoteRow| note_json(n)),
        decreases v@.len() - i,
    {
        let ghost before = out@;
        out.push(json_note(&v[i], true));
        proof {
            assert(out@.drop_last() =~= before);
            assert(v@.take(i + 1).map_values(|n: NoteRow| note_json(n)) =~= v@.take(
                i as int,
            ).map_values(|n: NoteRow| note_json(n)).push(note_json(v@[i as int])));
        }
        i = i + 1;
    }
    assert(v@.take(i as int) =~= v@);
    out
}

pub fn export_json(
    cal: &CalendarRow,
    exported_at: &str,
    events: &[EventRow],
    todos: &[TodoRow],
    notes: &[NoteRow],
) -> (r: Value)
    ensures
        r@ == Json::Obj(obj_build(export_members(*cal, exported_at@, events@, todos@, notes@))),
{
    let mut head: Vec<(&str, Value)> = Vec::new();
    head.push(("id", Value::String(cal.id.clone())));
    head.push(("name", Value::String(cal.name.clone())));
    head.push(("createdAt", Value::String(cal.created_at.clone())));
    assert(member_views(head@) =~= seq![
        ("id"@, Json::Str(cal.id@)),
        ("name"@, Json::Str(cal.name@)),
        ("createdAt"@, Json::Str(cal.created_at@)),
    ]);
    let calendar = Value::object(head.as_slice());
    let mut pairs: Vec<(&str, Value)> = Vec::new();
    pairs.push(("exportedAt", Value::String(owned(exported_at))));
    pairs.push(("calendar", calendar));
    pairs.push(("events", Value::Array(event_values(events))));
    pairs.push(("todos", Value::Array(todo_values(todos))));
    pairs.push(("notes", Value::Array(note_values(notes))));
    assert(member_views(pairs@) =~= export_members(*cal, exported_at@, events@, todos@, notes@));
    Value::object(pairs.as_slice())
}

// ---- Markdown -----------------------------------------------------------------------

pub open spec fn is_break(c: char) -> bool {
    c == '\r' || c == '\n'
}

/// Index of the first line break in `s`, or `s.len()`.
pub open spec fn find_break(s: Seq<char>) -> int
    decreases s.len(),
{
    if s.len() == 0 {
        0
    } else if is_break(s[0]) {
        0
    } else {
        1 + find_break(s.drop_first())
    }
}

proof fn lemma_find_break_at(s: Seq<char>, k: int)
    requires
        0 <= k <= s.len(),
        forall|j: int| 0 <= j < k ==> !is_break(#[trigger] s[j]),
        k < s.len() ==> is_break(s[k]),
    ensures
        find_break(s) == k,
    decreases s.len(),
{
    if s.len() > 0 && k > 0 {
        assert forall|j: int| 0 <= j < k - 1 implies !is_break(#[trigger] s.drop_first()[j]) by {
            assert(!is_break(s[j + 1]));
        }
        lemma_find_break_at(s.drop_first(), k - 1);
    }
}

/// `s` split at each `\r` and `\n`.
pub open spec fn break_pieces(s: Seq<char>) -> Seq<Seq<char>>
    decreases s.len(),
{
    let f = find_break(s);
    if f >= s.len() || f < 0 {
        seq![s]
    } else {
        seq![s.take(f)] + break_pieces(s.skip(f + 1))
    }
}

/// The pieces trimmed, empty ones dropped.
pub open spec fn kept_parts(pieces: Seq<Seq<char>>) -> Seq<Seq<char>>
    decreases pieces.len(),
{
    if pieces.len() == 0 {
        Seq::empty()
    } else {
        let rest = kept_parts(pieces.drop_first());
        if trim(pieces[0]).len() > 0 {
            seq![trim(pieces[0])] + rest
        } else {
            rest
        }
    }
}

/// One line: a newline in a title or summary would break the list around it.
pub open spec fn one_line_text(s: Seq<char>) -> Seq<char> {
    join_with(kept_parts(break_pieces(s)), " "@)
}

proof fn lemma_kept_single(x: Seq<char>)
    ensures
        kept_parts(seq![x]) == (if trim(x).len() > 0 {
            seq![trim(x)]
        } else {
            Seq::<Seq<char>>::empty()
        }),
{
    assert(seq![x].drop_first() =~= Seq::<Seq<char>>::empty());
    assert(kept_parts(Seq::<Seq<char>>::empty()) == Seq::<Seq<char>>::empty());
    assert(seq![trim(x)] + Seq::<Seq<char>>::empty() =~= seq![trim(x)]);
}

proof fn lemma_kept_concat(a: Seq<Seq<char>>, b: Seq<Seq<char>>)
    ensures
        kept_parts(a + b) == kept_parts(a) + kept_parts(b),
    decreases a.len(),
{
    if a.len() == 0 {
        assert(a + b =~= b);
    } else {
        assert((a + b).drop_first() =~= a.drop_first() + b);
        lemma_kept_concat(a.drop_first(), b);
    }
}

fn trimmed_range(c: &[char], lo: usize, hi: usize) -> (out: String)
    requires
        lo <= hi <= c@.len(),
    ensures
        out@ == trim(c@.subrange(lo as int, hi as int)),
{
    let mut piece = String::new();
    push_range(&mut piece, c, lo, hi);
    trimmed(piece.as_str())
}

pub fn one_line(text: &str) -> (out: String)
    ensures
        out@ == one_line_text(text@),
{
    let c = chars_of(text);
    let mut parts: Vec<String> = Vec::new();
    let mut start: usize = 0;
    let mut i: usize = 0;
    assert(c@.skip(0) =~= c@);
    assert(texts(parts@) =~= Seq::<Seq<char>>::empty());
    while i < c.len()
        invariant
            start <= i <= c@.len(),
            c@ == text@,
            forall|k: int| start <= k < i ==> !is_break(#[trigger] c@[k]),
            texts(parts@) + kept_parts(break_pieces(c@.skip(start as int))) == kept_parts(
                break_pieces(text@),
            ),
        decreases c@.len() - i,
    {
        if c[i] == '\r' || c[i] == '\n' {
            let ghost t = c@.skip(start as int);
            proof {
                assert forall|j: int| 0 <= j < i - start implies !is_break(#[trigger] t[j]) by {
                    assert(t[j] == c@[start + j]);
                }
                lemma_find_break_at(t, i - start);
                assert(t.take(i - start) =~= c@.subrange(start as int, i as int));
                assert(t.skip(i - start + 1) =~= c@.skip(i + 1));
                assert(break_pieces(t) == seq![t.take(i - start)] + break_pieces(t.skip(i - start + 1)));
                lemma_kept_concat(seq![t.take(i - start)], break_pieces(t.skip(i - start + 1)));
                lemma_kept_single(t.take(i - start));
            }
            let piece = trimmed_range(c.as_slice(), start, i);
            if !piece.as_str().is_empty() {
                let ghost before = parts@;
                parts.push(piece);
                assert(texts(parts@) =~= texts(before) + seq![trim(c@.subrange(start as int, i as int))]);
            }
            start = i + 1;
        }
        i = i + 1;
    }
    proof {
        let t = c@.skip(start as int);
        assert forall|j: int| 0 <= j < t.len() implies !is_break(#[trigger] t[j]) by {
            assert(t[j] == c@[start + j]);
        }
        lemma_find_break_at(t, t.len() as int);
        assert(break_pieces(t) == seq![t]);
        lemma_kept_single(t);
        assert(t =~= c@.subrange(start as int, c@.len() as int));
    }
    let piece = trimmed_range(c.as_slice(), start, c.len());
    if !piece.as_str().is_empty() {
        let ghost before = parts@;
        parts.push(piece);
        assert(texts(parts@) =~= texts(before) + seq![trim(c@.subrange(start as int, c@.len() as int))]);
    }
    assert(texts(parts@) =~= kept_parts(break_pieces(text@)));
    join_strings(parts.as_slice(), " ")
}

/// `s` without a `\r` at its end.
pub open spec fn strip_cr(s: Seq<char>) -> Seq<char> {
    if s.len() > 0 && s.last() == '\r' {
        s.drop_last()
    } else {
        s
    }
}

/// `str::lines`: split at `\n`, a `\r` before it dropped, no empty line
/// after a final `\n`.
pub open spec fn text_lines(s: Seq<char>) -> Seq<Seq<char>>
    decreases s.len(),
{
    if s.len() == 0 {
        Seq::empty()
    } else {
        let f = find_char(s, '\n');
        if f >= s.len() || f < 0 {
            seq![strip_cr(s)]
        } else {
            seq![strip_cr(s.take(f))] + text_lines(s.skip(f + 1))
        }
    }
}

pub open spec fn indented_lines(lines: Seq<Seq<char>>) -> Seq<char>
    decreases lines.len(),
{
    if lines.len() == 0 {
        Seq::empty()
    } else {
        "  "@ + lines[0] + "\n"@ + indented_lines(lines.drop_first())
    }
}

/// Each line of `text` indented by two spaces.
fn push_indented(out: &mut String, text: &str)
    ensures
        final(out)@ == old(out)@ + indented_lines(text_lines(text@)),
{
    let c = chars_of(text);
    let mut start: usize = 0;
    assert(c@.skip(0) =~= c@);
    while start < c.len()
        invariant
            start <= c@.len(),
            c@ == text@,
            old(out)@ + indented_lines(text_lines(text@)) == out@ + indented_lines(
                text_lines(c@.skip(start as int)),
            ),
        decreases c@.len() - start,
    {
        let ghost t = c@.skip(start as int);
        let e = find_char_exec(c.as_slice(), start, c.len(), '\n');
        proof {
            assert(c@.subrange(start as int, c@.len() as int) =~= t);
            lemma_find_char(t, '\n');
        }
        let mut hi = e;
        if hi > start && c[hi - 1] == '\r' {
            hi = hi - 1;
        }
        proof {
            assert(strip_cr(t.take(e - start)) =~= c@.subrange(start as int, hi as int));
        }
        out.push_str("  ");
        push_range(out, c.as_slice(), start, hi);
        out.push_str("\n");
        if e < c.len() {
            proof {
                assert(t.skip(e - start + 1) =~= c@.skip(e + 1));
                assert(text_lines(t) == seq![strip_cr(t.take(e - start))] + text_lines(t.skip(e - start + 1)));
                assert((seq![strip_cr(t.take(e - start))] + text_lines(t.skip(e - start + 1))).drop_first()
                    =~= text_lines(t.skip(e - start + 1)));
            }
            start = e + 1;
        } else {
            proof {
                assert(t.take(e - start) =~= t);
                assert(text_lines(t) == seq![strip_cr(t)]);
                assert(seq![strip_cr(t)].drop_first() =~= Seq::<Seq<char>>::empty());
                assert(c@.skip(c@.len() as int) =~= Seq::<char>::empty());
            }
            start = c.len();
        }
    }
}

fn trimmed_end(s: &str) -> (out: String)
    ensures
        out@ == trim_end(s@),
{
    let c = chars_of(s);
    let mut n = c.len();
    assert(c@.take(n as int) =~= c@);
    while n > 0 && is_ws_exec(c[n - 1])
        invariant
            n <= c@.len(),
            c@ == s@,
            trim_end(c@.take(n as int)) == trim_end(s@),
        decreases n,
    {
        assert(c@.take(n as int).drop_last() =~= c@.take(n - 1));
        n = n - 1;
    }
    let mut out = String::new();
    push_range(&mut out, c.as_slice(), 0, n);
    assert(c@.subrange(0, n as int) =~= c@.take(n as int));
    out
}

pub open spec fn md_event(ev: EventRow) -> Seq<char> {
    if ev.seal@.len() > 0 {
        "- sealed · `"@ + ev.uid@ + "`\n"@
    } else {
        "- "@ + ev.dtstart@ + " to "@ + ev.dtend@ + " — "@ + one_line_text(ev.summary@) + (if ev.location@.len() > 0 {
            " ("@ + one_line_text(ev.location@) + ")"@
        } else {
            Seq::empty()
        }) + (if ev.rrule@.len() > 0 {
            " · repeats "@ + ev.rrule@ + (if ev.tzid@.len() > 0 {
                " "@ + ev.tzid@
            } else {
                Seq::empty()
            })
        } else {
            Seq::empty()
        }) + " · `"@ + ev.uid@ + "`\n"@
    }
}

pub open spec fn md_tags(tags: Seq<Seq<char>>) -> Seq<char>
    decreases tags.len(),
{
    if tags.len() == 0 {
        Seq::empty()
    } else {
        md_tags(tags.drop_last()) + " · #"@ + tags.last()
    }
}

pub open spec fn md_todo(t: TodoRow) -> Seq<char> {
    if t.seal@.len() > 0 {
        "- sealed · `"@ + t.uid@ + "`\n"@
    } else {
        "- ["@ + (if t.done {
            "x"@
        } else {
            " "@
        }) + "] "@ + one_line_text(t.title@) + (if t.due@.len() > 0 {
            " — due "@ + t.due@
        } else {
            Seq::empty()
        }) + (if t.priority > 0 {
            " · priority "@ + dec(t.priority as nat)
        } else {
            Seq::empty()
        }) + md_tags(texts(t.tags@)) + "\n"@ + (if t.description@.len() > 0 {
            indented_lines(text_lines(t.description@))
        } else {
            Seq::empty()
        })
    }
}

/// What a note's line of facts says: its tags, whether it is pinned, when it
/// changed.
pub open spec fn note_facts(n: NoteRow) -> Seq<Seq<char>> {
    (if n.tags@.len() > 0 {
        seq!["tags: "@ + join_with(texts(n.tags@), ", "@)]
    } else {
        Seq::empty()
    }) + (if n.pinned {
        seq!["pinned"@]
    } else {
        Seq::empty()
    }) + seq!["updated "@ + n.updated_at@]
}

pub open spec fn md_note(n: NoteRow) -> Seq<char> {
    if n.seal@.len() > 0 {
        "\n### sealed\n\n`"@ + n.uid@ + "`\n"@
    } else {
        "\n### "@ + one_line_text(n.title@) + "\n\n"@ + "*"@ + join_with(note_facts(n), " · "@)
            + "*\n"@ + (if n.body@.len() > 0 {
            "\n"@ + trim_end(n.body@) + "\n"@
        } else {
            Seq::empty()
        })
    }
}

pub open spec fn md_events(evs: Seq<EventRow>) -> Seq<char>
    decreases evs.len(),
{
    if evs.len() == 0 {
        Seq::empty()
    } else {
        md_events(evs.drop_last()) + md_event(evs.last())
    }
}

pub open spec fn md_todos(ts: Seq<TodoRow>) -> Seq<char>
    decreases ts.len(),
{
    if ts.len() == 0 {
        Seq::empty()
    } else {
        md_todos(ts.drop_last()) + md_todo(ts.last())
    }
}

pub open spec fn md_notes(ns: Seq<NoteRow>) -> Seq<char>
    decreases ns.len(),
{
    if ns.len() == 0 {
        Seq::empty()
    } else {
        md_notes(ns.drop_last()) + md_note(ns.last())
    }
}

/// The Markdown export: a title, then events, todos and notes, each section
/// saying `None.` when it is empty.
pub open spec fn export_markdown_text(
    cal: CalendarRow,
    exported_at: Seq<char>,
    events: Seq<EventRow>,
    todos: Seq<TodoRow>,
    notes: Seq<NoteRow>,
) -> Seq<char> {
    "# "@ + one_line_text(cal.name@) + "\n\nExported "@ + exported_at + "\n"@ + "\n## Events\n\n"@
        + (if events.len() == 0 {
        "None.\n"@
    } else {
        Seq::empty()
    }) + md_events(events) + "\n## Todos\n\n"@ + (if todos.len() == 0 {
        "None.\n"@
    } else {
        Seq::empty()
    }) + md_todos(todos) + "\n## Notes\n"@ + (if notes.len() == 0 {
        "\nNone.\n"@
    } else {
        Seq::empty()
    }) + md_notes(notes)
}

fn push_event(out: &mut String, ev: &EventRow)
    ensures
        final(out)@ == old(out)@ + md_event(*ev),
{
    if !ev.seal.as_str().is_empty() {
        out.push_str("- sealed · `");
        out.push_str(ev.uid.as_str());
        out.push_str("`\n");
        assert(out@ =~= old(out)@ + md_event(*ev));
        return;
    }
    out.push_str("- ");
    out.push_str(ev.dtstart.as_str());
    out.push_str(" to ");
    out.push_str(ev.dtend.as_str());
    out.push_str(" — ");
    out.push_str(one_line(ev.summary.as_str()).as_str());
    if !ev.location.as_str().is_empty() {
        out.push_str(" (");
        out.push_str(one_line(ev.location.as_str()).as_str());
        out.push_str(")");
    }
    if !ev.rrule.as_str().is_empty() {
        out.push_str(" · repeats ");
        out.push_str(ev.rrule.as_str());
        if !ev.tzid.as_str().is_empty() {
            out.push_str(" ");
            out.push_str(ev.tzid.as_str());
        }
    }
    out.push_str(" · `");
    out.push_str(ev.uid.as_str());
    out.push_str("`\n");
    assert(out@ =~= old(out)@ + md_event(*ev));
}

fn push_tags(out: &mut String, tags: &Vec<String>)
    ensures
        final(out)@ == old(out)@ + md_tags(texts(tags@)),
{
    let mut i: usize = 0;
    while i < tags.len()
        invariant
            i <= tags@.len(),
            out@ == old(out)@ + md_tags(texts(tags@.take(i as int))),
        decreases tags@.len() - i,
    {
        out.push_str(" · #");
        out.push_str(tags[i].as_str());
        proof {
            assert(texts(tags@.take(i + 1)).drop_last() =~= texts(tags@.take(i as int)));
        }
        i = i + 1;
        assert(out@ =~= old(out)@ + md_tags(texts(tags@.take(i as int))));
    }
    assert(tags@.take(i as int) =~= tags@);
}

/// `- [x] title`, then due date and priority when set.
pub open spec fn md_todo_head(t: TodoRow) -> Seq<char> {
    "- ["@ + (if t.done {
        "x"@
    } else {
        " "@
    }) + "] "@ + one_line_text(t.title@) + (if t.due@.len() > 0 {
        " — due "@ + t.due@
    } else {
        Seq::empty()
    }) + (if t.priority > 0 {
        " · priority "@ + dec(t.priority as nat)
    } else {
        Seq::empty()
    })
}

fn push_todo_head(out: &mut String, t: &TodoRow)
    ensures
        final(out)@ == old(out)@ + md_todo_head(*t),
{
    out.push_str("- [");
    out.push_str(if t.done {
        "x"
    } else {
        " "
    });
    out.push_str("] ");
    out.push_str(one_line(t.title.as_str()).as_str());
    if !t.due.as_str().is_empty() {
        out.push_str(" — due ");
        out.push_str(t.due.as_str());
    }
    if t.priority > 0 {
        out.push_str(" · priority ");
        push_dec(out, t.priority as u64);
    }
    assert(out@ =~= old(out)@ + md_todo_head(*t));
}

fn push_todo(out: &mut String, t: &TodoRow)
    ensures
        final(out)@ == old(out)@ + md_todo(*t),
{
    if !t.seal.as_str().is_empty() {
        out.push_str("- sealed · `");
        out.push_str(t.uid.as_str());
        out.push_str("`\n");
        assert(out@ =~= old(out)@ + md_todo(*t));
        return;
    }
    push_todo_head(out, t);
    let ghost h = out@;
    push_tags(out, &t.tags);
    out.push_str("\n");
    let ghost m = out@;
    assert(m == h + md_tags(texts(t.tags@)) + "\n"@);
    if !t.description.as_str().is_empty() {
        push_indented(out, t.description.as_str());
    }
    assert(md_todo(*t) == md_todo_head(*t) + md_tags(texts(t.tags@)) + "\n"@ + (if t.description@.len() > 0 {
        indented_lines(text_lines(t.description@))
    } else {
        Seq::empty()
    }));
    assert(out@ =~= old(out)@ + md_todo(*t));
}

fn push_note(out: &mut String, n: &NoteRow)
    ensures
        final(out)@ == old(out)@ + md_note(*n),
{
    if !n.seal.as_str().is_empty() {
        out.push_str("\n### sealed\n\n`");
        out.push_str(n.uid.as_str());
        out.push_str("`\n");
        assert(out@ =~= old(out)@ + md_note(*n));
        return;
    }
    out.push_str("\n### ");
    out.push_str(one_line(n.title.as_str()).as_str());
    out.push_str("\n\n");
    let mut facts: Vec<String> = Vec::new();
    if n.tags.len() > 0 {
        let mut f = owned("tags: ");
        f.push_str(join_strings(n.tags.as_slice(), ", ").as_str());
        facts.push(f);
    }
    if n.pinned {
        facts.push(owned("pinned"));
    }
    let mut u = owned("updated ");
    u.push_str(n.updated_at.as_str());
    facts.push(u);
    assert(texts(facts@) =~= note_facts(*n));
    out.push_str("*");
    out.push_str(join_strings(facts.as_slice(), " · ").as_str());
    out.push_str("*\n");
    if !n.body.as_str().is_empty() {
        out.push_str("\n");
        out.push_str(trimmed_end(n.body.as_str()).as_str());
        out.push_str("\n");
    }
    assert(out@ =~= old(out)@ + md_note(*n));
}

pub fn export_markdown(
    cal: &CalendarRow,
    exported_at: &str,
    events: &[EventRow],
    todos: &[TodoRow],
    notes: &[NoteRow],
) -> (out: String)
    ensures
        out@ == export_markdown_text(*cal, exported_at@, events@, todos@, notes@),
{
    let mut out = owned("# ");
    out.push_str(one_line(cal.name.as_str()).as_str());
    out.push_str("\n\nExported ");
    out.push_str(exported_at);
    out.push_str("\n");
    out.push_str("\n## Events\n\n");
    if events.len() == 0 {
        out.push_str("None.\n");
    }
    let ghost a = out@;
    let mut i: usize = 0;
    while i < events.len()
        invariant
            i <= events@.len(),
            out@ == a + md_events(events@.take(i as int)),
        decreases events@.len() - i,
    {
        push_event(&mut out, &events[i]);
        proof {
            assert(events@.take(i + 1).drop_last() =~= events@.take(i as int));
        }
        i = i + 1;
    }
    assert(events@.take(i as int) =~= events@);
    out.push_str("\n## Todos\n\n");
    if todos.len() == 0 {
        out.push_str("None.\n");
    }
    let ghost b = out@;
    let mut j: usize = 0;
    while j < todos.len()
        invariant
            j <= todos@.len(),
            out@ == b + md_todos(todos@.take(j as int)),
        decreases todos@.len() - j,
    {
        push_todo(&mut out, &todos[j]);
        proof {
            assert(todos@.take(j + 1).drop_last() =~= todos@.take(j as int));
        }
        j = j + 1;
    }
    assert(todos@.take(j as int) =~= todos@);
    out.push_str("\n## Notes\n");
    if notes.len() == 0 {
        out.push_str("\nNone.\n");
    }
    let ghost c = out@;
    let mut k: usize = 0;
    while k < notes.len()
        invariant
            k <= notes@.len(),
            out@ == c + md_notes(notes@.take(k as int)),
        decreases notes@.len() - k,
    {
        push_note(&mut out, &notes[k]);
        proof {
            assert(notes@.take(k + 1).drop_last() =~= notes@.take(k as int));
        }
        k = k + 1;
    }
    assert(notes@.take(k as int) =~= notes@);
    assert(out@ =~= export_markdown_text(*cal, exported_at@, events@, todos@, notes@));
    out
}

/// An export does not depend on the calendar's secrets: two calendars that
/// differ only in feed token, key hash or feed mode export the same JSON and
/// the same Markdown.
pub proof fn lemma_export_ignores_secrets(
    cal: CalendarRow,
    other: CalendarRow,
    exported_at: Seq<char>,
    events: Seq<EventRow>,
    todos: Seq<TodoRow>,
    notes: Seq<NoteRow>,
)
    requires
        cal.id@ == other.id@,
        cal.name@ == other.name@,
        cal.created_at@ == other.created_at@,
    ensures
        export_members(cal, exported_at, events, todos, notes) == export_members(
            other,
            exported_at,
            events,
            todos,
            notes,
        ),
        export_markdown_text(cal, exported_at, events, todos, notes) == export_markdown_text(
            other,
            exported_at,
            events,
            todos,
            notes,
        ),
{
}


/// The Markdown line of an unsealed event starts with its own start, ` to `
/// and its own end, and ends with its uid in backquotes; a sealed event's
/// line names only its uid.
pub proof fn lemma_md_event_line(ev: EventRow)
    ensures
        ev.seal@.len() == 0 ==> ({
            let (start, end) = (ev.dtstart@, ev.dtend@);
            let head = "- "@ + start + " to "@ + end + " — "@;
            let tail = " · `"@ + ev.uid@ + "`\n"@;
            &&& md_event(ev).len() >= head.len() + tail.len()
            &&& md_event(ev).take(head.len() as int) == head
            &&& md_event(ev).skip(md_event(ev).len() - tail.len()) == tail
        }),
        ev.seal@.len() > 0 ==> md_event(ev) == "- sealed · `"@ + ev.uid@ + "`\n"@,
{
    if ev.seal@.len() == 0 {
        let (start, end) = (ev.dtstart@, ev.dtend@);
        let head = "- "@ + start + " to "@ + end + " — "@;
        let tail = " · `"@ + ev.uid@ + "`\n"@;
        let line = md_event(ev);
        let mid = line.subrange(head.len() as int, line.len() - tail.len());
        assert(line =~= head + mid + tail);
        assert(line.take(head.len() as int) =~= head);
        assert(line.skip(line.len() - tail.len()) =~= tail);
    }
}


/// The Markdown line of an unsealed todo starts with a box ticked exactly
/// when it is done, then its own title, then its own due date when it has
/// one; a sealed todo names only its uid.
pub proof fn lemma_md_todo_line(t: TodoRow)
    ensures
        t.seal@.len() == 0 ==> ({
            let head = "- ["@ + (if t.done { "x"@ } else { " "@ }) + "] "@ + one_line_text(t.title@)
                + (if t.due@.len() > 0 { " — due "@ + t.due@ } else { Seq::empty() });
            md_todo(t).len() >= head.len() && md_todo(t).take(head.len() as int) == head
        }),
        t.seal@.len() > 0 ==> md_todo(t) == "- sealed · `"@ + t.uid@ + "`\n"@,
{
    if t.seal@.len() == 0 {
        let head = "- ["@ + (if t.done { "x"@ } else { " "@ }) + "] "@ + one_line_text(t.title@)
            + (if t.due@.len() > 0 { " — due "@ + t.due@ } else { Seq::empty() });
        let line = md_todo(t);
        let rest = line.skip(head.len() as int);
        assert(line =~= head + rest);
        assert(line.take(head.len() as int) =~= head);
    }
}

/// A note's Markdown section opens with a heading of its own title; an
/// unsealed note with a body ends with that body (trailing whitespace
/// trimmed); a sealed note names only its uid.
pub proof fn lemma_md_note_section(n: NoteRow)
    ensures
        n.seal@.len() == 0 ==> ({
            let head = "\n### "@ + one_line_text(n.title@) + "\n\n"@;
            let tail = "\n"@ + trim_end(n.body@) + "\n"@;
            &&& md_note(n).len() >= head.len()
            &&& md_note(n).take(head.len() as int) == head
            &&& n.body@.len() > 0 ==> md_note(n).len() >= tail.len() && md_note(n).skip(
                md_note(n).len() - tail.len(),
            ) == tail
        }),
        n.seal@.len() > 0 ==> md_note(n) == "\n### sealed\n\n`"@ + n.uid@ + "`\n"@,
{
    if n.seal@.len() == 0 {
        let head = "\n### "@ + one_line_text(n.title@) + "\n\n"@;
        let tail = "\n"@ + trim_end(n.body@) + "\n"@;
        let line = md_note(n);
        let mid = "*"@ + join_with(note_facts(n), " · "@) + "*\n"@;
        if n.body@.len() > 0 {
            assert(line =~= head + mid + tail);
            assert(line.skip(line.len() - tail.len()) =~= tail);
        } else {
            assert(line =~= head + mid + Seq::<char>::empty());
        }
        assert(line.take(head.len() as int) =~= head);
    }
}

} // verus!
