//! The pages and documents the service shows at its root: the JSON index,
//! `/llms.txt`, the home page and the page after creating a calendar.

use vstd::prelude::*;
use crate::text::{chars_of, concat, join_strings, join_with, owned, texts};
use crate::json::{Json, Value, member_views, obj_build, quoted};
use crate::db::{CalendarRow, strip_trailing, strip_trailing_slashes};

verus! {

pub open spec fn html_char(c: char) -> Seq<char> {
    if c == '&' {
        "&amp;"@
    } else if c == '<' {
        "&lt;"@
    } else if c == '>' {
        "&gt;"@
    } else if c == '"' {
        "&quot;"@
    } else {
        seq![c]
    }
}

/// Text made safe to place in HTML and in a quoted attribute.
pub open spec fn html_escape(s: Seq<char>) -> Seq<char>
    decreases s.len(),
{
    if s.len() == 0 {
        Seq::empty()
    } else {
        html_escape(s.drop_last()) + html_char(s.last())
    }
}

fn esc(value: &str) -> (out: String)
    ensures
        out@ == html_escape(value@),
{
    let c = chars_of(value);
    let mut out = String::new();
    let mut i: usize = 0;
    while i < c.len()
        invariant
            i <= c@.len(),
            c@ == value@,
            out@ == html_escape(c@.take(i as int)),
        decreases c@.len() - i,
    {
        let ch = c[i];
        if ch == '&' {
            out.push_str("&amp;");
        } else if ch == '<' {
            out.push_str("&lt;");
        } else if ch == '>' {
            out.push_str("&gt;");
        } else if ch == '"' {
            out.push_str("&quot;");
        } else {
            out.push(ch);
        }
        proof {
            assert(c@.take(i + 1).drop_last() =~= c@.take(i as int));
        }
        i = i + 1;
        assert(out@ =~= html_escape(c@.take(i as int)));
    }
    assert(c@.take(i as int) =~= c@);
    out
}

/// Escaped text holds no `<`, `>` or `"`: whatever it says, it stays text
/// and cannot close the attribute it stands in.
pub proof fn lemma_html_escape_is_text(s: Seq<char>)
    ensures
        forall|k: int| 0 <= k < html_escape(s).len() ==> {
            let c = #[trigger] html_escape(s)[k];
            c != '<' && c != '>' && c != '"'
        },
    decreases s.len(),
{
    reveal_strlit("&amp;");
    reveal_strlit("&lt;");
    reveal_strlit("&gt;");
    reveal_strlit("&quot;");
    if s.len() > 0 {
        lemma_html_escape_is_text(s.drop_last());
        let a = html_escape(s.drop_last());
        let b = html_char(s.last());
        assert forall|k: int| 0 <= k < html_escape(s).len() implies {
            let c = #[trigger] html_escape(s)[k];
            c != '<' && c != '>' && c != '"'
        } by {
            if k < a.len() {
                assert(html_escape(s)[k] == a[k]);
            } else {
                assert(html_escape(s)[k] == b[k - a.len()]);
            }
        }
    }
}

pub open spec fn description_text() -> Seq<char> {
    "An agent calendar. Agents write events. You subscribe in the app you already have."@
}

/// The preview image, under `origin` when there is one.
pub open spec fn og_image(origin: Seq<char>) -> Seq<char> {
    if origin.len() == 0 {
        "/og.png"@
    } else {
        origin + "/og.png"@
    }
}

/// The `og:url` line, only when the origin is known.
pub open spec fn og_url_line(origin: Seq<char>) -> Seq<char> {
    if origin.len() == 0 {
        Seq::empty()
    } else {
        "  <meta property=\"og:url\" content=\""@ + html_escape(origin) + "\">\n"@
    }
}

/// What `GET /` answers an agent: the service's name and where to start.
pub open spec fn index_members(base: Seq<char>) -> Seq<(Seq<char>, Json)> {
    let origin = strip_trailing(base, '/');
    seq![
        ("name"@, Json::Str("Almanac"@)),
        (
            "description"@,
            Json::Str("Agent-first calendar. POST /calendars. Humans subscribe to the https feed URL."@),
        ),
        ("create"@, Json::Str("POST "@ + origin + "/calendars"@)),
        ("docs"@, Json::Str(origin + "/llms.txt"@)),
    ]
}

pub fn json_index(base: &str) -> (r: Value)
    ensures
        r@ == Json::Obj(obj_build(index_members(base@))),
{
    let origin = strip_trailing_slashes(base);
    let mut create = owned("POST ");
    create.push_str(origin.as_str());
    create.push_str("/calendars");
    let docs = concat(origin.as_str(), "/llms.txt");
    let mut pairs: Vec<(&str, Value)> = Vec::new();
    pairs.push(("name", Value::String(owned("Almanac"))));
    pairs.push((
        "description",
        Value::String(owned("Agent-first calendar. POST /calendars. Humans subscribe to the https feed URL.")),
    ));
    pairs.push(("create", Value::String(create)));
    pairs.push(("docs", Value::String(docs)));
    assert(member_views(pairs@) =~= index_members(base@));
    Value::object(pairs.as_slice())
}

/// The lines of `/llms.txt`, links under `origin`.
pub open spec fn llms_lines(origin: Seq<char>) -> Seq<Seq<char>> {
    seq![
        "# Almanac"@,
        ""@,
        "Agent-first ICS calendar. Agents write events. Humans subscribe to the feed URL."@,
        ""@,
        "Send a descriptive User-Agent header, for example Mozilla/5.0 my-agent. The host answers 403 to an empty or default curl User-Agent."@,
        ""@,
        "POST "@ + origin + "/calendars"@,
        "Optional JSON body: { \"name\": \"Optional Title\" }"@,
        "Returns id, subscribe URL, write URL, todos and notes URLs, and key. Store the key. It is the write secret, shown once. A lost key cannot be recovered. The same key writes events, todos and notes."@,
        ""@,
        "Write (idempotent):"@,
        "PUT "@ + origin + "/v1/c/{id}/events/{uid}"@,
        "Authorization: Bearer {key}"@,
        "Content-Type: application/json"@,
        "{ \"summary\": \"Dentist\", \"start\": \"2026-08-18T09:00:00-07:00\", \"end\": \"2026-08-18T09:45:00-07:00\" }"@,
        ""@,
        "List: GET /v1/c/{id}/events"@,
        "Patch: PATCH /v1/c/{id}/events/{uid}"@,
        "Delete: DELETE /v1/c/{id}/events/{uid}"@,
        ""@,
        "Recurrence (optional on PUT and PATCH):"@,
        "rrule: FREQ=WEEKLY;BYDAY=TU   (no RRULE: prefix; omit or \"\" for one event)"@,
        "timeZone: America/Los_Angeles  (required on a timed series; forbidden on all-day and on one-off events)"@,
        "Allowed timeZone: UTC, America/Los_Angeles, America/Denver, America/Chicago, America/New_York, America/Phoenix, Pacific/Honolulu, Europe/London, Europe/Paris, Asia/Tokyo, Australia/Sydney"@,
        "Parts: FREQ (DAILY WEEKLY MONTHLY YEARLY), INTERVAL, COUNT or UNTIL, BYDAY, BYMONTHDAY, BYMONTH."@,
        "A series is one uid. The feed emits RRULE. Calendar apps expand it."@,
        "Skip one date: PUT /v1/c/{id}/events/{uid}/exdates  { \"recurrenceId\": \"2026-10-06T09:00:00\" }"@,
        "Restore it: DELETE that URL with the same body."@,
        "Change one date: PUT /v1/c/{id}/events/{uid}/overrides  { \"recurrenceId\": \"...\", \"start\": \"...\", \"end\": \"...\" }"@,
        "Drop that change: DELETE that URL with { \"recurrenceId\": \"...\" }."@,
        "recurrenceId is the original start: YYYY-MM-DD or YYYY-MM-DDTHH:MM:SS. Not a new uid."@,
        "Same recurrenceId cannot be both an exdate and an override. The later PUT wins."@,
        "Clearing rrule, or flipping allDay, fails while an exception exists."@,
        ""@,
        "Subscribe: GET {subscribe} as text/calendar. No bearer. Use https, not webcal."@,
        "Calendars poll. Refresh if a new event is missing."@,
        ""@,
        "Todos (same key, own feed):"@,
        "PUT "@ + origin + "/v1/c/{id}/todos/{uid}"@,
        "{ \"title\": \"Buy milk\", \"due\": \"2026-10-01\", \"priority\": 1, \"tags\": [\"home\"] }"@,
        "POST /v1/c/{id}/todos mints a uid. List: GET /v1/c/{id}/todos?status=open|done&tag=home"@,
        "Get, PATCH, DELETE: /v1/c/{id}/todos/{uid}"@,
        "title (required, <=512). description (<=4000). due: YYYY-MM-DD or ISO-8601 datetime, null clears. priority: 0-9 (1 highest, 0 none). done: true stamps completedAt, false clears it. tags: up to 10 of [a-z0-9_-], <=32 chars."@,
        "PUT keeps any field you leave out. Send null or \"\" to clear one. Wrong types are a 400."@,
        "Todos feed: GET the todos.subscribe URL from POST /calendars or GET /v1/c/{id}. text/calendar VTODOs. No bearer. Its token differs from the event feed."@,
        ""@,
        "Notes (same key, own feed):"@,
        "PUT "@ + origin + "/v1/c/{id}/notes/{uid}"@,
        "{ \"title\": \"Ideas\", \"body\": \"# Ideas\\n- one\", \"tags\": [\"work\"], \"pinned\": true }"@,
        "POST /v1/c/{id}/notes mints a uid. Get, PATCH, DELETE: /v1/c/{id}/notes/{uid}"@,
        "List: GET /v1/c/{id}/notes?q=text&tag=work&body=true. The list leaves bodies out unless body=true. q matches title or body, ASCII case-insensitive."@,
        "title (required, <=200). body: markdown text, <=32KB. tags: as todos. pinned: true lists it first. Newest first otherwise."@,
        "PUT keeps any field you leave out. Send null to clear body or tags. Wrong types are a 400. Caps: 500 notes per calendar (409)."@,
        "Notes feed: GET the notes.subscribe URL. Atom, newest 200. No bearer. Its token differs from the other feeds."@,
        ""@,
        "Export (your data is never locked in):"@,
        "GET /v1/c/{id}/export?format=json|md   Authorization: Bearer {key}"@,
        "Everything in the calendar: events, todos, and notes with bodies. 10 per hour."@,
        ""@,
    ]
}

/// `/llms.txt`: how an agent uses the service.
pub open spec fn llms_text(base: Seq<char>) -> Seq<char> {
    join_with(llms_lines(strip_trailing(base, '/')), "\n"@)
}

pub fn llms_txt(base: &str) -> (out: String)
    ensures
        out@ == llms_text(base@),
{
    let origin = strip_trailing_slashes(base);
    let mut lines: Vec<String> = Vec::new();
    lines.push(owned("# Almanac"));
    lines.push(owned(""));
    lines.push(owned("Agent-first ICS calendar. Agents write events. Humans subscribe to the feed URL."));
    lines.push(owned(""));
    lines.push(owned("Send a descriptive User-Agent header, for example Mozilla/5.0 my-agent. The host answers 403 to an empty or default curl User-Agent."));
    lines.push(owned(""));
    let mut l6 = String::new();
    l6.push_str("POST ");
    l6.push_str(origin.as_str());
    l6.push_str("/calendars");
    lines.push(l6);
    lines.push(owned("Optional JSON body: { \"name\": \"Optional Title\" }"));
    lines.push(owned("Returns id, subscribe URL, write URL, todos and notes URLs, and key. Store the key. It is the write secret, shown once. A lost key cannot be recovered. The same key writes events, todos and notes."));
    lines.push(owned(""));
    lines.push(owned("Write (idempotent):"));
    let mut l11 = String::new();
    l11.push_str("PUT ");
    l11.push_str(origin.as_str());
    l11.push_str("/v1/c/{id}/events/{uid}");
    lines.push(l11);
    lines.push(owned("Authorization: Bearer {key}"));
    lines.push(owned("Content-Type: application/json"));
    lines.push(owned("{ \"summary\": \"Dentist\", \"start\": \"2026-08-18T09:00:00-07:00\", \"end\": \"2026-08-18T09:45:00-07:00\" }"));
    lines.push(owned(""));
    lines.push(owned("List: GET /v1/c/{id}/events"));
    lines.push(owned("Patch: PATCH /v1/c/{id}/events/{uid}"));
    lines.push(owned("Delete: DELETE /v1/c/{id}/events/{uid}"));
    lines.push(owned(""));
    lines.push(owned("Recurrence (optional on PUT and PATCH):"));
    lines.push(owned("rrule: FREQ=WEEKLY;BYDAY=TU   (no RRULE: prefix; omit or \"\" for one event)"));
    lines.push(owned("timeZone: America/Los_Angeles  (required on a timed series; forbidden on all-day and on one-off events)"));
    lines.push(owned("Allowed timeZone: UTC, America/Los_Angeles, America/Denver, America/Chicago, America/New_York, America/Phoenix, Pacific/Honolulu, Europe/London, Europe/Paris, Asia/Tokyo, Australia/Sydney"));
    lines.push(owned("Parts: FREQ (DAILY WEEKLY MONTHLY YEARLY), INTERVAL, COUNT or UNTIL, BYDAY, BYMONTHDAY, BYMONTH."));
    lines.push(owned("A series is one uid. The feed emits RRULE. Calendar apps expand it."));
    lines.push(owned("Skip one date: PUT /v1/c/{id}/events/{uid}/exdates  { \"recurrenceId\": \"2026-10-06T09:00:00\" }"));
    lines.push(owned("Restore it: DELETE that URL with the same body."));
    lines.push(owned("Change one date: PUT /v1/c/{id}/events/{uid}/overrides  { \"recurrenceId\": \"...\", \"start\": \"...\", \"end\": \"...\" }"));
    lines.push(owned("Drop that change: DELETE that URL with { \"recurrenceId\": \"...\" }."));
    lines.push(owned("recurrenceId is the original start: YYYY-MM-DD or YYYY-MM-DDTHH:MM:SS. Not a new uid."));
    lines.push(owned("Same recurrenceId cannot be both an exdate and an override. The later PUT wins."));
    lines.push(owned("Clearing rrule, or flipping allDay, fails while an exception exists."));
    lines.push(owned(""));
    lines.push(owned("Subscribe: GET {subscribe} as text/calendar. No bearer. Use https, not webcal."));
    lines.push(owned("Calendars poll. Refresh if a new event is missing."));
    lines.push(owned(""));
    lines.push(owned("Todos (same key, own feed):"));
    let mut l38 = String::new();
    l38.push_str("PUT ");
    l38.push_str(origin.as_str());
    l38.push_str("/v1/c/{id}/todos/{uid}");
    lines.push(l38);
    lines.push(owned("{ \"title\": \"Buy milk\", \"due\": \"2026-10-01\", \"priority\": 1, \"tags\": [\"home\"] }"));
    lines.push(owned("POST /v1/c/{id}/todos mints a uid. List: GET /v1/c/{id}/todos?status=open|done&tag=home"));
    lines.push(owned("Get, PATCH, DELETE: /v1/c/{id}/todos/{uid}"));
    lines.push(owned("title (required, <=512). description (<=4000). due: YYYY-MM-DD or ISO-8601 datetime, null clears. priority: 0-9 (1 highest, 0 none). done: true stamps completedAt, false clears it. tags: up to 10 of [a-z0-9_-], <=32 chars."));
    lines.push(owned("PUT keeps any field you leave out. Send null or \"\" to clear one. Wrong types are a 400."));
    lines.push(owned("Todos feed: GET the todos.subscribe URL from POST /calendars or GET /v1/c/{id}. text/calendar VTODOs. No bearer. Its token differs from the event feed."));
    lines.push(owned(""));
    lines.push(owned("Notes (same key, own feed):"));
    let mut l47 = String::new();
    l47.push_str("PUT ");
    l47.push_str(origin.as_str());
    l47.push_str("/v1/c/{id}/notes/{uid}");
    lines.push(l47);
    lines.push(owned("{ \"title\": \"Ideas\", \"body\": \"# Ideas\\n- one\", \"tags\": [\"work\"], \"pinned\": true }"));
    lines.push(owned("POST /v1/c/{id}/notes mints a uid. Get, PATCH, DELETE: /v1/c/{id}/notes/{uid}"));
    lines.push(owned("List: GET /v1/c/{id}/notes?q=text&tag=work&body=true. The list leaves bodies out unless body=true. q matches title or body, ASCII case-insensitive."));
    lines.push(owned("title (required, <=200). body: markdown text, <=32KB. tags: as todos. pinned: true lists it first. Newest first otherwise."));
    lines.push(owned("PUT keeps any field you leave out. Send null to clear body or tags. Wrong types are a 400. Caps: 500 notes per calendar (409)."));
    lines.push(owned("Notes feed: GET the notes.subscribe URL. Atom, newest 200. No bearer. Its token differs from the other feeds."));
    lines.push(owned(""));
    lines.push(owned("Export (your data is never locked in):"));
    lines.push(owned("GET /v1/c/{id}/export?format=json|md   Authorization: Bearer {key}"));
    lines.push(owned("Everything in the calendar: events, todos, and notes with bodies. 10 per hour."));
    lines.push(owned(""));
    assert(texts(lines@) =~= llms_lines(origin@));
    join_strings(lines.as_slice(), "\n")
}

/// The HTML page around `body`, with its title and link previews.
pub open spec fn page_text(title: Seq<char>, body: Seq<char>, origin: Seq<char>) -> Seq<char> {
    "<!doctype html>\n<html lang=\"en\">\n<head>\n  <meta charset=\"utf-8\">\n  <meta name=\"viewport\" content=\"width=device-width, initial-scale=1\">\n  <title>"@ + html_escape(title) + "</title>\n  <meta name=\"description\" content=\""@ + html_escape(description_text()) + "\">\n  <meta property=\"og:type\" content=\"website\">\n  <meta property=\"og:title\" content=\""@ + html_escape(title) + "\">\n  <meta property=\"og:description\" content=\""@ + html_escape(description_text()) + "\">\n  <meta property=\"og:image\" content=\""@ + html_escape(og_image(origin)) + "\">\n  <meta property=\"og:image:width\" content=\"1200\">\n  <meta property=\"og:image:height\" content=\"630\">\n  <meta property=\"og:image:alt\" content=\"Almanac. An Agent Calendar.\">\n"@ + og_url_line(origin) + "  <meta name=\"twitter:card\" content=\"summary_large_image\">\n  <meta name=\"twitter:title\" content=\""@ + html_escape(title) + "\">\n  <meta name=\"twitter:description\" content=\""@ + html_escape(description_text()) + "\">\n  <meta name=\"twitter:image\" content=\""@ + html_escape(og_image(origin)) + "\">\n  <style>\n    :root { color-scheme: dark; }\n    body { font: 16px/1.45 ui-sans-serif, system-ui, sans-serif; max-width: 40rem; margin: 3rem auto; padding: 0 1.25rem; color: #e8e8e8; background: #111; }\n    .og { display: block; width: 100%; height: auto; margin: 0 0 1.25rem; }\n    h1 { font-size: 1.5rem; font-weight: 600; letter-spacing: -0.02em; margin-bottom: 0.25rem; }\n    .sub { margin: 0 0 1rem; color: #888; }\n    code, pre { font-family: ui-monospace, SFMono-Regular, Menlo, monospace; font-size: 0.85rem; }\n    pre { background: #1c1c1c; padding: 0.9rem 1rem; overflow-x: auto; }\n    a { color: #c8c8c8; }\n    label { display: block; margin: 1rem 0 0.35rem; font-size: 0.85rem; }\n    input { width: 100%; box-sizing: border-box; padding: 0.5rem 0.6rem; background: #1c1c1c; color: inherit; border: 1px solid #333; }\n    button { margin-top: 0.9rem; margin-right: 0.5rem; padding: 0.5rem 0.9rem; background: #e8e8e8; color: #111; border: 0; font-weight: 600; }\n    button.secondary { background: #1c1c1c; color: #e8e8e8; border: 1px solid #333; }\n    .muted { color: #888; }\n    #prompt { margin-top: 1.5rem; white-space: pre-wrap; }\n  </style>\n</head>\n<body>\n"@ + body + "\n</body>\n</html>\n"@
}

fn page(title: &str, body: &str, origin: &str) -> (out: String)
    ensures
        out@ == page_text(title@, body@, origin@),
{
    let image = if origin.is_empty() {
        owned("/og.png")
    } else {
        concat(origin, "/og.png")
    };
    let og_url = if origin.is_empty() {
        String::new()
    } else {
        let mut u = owned("  <meta property=\"og:url\" content=\"");
        u.push_str(esc(origin).as_str());
        u.push_str("\">\n");
        u
    };
    let mut out = String::new();
    out.push_str("<!doctype html>\n<html lang=\"en\">\n<head>\n  <meta charset=\"utf-8\">\n  <meta name=\"viewport\" content=\"width=device-width, initial-scale=1\">\n  <title>");
    out.push_str(esc(title).as_str());
    out.push_str("</title>\n  <meta name=\"description\" content=\"");
    out.push_str(esc("An agent calendar. Agents write events. You subscribe in the app you already have.").as_str());
    out.push_str("\">\n  <meta property=\"og:type\" content=\"website\">\n  <meta property=\"og:title\" content=\"");
    out.push_str(esc(title).as_str());
    out.push_str("\">\n  <meta property=\"og:description\" content=\"");
    out.push_str(esc("An agent calendar. Agents write events. You subscribe in the app you already have.").as_str());
    out.push_str("\">\n  <meta property=\"og:image\" content=\"");
    out.push_str(esc(image.as_str()).as_str());
    out.push_str("\">\n  <meta property=\"og:image:width\" content=\"1200\">\n  <meta property=\"og:image:height\" content=\"630\">\n  <meta property=\"og:image:alt\" content=\"Almanac. An Agent Calendar.\">\n");
    out.push_str(og_url.as_str());
    out.push_str("  <meta name=\"twitter:card\" content=\"summary_large_image\">\n  <meta name=\"twitter:title\" content=\"");
    out.push_str(esc(title).as_str());
    out.push_str("\">\n  <meta name=\"twitter:description\" content=\"");
    out.push_str(esc("An agent calendar. Agents write events. You subscribe in the app you already have.").as_str());
    out.push_str("\">\n  <meta name=\"twitter:image\" content=\"");
    out.push_str(esc(image.as_str()).as_str());
    out.push_str("\">\n  <style>\n    :root { color-scheme: dark; }\n    body { font: 16px/1.45 ui-sans-serif, system-ui, sans-serif; max-width: 40rem; margin: 3rem auto; padding: 0 1.25rem; color: #e8e8e8; background: #111; }\n    .og { display: block; width: 100%; height: auto; margin: 0 0 1.25rem; }\n    h1 { font-size: 1.5rem; font-weight: 600; letter-spacing: -0.02em; margin-bottom: 0.25rem; }\n    .sub { margin: 0 0 1rem; color: #888; }\n    code, pre { font-family: ui-monospace, SFMono-Regular, Menlo, monospace; font-size: 0.85rem; }\n    pre { background: #1c1c1c; padding: 0.9rem 1rem; overflow-x: auto; }\n    a { color: #c8c8c8; }\n    label { display: block; margin: 1rem 0 0.35rem; font-size: 0.85rem; }\n    input { width: 100%; box-sizing: border-box; padding: 0.5rem 0.6rem; background: #1c1c1c; color: inherit; border: 1px solid #333; }\n    button { margin-top: 0.9rem; margin-right: 0.5rem; padding: 0.5rem 0.9rem; background: #e8e8e8; color: #111; border: 0; font-weight: 600; }\n    button.secondary { background: #1c1c1c; color: #e8e8e8; border: 1px solid #333; }\n    .muted { color: #888; }\n    #prompt { margin-top: 1.5rem; white-space: pre-wrap; }\n  </style>\n</head>\n<body>\n");
    out.push_str(body);
    out.push_str("\n</body>\n</html>\n");
    assert(out@ =~= page_text(title@, body@, origin@));
    out
}

/// The prompt the home page offers to copy for an agent.
pub open spec fn home_prompt_lines(origin: Seq<char>) -> Seq<Seq<char>> {
    seq![
        "Almanac is a hosted ICS calendar. You create one over HTTP. I subscribe to the feed in my own calendar app. You write events later when I ask."@,
        ""@,
        "1. GET "@ + origin + "/llms.txt and follow it."@,
        "2. Create a calendar:"@,
        "   POST "@ + origin + "/calendars"@,
        "   Content-Type: application/json"@,
        "   Body may be {} or { \"name\": \"optional title\" }"@,
        "3. The JSON response has:"@,
        "   - id"@,
        "   - subscribe  (https://…/feed/<token>.ics)"@,
        "   - write"@,
        "   - key"@,
        "4. Store id and key. The key is shown once and cannot be recovered. You need both to add or change events."@,
        "5. Give me those four values in plain text."@,
        "6. Help me subscribe. The feed is HTTPS ICS. Do not use webcal://."@,
        "   Walk me through my calendar of choice:"@,
        "   - Apple Calendar: File → New Calendar Subscription → paste subscribe"@,
        "   - Google Calendar: Settings → Add calendar → From URL → paste subscribe"@,
        "   - Outlook: Add calendar → Subscribe from web → paste subscribe"@,
        "   - Anything else that accepts an https .ics URL: paste subscribe there"@,
        "7. Do not add events unless I ask. Setup is create + subscribe only."@,
        ""@,
        "Base: "@ + origin,
    ]
}

pub open spec fn home_body(origin: Seq<char>) -> Seq<char> {
    "\n  <img class=\"og\" src=\"/og.png\" width=\"1200\" height=\"630\" alt=\"Almanac. An Agent Calendar.\">\n  <h1>Almanac</h1>\n  <p class=\"sub\">An Agent Calendar</p>\n  <p>Send your agent here. <a href=\"/llms.txt\">/llms.txt</a></p>\n  <pre id=\"prompt\">"@ + html_escape(join_with(home_prompt_lines(origin), "\n"@)) + "</pre>\n  <button type=\"button\" class=\"secondary\" id=\"copy\">Copy Prompt</button>\n  <script>\n    document.getElementById('copy').onclick = function () {\n      navigator.clipboard.writeText(document.getElementById('prompt').textContent);\n    };\n  </script>\n"@
}

/// The home page.
pub open spec fn home_text(base: Seq<char>) -> Seq<char> {
    page_text("Almanac"@, home_body(strip_trailing(base, '/')), strip_trailing(base, '/'))
}

pub fn html_home(base: &str) -> (out: String)
    ensures
        out@ == home_text(base@),
{
    let origin = strip_trailing_slashes(base);
    let mut lines: Vec<String> = Vec::new();
    lines.push(owned("Almanac is a hosted ICS calendar. You create one over HTTP. I subscribe to the feed in my own calendar app. You write events later when I ask."));
    lines.push(owned(""));
    let mut l2 = String::new();
    l2.push_str("1. GET ");
    l2.push_str(origin.as_str());
    l2.push_str("/llms.txt and follow it.");
    lines.push(l2);
    lines.push(owned("2. Create a calendar:"));
    let mut l4 = String::new();
    l4.push_str("   POST ");
    l4.push_str(origin.as_str());
    l4.push_str("/calendars");
    lines.push(l4);
    lines.push(owned("   Content-Type: application/json"));
    lines.push(owned("   Body may be {} or { \"name\": \"optional title\" }"));
    lines.push(owned("3. The JSON response has:"));
    lines.push(owned("   - id"));
    lines.push(owned("   - subscribe  (https://…/feed/<token>.ics)"));
    lines.push(owned("   - write"));
    lines.push(owned("   - key"));
    lines.push(owned("4. Store id and key. The key is shown once and cannot be recovered. You need both to add or change events."));
    lines.push(owned("5. Give me those four values in plain text."));
    lines.push(owned("6. Help me subscribe. The feed is HTTPS ICS. Do not use webcal://."));
    lines.push(owned("   Walk me through my calendar of choice:"));
    lines.push(owned("   - Apple Calendar: File → New Calendar Subscription → paste subscribe"));
    lines.push(owned("   - Google Calendar: Settings → Add calendar → From URL → paste subscribe"));
    lines.push(owned("   - Outlook: Add calendar → Subscribe from web → paste subscribe"));
    lines.push(owned("   - Anything else that accepts an https .ics URL: paste subscribe there"));
    lines.push(owned("7. Do not add events unless I ask. Setup is create + subscribe only."));
    lines.push(owned(""));
    let mut l22 = String::new();
    l22.push_str("Base: ");
    l22.push_str(origin.as_str());
    lines.push(l22);
    assert(texts(lines@) =~= home_prompt_lines(origin@));
    let prompt = join_strings(lines.as_slice(), "\n");
    let mut body = String::new();
    body.push_str("\n  <img class=\"og\" src=\"/og.png\" width=\"1200\" height=\"630\" alt=\"Almanac. An Agent Calendar.\">\n  <h1>Almanac</h1>\n  <p class=\"sub\">An Agent Calendar</p>\n  <p>Send your agent here. <a href=\"/llms.txt\">/llms.txt</a></p>\n  <pre id=\"prompt\">");
    body.push_str(esc(prompt.as_str()).as_str());
    body.push_str("</pre>\n  <button type=\"button\" class=\"secondary\" id=\"copy\">Copy Prompt</button>\n  <script>\n    document.getElementById('copy').onclick = function () {\n      navigator.clipboard.writeText(document.getElementById('prompt').textContent);\n    };\n  </script>\n");
    assert(body@ =~= home_body(origin@));
    page("Almanac", body.as_str(), origin.as_str())
}

/// The page shown after creating a calendar in a browser: the id, feeds,
/// key and where to write, the key shown this once.
pub open spec fn created_body(
    row: CalendarRow,
    key: Seq<char>,
    todos_subscribe: Seq<char>,
    notes_subscribe: Seq<char>,
    origin: Seq<char>,
) -> Seq<char> {
    let subscribe = origin + "/feed/"@ + row.feed_token@ + ".ics"@;
    let write = origin + "/v1/c/"@ + row.id@ + "/events"@;
    "\n  <h1>Calendar Ready</h1>\n  <p>Save the key now. It is shown once and cannot be recovered.</p>\n  <p><strong>Id</strong><br><code>"@ + html_escape(row.id@) + "</code></p>\n  <p><strong>Subscribe</strong><br><code>"@ + html_escape(subscribe) + "</code></p>\n  <p><strong>Todos feed</strong><br><code>"@ + html_escape(todos_subscribe) + "</code></p>\n  <p><strong>Notes feed</strong><br><code>"@ + html_escape(notes_subscribe) + "</code></p>\n  <p><strong>Key</strong><br><code>"@ + html_escape(key) + "</code></p>\n  <p><strong>Write</strong><br><code>PUT "@ + html_escape(write) + "/{uid}</code></p>\n  <pre>Authorization: Bearer "@ + html_escape(key) + "</pre>\n  <p><a href=\"/\">Back</a></p>\n"@
}

pub open spec fn created_text(
    row: CalendarRow,
    key: Seq<char>,
    todos_subscribe: Seq<char>,
    notes_subscribe: Seq<char>,
    base: Seq<char>,
) -> Seq<char> {
    page_text(
        "Almanac Calendar"@,
        created_body(row, key, todos_subscribe, notes_subscribe, strip_trailing(base, '/')),
        strip_trailing(base, '/'),
    )
}

pub fn html_created(
    row: &CalendarRow,
    key: &str,
    todos_subscribe: &str,
    notes_subscribe: &str,
    base: &str,
) -> (out: String)
    ensures
        out@ == created_text(*row, key@, todos_subscribe@, notes_subscribe@, base@),
{
    let origin = strip_trailing_slashes(base);
    let mut subscribe = origin.clone();
    subscribe.push_str("/feed/");
    subscribe.push_str(row.feed_token.as_str());
    subscribe.push_str(".ics");
    let mut write = origin.clone();
    write.push_str("/v1/c/");
    write.push_str(row.id.as_str());
    write.push_str("/events");
    let mut body = String::new();
    body.push_str("\n  <h1>Calendar Ready</h1>\n  <p>Save the key now. It is shown once and cannot be recovered.</p>\n  <p><strong>Id</strong><br><code>");
    body.push_str(esc(row.id.as_str()).as_str());
    body.push_str("</code></p>\n  <p><strong>Subscribe</strong><br><code>");
    body.push_str(esc(subscribe.as_str()).as_str());
    body.push_str("</code></p>\n  <p><strong>Todos feed</strong><br><code>");
    body.push_str(esc(todos_subscribe).as_str());
    body.push_str("</code></p>\n  <p><strong>Notes feed</strong><br><code>");
    body.push_str(esc(notes_subscribe).as_str());
    body.push_str("</code></p>\n  <p><strong>Key</strong><br><code>");
    body.push_str(esc(key).as_str());
    body.push_str("</code></p>\n  <p><strong>Write</strong><br><code>PUT ");
    body.push_str(esc(write.as_str()).as_str());
    body.push_str("/{uid}</code></p>\n  <pre>Authorization: Bearer ");
    body.push_str(esc(key).as_str());
    body.push_str("</pre>\n  <p><a href=\"/\">Back</a></p>\n");
    assert(body@ =~= created_body(*row, key@, todos_subscribe@, notes_subscribe@, origin@));
    page("Almanac Calendar", body.as_str(), origin.as_str())
}

} // verus!
