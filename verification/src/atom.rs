//! Atom 1.0 feeds, for notes. Calendar apps have no standard place for a note,
//! but every feed reader can subscribe to this.

use vstd::prelude::*;
use crate::text::{chars_of};

verus! {

/// How one char is written in XML text: the five specials as entities,
/// tab / LF / CR as they are, and what XML 1.0 forbids (other control
/// characters below U+0020, U+FFFE, U+FFFF) dropped.
pub open spec fn xml_one(c: char) -> Seq<char> {
    if c == '&' {
        "&amp;"@
    } else if c == '<' {
        "&lt;"@
    } else if c == '>' {
        "&gt;"@
    } else if c == '"' {
        "&quot;"@
    } else if c == '\'' {
        "&apos;"@
    } else if c == '\t' || c == '\n' || c == '\r' {
        seq![c]
    } else if (c as u32) < 0x20 || c == '\u{fffe}' || c == '\u{ffff}' {
        Seq::empty()
    } else {
        seq![c]
    }
}

pub open spec fn xml_text(s: Seq<char>) -> Seq<char>
    decreases s.len(),
{
    if s.len() == 0 {
        Seq::empty()
    } else {
        xml_text(s.drop_last()) + xml_one(s.last())
    }
}

/// XML-safe text. Characters XML 1.0 forbids (most control characters,
/// U+FFFE, U+FFFF) are dropped, then the five specials are escaped.
pub fn xml_escape(value: &str) -> (out: String)
    ensures
        out@ == xml_text(value@),
{
    let s = chars_of(value);
    let mut out = String::new();
    let mut i: usize = 0;
    while i < s.len()
        invariant
            i <= s@.len(),
            s@ == value@,
            out@ == xml_text(s@.take(i as int)),
        decreases s@.len() - i,
    {
        let c = s[i];
        if c == '&' {
            out.push_str("&amp;");
        } else if c == '<' {
            out.push_str("&lt;");
        } else if c == '>' {
            out.push_str("&gt;");
        } else if c == '"' {
            out.push_str("&quot;");
        } else if c == '\'' {
            out.push_str("&apos;");
        } else if c == '\t' || c == '\n' || c == '\r' {
            out.push(c);
        } else if (c as u32) < 0x20 || c == '\u{fffe}' || c == '\u{ffff}' {
        } else {
            out.push(c);
        }
        proof {
            assert(s@.take(i + 1).drop_last() =~= s@.take(i as int));
            assert(s@.take(i + 1).last() == c);
        }
        i = i + 1;
        assert(out@ =~= xml_text(s@.take(i as int)));
    }
    assert(s@.take(i as int) =~= s@);
    out
}

/// Escaped text never holds a char that could open or close markup or end an
/// attribute value: no `<`, `>`, `"` or `'`.
pub proof fn lemma_xml_text_is_text(s: Seq<char>)
    ensures
        forall|k: int|
            0 <= k < xml_text(s).len() ==> {
                let c = #[trigger] xml_text(s)[k];
                c != '<' && c != '>' && c != '"' && c != '\''
            },
    decreases s.len(),
{
    reveal_strlit("&amp;");
    reveal_strlit("&lt;");
    reveal_strlit("&gt;");
    reveal_strlit("&quot;");
    reveal_strlit("&apos;");
    if s.len() > 0 {
        lemma_xml_text_is_text(s.drop_last());
        let a = xml_text(s.drop_last());
        let b = xml_one(s.last());
        assert(xml_text(s) == a + b);
        assert forall|k: int| 0 <= k < xml_text(s).len() implies {
            let c = #[trigger] xml_text(s)[k];
            c != '<' && c != '>' && c != '"' && c != '\''
        } by {
            if k < a.len() {
                assert(xml_text(s)[k] == a[k]);
            } else {
                assert(xml_text(s)[k] == b[k - a.len()]);
            }
        }
    }
}

#[derive(Debug, Clone)]
pub struct AtomEntry {
    pub id: String,
    pub title: String,
    /// RFC 3339.
    pub updated: String,
    pub published: String,
    pub content: String,
    pub tags: Vec<String>,
}

/// The `<category>` lines of an entry.
pub open spec fn category_lines(tags: Seq<String>) -> Seq<char>
    decreases tags.len(),
{
    if tags.len() == 0 {
        Seq::empty()
    } else {
        category_lines(tags.drop_last()) + "    <category term=\""@ + xml_text(tags.last()@)
            + "\"/>\n"@
    }
}

pub open spec fn entry_text(e: AtomEntry) -> Seq<char> {
    "  <entry>\n"@ + "    <id>"@ + xml_text(e.id@) + "</id>\n"@ + "    <title>"@ + xml_text(e.title@)
        + "</title>\n"@ + "    <updated>"@ + xml_text(e.updated@) + "</updated>\n"@
        + "    <published>"@ + xml_text(e.published@) + "</published>\n"@ + category_lines(e.tags@)
        + "    <content type=\"text\">"@ + xml_text(e.content@) + "</content>\n"@ + "  </entry>\n"@
}

pub open spec fn entries_text(es: Seq<AtomEntry>) -> Seq<char>
    decreases es.len(),
{
    if es.len() == 0 {
        Seq::empty()
    } else {
        entries_text(es.drop_last()) + entry_text(es.last())
    }
}

/// The whole feed document.
pub open spec fn atom_text(feed_id: Seq<char>, title: Seq<char>, updated: Seq<char>, es: Seq<AtomEntry>) -> Seq<char> {
    "<?xml version=\"1.0\" encoding=\"utf-8\"?>\n"@ + "<feed xmlns=\"http://www.w3.org/2005/Atom\">\n"@
        + "  <id>"@ + xml_text(feed_id) + "</id>\n"@ + "  <title>"@ + xml_text(title) + "</title>\n"@
        + "  <updated>"@ + xml_text(updated) + "</updated>\n"@
        + "  <author><name>Almanac</name></author>\n"@ + entries_text(es) + "</feed>\n"@
}

/// Append `open`, the escaped `value`, then `close`.
fn push_element(out: &mut String, open: &str, value: &str, close: &str)
    ensures
        final(out)@ == old(out)@ + open@ + xml_text(value@) + close@,
{
    out.push_str(open);
    out.push_str(xml_escape(value).as_str());
    out.push_str(close);
}

fn push_entry(out: &mut String, e: &AtomEntry)
    ensures
        final(out)@ == old(out)@ + entry_text(*e),
{
    out.push_str("  <entry>\n");
    push_element(out, "    <id>", e.id.as_str(), "</id>\n");
    push_element(out, "    <title>", e.title.as_str(), "</title>\n");
    push_element(out, "    <updated>", e.updated.as_str(), "</updated>\n");
    push_element(out, "    <published>", e.published.as_str(), "</published>\n");
    let ghost before_tags = out@;
    let mut i: usize = 0;
    while i < e.tags.len()
        invariant
            i <= e.tags@.len(),
            out@ == before_tags + category_lines(e.tags@.take(i as int)),
        decreases e.tags@.len() - i,
    {
        push_element(out, "    <category term=\"", e.tags[i].as_str(), "\"/>\n");
        proof {
            assert(e.tags@.take(i + 1).drop_last() =~= e.tags@.take(i as int));
        }
        i = i + 1;
        assert(out@ =~= before_tags + category_lines(e.tags@.take(i as int)));
    }
    assert(e.tags@.take(i as int) =~= e.tags@);
    push_element(out, "    <content type=\"text\">", e.content.as_str(), "</content>\n");
    out.push_str("  </entry>\n");
    assert(out@ =~= old(out)@ + entry_text(*e));
}

/// `updated` is the feed's own timestamp: the newest entry's, or now.
pub fn render_atom(feed_id: &str, title: &str, updated: &str, entries: &[AtomEntry]) -> (out: String)
    ensures
        out@ == atom_text(feed_id@, title@, updated@, entries@),
{
    let mut out = String::new();
    out.push_str("<?xml version=\"1.0\" encoding=\"utf-8\"?>\n");
    out.push_str("<feed xmlns=\"http://www.w3.org/2005/Atom\">\n");
    push_element(&mut out, "  <id>", feed_id, "</id>\n");
    push_element(&mut out, "  <title>", title, "</title>\n");
    push_element(&mut out, "  <updated>", updated, "</updated>\n");
    out.push_str("  <author><name>Almanac</name></author>\n");
    let ghost head = out@;
    let mut i: usize = 0;
    while i < entries.len()
        invariant
            i <= entries@.len(),
            out@ == head + entries_text(entries@.take(i as int)),
        decreases entries@.len() - i,
    {
        push_entry(&mut out, &entries[i]);
        proof {
            assert(entries@.take(i + 1).drop_last() =~= entries@.take(i as int));
        }
        i = i + 1;
        assert(out@ =~= head + entries_text(entries@.take(i as int)));
    }
    assert(entries@.take(i as int) =~= entries@);
    out.push_str("</feed>\n");
    assert(out@ =~= atom_text(feed_id@, title@, updated@, entries@));
    out
}


/// An Atom entry opens with its own id and title and closes with its own
/// content, each escaped as XML text.
pub proof fn lemma_entry_fields(e: AtomEntry)
    ensures
        ({
            let head = "  <entry>\n"@ + "    <id>"@ + xml_text(e.id@) + "</id>\n"@ + "    <title>"@ + xml_text(e.title@)
                + "</title>\n"@;
            let tail = "    <content type=\"text\">"@ + xml_text(e.content@) + "</content>\n"@ + "  </entry>\n"@;
            let t = entry_text(e);
            &&& t.len() >= head.len() + tail.len()
            &&& t.take(head.len() as int) == head
            &&& t.skip(t.len() - tail.len()) == tail
        }),
{
    let head = "  <entry>\n"@ + "    <id>"@ + xml_text(e.id@) + "</id>\n"@ + "    <title>"@ + xml_text(e.title@)
        + "</title>\n"@;
    let tail = "    <content type=\"text\">"@ + xml_text(e.content@) + "</content>\n"@ + "  </entry>\n"@;
    let mid = "    <updated>"@ + xml_text(e.updated@) + "</updated>\n"@ + "    <published>"@ + xml_text(
        e.published@,
    ) + "</published>\n"@ + category_lines(e.tags@);
    let t = entry_text(e);
    assert(t =~= head + mid + tail);
    assert(t.take(head.len() as int) =~= head);
    assert(t.skip(t.len() - tail.len()) =~= tail);
}

} // verus!
