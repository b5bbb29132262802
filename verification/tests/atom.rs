use almanac::atom::{render_atom, xml_escape, AtomEntry};

#[test]
fn escapes_the_five_specials() {
    assert_eq!(xml_escape(r#"a & b < c > d " e ' f"#), "a &amp; b &lt; c &gt; d &quot; e &apos; f");
}

#[test]
fn drops_characters_xml_forbids_but_keeps_whitespace_and_unicode() {
    assert_eq!(xml_escape("a\u{0}b\u{8}c\u{b}d\u{1b}e\u{fffe}f"), "abcdef");
    assert_eq!(xml_escape("tab\there\nline\r\nend"), "tab\there\nline\r\nend");
    assert_eq!(xml_escape("é ✓ 日本 🎉"), "é ✓ 日本 🎉");
}

#[test]
fn renders_a_feed() {
    let xml = render_atom(
        "urn:almanac:cal_1:notes",
        "Trip Notes",
        "2026-09-02T11:30:00.000Z",
        &[AtomEntry {
            id: "urn:almanac:cal_1:n1".into(),
            title: "Packing <list>".into(),
            updated: "2026-09-02T11:30:00.000Z".into(),
            published: "2026-09-01T10:00:00.000Z".into(),
            content: "socks & shoes\n- passport".into(),
            tags: vec!["travel".into()],
        }],
    );
    assert_eq!(
        xml,
        "<?xml version=\"1.0\" encoding=\"utf-8\"?>\n\
         <feed xmlns=\"http://www.w3.org/2005/Atom\">\n\
         \x20 <id>urn:almanac:cal_1:notes</id>\n\
         \x20 <title>Trip Notes</title>\n\
         \x20 <updated>2026-09-02T11:30:00.000Z</updated>\n\
         \x20 <author><name>Almanac</name></author>\n\
         \x20 <entry>\n\
         \x20   <id>urn:almanac:cal_1:n1</id>\n\
         \x20   <title>Packing &lt;list&gt;</title>\n\
         \x20   <updated>2026-09-02T11:30:00.000Z</updated>\n\
         \x20   <published>2026-09-01T10:00:00.000Z</published>\n\
         \x20   <category term=\"travel\"/>\n\
         \x20   <content type=\"text\">socks &amp; shoes\n- passport</content>\n\
         \x20 </entry>\n\
         </feed>\n"
    );
}

#[test]
fn a_hostile_title_stays_text() {
    let xml = render_atom(
        "id",
        "</title><evil/>",
        "2026-09-02T11:30:00.000Z",
        &[AtomEntry {
            id: "x".into(),
            title: "]]></title><script>".into(),
            updated: "u".into(),
            published: "p".into(),
            content: "</content><evil/>".into(),
            tags: vec!["a\"/><evil x=\"".into()],
        }],
    );
    assert!(!xml.contains("<evil"), "{xml}");
    assert!(!xml.contains("<script"), "{xml}");
}

#[test]
fn an_empty_feed_has_no_entries() {
    let xml = render_atom("f", "T", "u", &[]);
    assert!(!xml.contains("<entry>"));
    assert!(xml.ends_with("</feed>\n"));
}
