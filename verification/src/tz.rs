//! The time zones a recurring event may name, and their VTIMEZONE blocks.

use vstd::prelude::*;
use crate::text::{join_strs, join_with, owned, str_eq, str_texts};

verus! {

/// The zones a recurring event may use, in the order the error message lists them.
pub open spec fn allowed_names() -> Seq<Seq<char>> {
    seq!["UTC"@, "America/Los_Angeles"@, "America/Denver"@, "America/Chicago"@, "America/New_York"@, "America/Phoenix"@, "Pacific/Honolulu"@, "Europe/London"@, "Europe/Paris"@, "Asia/Tokyo"@, "Australia/Sydney"@]
}

/// The allowed zones.
pub fn allowed() -> (v: Vec<&'static str>)
    ensures
        str_texts(v@) == allowed_names(),
{
    let v = vec!["UTC", "America/Los_Angeles", "America/Denver", "America/Chicago", "America/New_York", "America/Phoenix", "Pacific/Honolulu", "Europe/London", "Europe/Paris", "Asia/Tokyo", "Australia/Sydney"];
    assert(str_texts(v@) =~= allowed_names());
    v
}

/// No allowed zone has an empty name.
pub proof fn lemma_allowed_nonempty(tz: Seq<char>)
    ensures
        allowed_names().contains(tz) ==> tz.len() > 0,
{
    if allowed_names().contains(tz) {
        let i = choose|i: int| 0 <= i < allowed_names().len() && allowed_names()[i] == tz;
        reveal_strlit("UTC");
        reveal_strlit("America/Los_Angeles");
        reveal_strlit("America/Denver");
        reveal_strlit("America/Chicago");
        reveal_strlit("America/New_York");
        reveal_strlit("America/Phoenix");
        reveal_strlit("Pacific/Honolulu");
        reveal_strlit("Europe/London");
        reveal_strlit("Europe/Paris");
        reveal_strlit("Asia/Tokyo");
        reveal_strlit("Australia/Sydney");
        assert(allowed_names()[i].len() > 0);
    }
}

pub open spec fn unsupported_message() -> Seq<char> {
    "unsupported timeZone. allowed: "@ + join_with(allowed_names(), ", "@)
}

/// `Ok` for an allowed zone; otherwise an error that lists the allowed ones.
pub fn check(name: &str) -> (r: Result<(), String>)
    ensures
        r is Ok <==> allowed_names().contains(name@),
        r matches Err(e) ==> e@ == unsupported_message(),
{
    let zones = allowed();
    let mut i: usize = 0;
    while i < zones.len()
        invariant
            i <= zones@.len(),
            str_texts(zones@) == allowed_names(),
            forall|q: int| 0 <= q < i ==> allowed_names()[q] != name@,
        decreases zones@.len() - i,
    {
        if str_eq(zones[i], name) {
            assert(allowed_names()[i as int] == name@);
            return Ok(());
        }
        i = i + 1;
    }
    let mut msg = owned("unsupported timeZone. allowed: ");
    let list = join_strs(zones.as_slice(), ", ");
    msg.push_str(list.as_str());
    Err(msg)
}

pub fn is_utc(name: &str) -> (b: bool)
    ensures
        b == (name@ == "UTC"@),
{
    str_eq(name, "UTC")
}

/// Whether `tzid` has a VTIMEZONE block: every allowed zone but UTC.
pub open spec fn has_vtimezone(tzid: Seq<char>) -> bool {
    allowed_names().contains(tzid) && tzid != "UTC"@
}
/// The VTIMEZONE block of each zone that has one.
pub open spec fn zone_block(tzid: Seq<char>) -> Option<Seq<Seq<char>>> {
    if tzid == "America/Los_Angeles"@ {
        Some(seq![
            "BEGIN:VTIMEZONE"@,
            "TZID:America/Los_Angeles"@,
            "BEGIN:DAYLIGHT"@,
            "DTSTART:20070311T020000"@,
            "RRULE:FREQ=YEARLY;BYMONTH=3;BYDAY=2SU"@,
            "TZOFFSETFROM:-0800"@,
            "TZOFFSETTO:-0700"@,
            "TZNAME:PDT"@,
            "END:DAYLIGHT"@,
            "BEGIN:STANDARD"@,
            "DTSTART:20071104T020000"@,
            "RRULE:FREQ=YEARLY;BYMONTH=11;BYDAY=1SU"@,
            "TZOFFSETFROM:-0700"@,
            "TZOFFSETTO:-0800"@,
            "TZNAME:PST"@,
            "END:STANDARD"@,
            "END:VTIMEZONE"@,
        ])
    }     else if tzid == "America/Denver"@ {
        Some(seq![
            "BEGIN:VTIMEZONE"@,
            "TZID:America/Denver"@,
            "BEGIN:DAYLIGHT"@,
            "DTSTART:20070311T020000"@,
            "RRULE:FREQ=YEARLY;BYMONTH=3;BYDAY=2SU"@,
            "TZOFFSETFROM:-0700"@,
            "TZOFFSETTO:-0600"@,
            "TZNAME:MDT"@,
            "END:DAYLIGHT"@,
            "BEGIN:STANDARD"@,
            "DTSTART:20071104T020000"@,
            "RRULE:FREQ=YEARLY;BYMONTH=11;BYDAY=1SU"@,
            "TZOFFSETFROM:-0600"@,
            "TZOFFSETTO:-0700"@,
            "TZNAME:MST"@,
            "END:STANDARD"@,
            "END:VTIMEZONE"@,
        ])
    }     else if tzid == "America/Chicago"@ {
        Some(seq![
            "BEGIN:VTIMEZONE"@,
            "TZID:America/Chicago"@,
            "BEGIN:DAYLIGHT"@,
            "DTSTART:20070311T020000"@,
            "RRULE:FREQ=YEARLY;BYMONTH=3;BYDAY=2SU"@,
            "TZOFFSETFROM:-0600"@,
            "TZOFFSETTO:-0500"@,
            "TZNAME:CDT"@,
            "END:DAYLIGHT"@,
            "BEGIN:STANDARD"@,
            "DTSTART:20071104T020000"@,
            "RRULE:FREQ=YEARLY;BYMONTH=11;BYDAY=1SU"@,
            "TZOFFSETFROM:-0500"@,
            "TZOFFSETTO:-0600"@,
            "TZNAME:CST"@,
            "END:STANDARD"@,
            "END:VTIMEZONE"@,
        ])
    }     else if tzid == "America/New_York"@ {
        Some(seq![
            "BEGIN:VTIMEZONE"@,
            "TZID:America/New_York"@,
            "BEGIN:DAYLIGHT"@,
            "DTSTART:20070311T020000"@,
            "RRULE:FREQ=YEARLY;BYMONTH=3;BYDAY=2SU"@,
            "TZOFFSETFROM:-0500"@,
            "TZOFFSETTO:-0400"@,
            "TZNAME:EDT"@,
            "END:DAYLIGHT"@,
            "BEGIN:STANDARD"@,
            "DTSTART:20071104T020000"@,
            "RRULE:FREQ=YEARLY;BYMONTH=11;BYDAY=1SU"@,
            "TZOFFSETFROM:-0400"@,
            "TZOFFSETTO:-0500"@,
            "TZNAME:EST"@,
            "END:STANDARD"@,
            "END:VTIMEZONE"@,
        ])
    }     else if tzid == "America/Phoenix"@ {
        Some(seq![
            "BEGIN:VTIMEZONE"@,
            "TZID:America/Phoenix"@,
            "BEGIN:STANDARD"@,
            "DTSTART:19700101T000000"@,
            "TZOFFSETFROM:-0700"@,
            "TZOFFSETTO:-0700"@,
            "TZNAME:MST"@,
            "END:STANDARD"@,
            "END:VTIMEZONE"@,
        ])
    }     else if tzid == "Pacific/Honolulu"@ {
        Some(seq![
            "BEGIN:VTIMEZONE"@,
            "TZID:Pacific/Honolulu"@,
            "BEGIN:STANDARD"@,
            "DTSTART:19700101T000000"@,
            "TZOFFSETFROM:-1000"@,
            "TZOFFSETTO:-1000"@,
            "TZNAME:HST"@,
            "END:STANDARD"@,
            "END:VTIMEZONE"@,
        ])
    }     else if tzid == "Europe/London"@ {
        Some(seq![
            "BEGIN:VTIMEZONE"@,
            "TZID:Europe/London"@,
            "BEGIN:DAYLIGHT"@,
            "DTSTART:20070325T010000"@,
            "RRULE:FREQ=YEARLY;BYMONTH=3;BYDAY=-1SU"@,
            "TZOFFSETFROM:+0000"@,
            "TZOFFSETTO:+0100"@,
            "TZNAME:BST"@,
            "END:DAYLIGHT"@,
            "BEGIN:STANDARD"@,
            "DTSTART:20071028T020000"@,
            "RRULE:FREQ=YEARLY;BYMONTH=10;BYDAY=-1SU"@,
            "TZOFFSETFROM:+0100"@,
            "TZOFFSETTO:+0000"@,
            "TZNAME:GMT"@,
            "END:STANDARD"@,
            "END:VTIMEZONE"@,
        ])
    }     else if tzid == "Europe/Paris"@ {
        Some(seq![
            "BEGIN:VTIMEZONE"@,
            "TZID:Europe/Paris"@,
            "BEGIN:DAYLIGHT"@,
            "DTSTART:20070325T020000"@,
            "RRULE:FREQ=YEARLY;BYMONTH=3;BYDAY=-1SU"@,
            "TZOFFSETFROM:+0100"@,
            "TZOFFSETTO:+0200"@,
            "TZNAME:CEST"@,
            "END:DAYLIGHT"@,
            "BEGIN:STANDARD"@,
            "DTSTART:20071028T030000"@,
            "RRULE:FREQ=YEARLY;BYMONTH=10;BYDAY=-1SU"@,
            "TZOFFSETFROM:+0200"@,
            "TZOFFSETTO:+0100"@,
            "TZNAME:CET"@,
            "END:STANDARD"@,
            "END:VTIMEZONE"@,
        ])
    }     else if tzid == "Asia/Tokyo"@ {
        Some(seq![
            "BEGIN:VTIMEZONE"@,
            "TZID:Asia/Tokyo"@,
            "BEGIN:STANDARD"@,
            "DTSTART:19700101T000000"@,
            "TZOFFSETFROM:+0900"@,
            "TZOFFSETTO:+0900"@,
            "TZNAME:JST"@,
            "END:STANDARD"@,
            "END:VTIMEZONE"@,
        ])
    }     else if tzid == "Australia/Sydney"@ {
        Some(seq![
            "BEGIN:VTIMEZONE"@,
            "TZID:Australia/Sydney"@,
            "BEGIN:DAYLIGHT"@,
            "DTSTART:20081005T020000"@,
            "RRULE:FREQ=YEARLY;BYMONTH=10;BYDAY=1SU"@,
            "TZOFFSETFROM:+1000"@,
            "TZOFFSETTO:+1100"@,
            "TZNAME:AEDT"@,
            "END:DAYLIGHT"@,
            "BEGIN:STANDARD"@,
            "DTSTART:20080406T030000"@,
            "RRULE:FREQ=YEARLY;BYMONTH=4;BYDAY=1SU"@,
            "TZOFFSETFROM:+1100"@,
            "TZOFFSETTO:+1000"@,
            "TZNAME:AEST"@,
            "END:STANDARD"@,
            "END:VTIMEZONE"@,
        ])
    } else {
        None
    }
}

/// The VTIMEZONE block of a zone: current civil DST rules only, not
/// historical transitions.
pub fn vtimezone_lines(tzid: &str) -> (r: Option<Vec<&'static str>>)
    ensures
        r is Some <==> has_vtimezone(tzid@),
        r matches Some(v) ==> zone_block(tzid@) == Some(str_texts(v@)),
        r is None ==> zone_block(tzid@) is None,
        r matches Some(v) ==> v@.len() >= 3 && v@[0]@ == "BEGIN:VTIMEZONE"@ && v@[1]@ == "TZID:"@
            + tzid@ && v@.last()@ == "END:VTIMEZONE"@,
{
    proof {
        reveal_strlit("BEGIN:VTIMEZONE");
        reveal_strlit("END:VTIMEZONE");
        reveal_strlit("TZID:");
        reveal_strlit("UTC");
        reveal_strlit("America/Los_Angeles");
        reveal_strlit("TZID:America/Los_Angeles");
        reveal_strlit("America/Denver");
        reveal_strlit("TZID:America/Denver");
        reveal_strlit("America/Chicago");
        reveal_strlit("TZID:America/Chicago");
        reveal_strlit("America/New_York");
        reveal_strlit("TZID:America/New_York");
        reveal_strlit("America/Phoenix");
        reveal_strlit("TZID:America/Phoenix");
        reveal_strlit("Pacific/Honolulu");
        reveal_strlit("TZID:Pacific/Honolulu");
        reveal_strlit("Europe/London");
        reveal_strlit("TZID:Europe/London");
        reveal_strlit("Europe/Paris");
        reveal_strlit("TZID:Europe/Paris");
        reveal_strlit("Asia/Tokyo");
        reveal_strlit("TZID:Asia/Tokyo");
        reveal_strlit("Australia/Sydney");
        reveal_strlit("TZID:Australia/Sydney");
    }
    if str_eq(tzid, "America/Los_Angeles") {
        assert(allowed_names()[1] == tzid@);
        let v = vec![
            "BEGIN:VTIMEZONE",
            "TZID:America/Los_Angeles",
            "BEGIN:DAYLIGHT",
            "DTSTART:20070311T020000",
            "RRULE:FREQ=YEARLY;BYMONTH=3;BYDAY=2SU",
            "TZOFFSETFROM:-0800",
            "TZOFFSETTO:-0700",
            "TZNAME:PDT",
            "END:DAYLIGHT",
            "BEGIN:STANDARD",
            "DTSTART:20071104T020000",
            "RRULE:FREQ=YEARLY;BYMONTH=11;BYDAY=1SU",
            "TZOFFSETFROM:-0700",
            "TZOFFSETTO:-0800",
            "TZNAME:PST",
            "END:STANDARD",
            "END:VTIMEZONE",
        ];
        assert(str_texts(v@) =~= zone_block(tzid@).unwrap());
        return Some(v);
    }
    if str_eq(tzid, "America/Denver") {
        assert(allowed_names()[2] == tzid@);
        let v = vec![
            "BEGIN:VTIMEZONE",
            "TZID:America/Denver",
            "BEGIN:DAYLIGHT",
            "DTSTART:20070311T020000",
            "RRULE:FREQ=YEARLY;BYMONTH=3;BYDAY=2SU",
            "TZOFFSETFROM:-0700",
            "TZOFFSETTO:-0600",
            "TZNAME:MDT",
            "END:DAYLIGHT",
            "BEGIN:STANDARD",
            "DTSTART:20071104T020000",
            "RRULE:FREQ=YEARLY;BYMONTH=11;BYDAY=1SU",
            "TZOFFSETFROM:-0600",
            "TZOFFSETTO:-0700",
            "TZNAME:MST",
            "END:STANDARD",
            "END:VTIMEZONE",
        ];
        assert(str_texts(v@) =~= zone_block(tzid@).unwrap());
        return Some(v);
    }
    if str_eq(tzid, "America/Chicago") {
        assert(allowed_names()[3] == tzid@);
        let v = vec![
            "BEGIN:VTIMEZONE",
            "TZID:America/Chicago",
            "BEGIN:DAYLIGHT",
            "DTSTART:20070311T020000",
            "RRULE:FREQ=YEARLY;BYMONTH=3;BYDAY=2SU",
            "TZOFFSETFROM:-0600",
            "TZOFFSETTO:-0500",
            "TZNAME:CDT",
            "END:DAYLIGHT",
            "BEGIN:STANDARD",
            "DTSTART:20071104T020000",
            "RRULE:FREQ=YEARLY;BYMONTH=11;BYDAY=1SU",
            "TZOFFSETFROM:-0500",
            "TZOFFSETTO:-0600",
            "TZNAME:CST",
            "END:STANDARD",
            "END:VTIMEZONE",
        ];
        assert(str_texts(v@) =~= zone_block(tzid@).unwrap());
        return Some(v);
    }
    if str_eq(tzid, "America/New_York") {
        assert(allowed_names()[4] == tzid@);
        let v = vec![
            "BEGIN:VTIMEZONE",
            "TZID:America/New_York",
            "BEGIN:DAYLIGHT",
            "DTSTART:20070311T020000",
            "RRULE:FREQ=YEARLY;BYMONTH=3;BYDAY=2SU",
            "TZOFFSETFROM:-0500",
            "TZOFFSETTO:-0400",
            "TZNAME:EDT",
            "END:DAYLIGHT",
            "BEGIN:STANDARD",
            "DTSTART:20071104T020000",
            "RRULE:FREQ=YEARLY;BYMONTH=11;BYDAY=1SU",
            "TZOFFSETFROM:-0400",
            "TZOFFSETTO:-0500",
            "TZNAME:EST",
            "END:STANDARD",
            "END:VTIMEZONE",
        ];
        assert(str_texts(v@) =~= zone_block(tzid@).unwrap());
        return Some(v);
    }
    if str_eq(tzid, "America/Phoenix") {
        assert(allowed_names()[5] == tzid@);
        let v = vec![
            "BEGIN:VTIMEZONE",
            "TZID:America/Phoenix",
            "BEGIN:STANDARD",
            "DTSTART:19700101T000000",
            "TZOFFSETFROM:-0700",
            "TZOFFSETTO:-0700",
            "TZNAME:MST",
            "END:STANDARD",
            "END:VTIMEZONE",
        ];
        assert(str_texts(v@) =~= zone_block(tzid@).unwrap());
        return Some(v);
    }
    if str_eq(tzid, "Pacific/Honolulu") {
        assert(allowed_names()[6] == tzid@);
        let v = vec![
            "BEGIN:VTIMEZONE",
            "TZID:Pacific/Honolulu",
            "BEGIN:STANDARD",
            "DTSTART:19700101T000000",
            "TZOFFSETFROM:-1000",
            "TZOFFSETTO:-1000",
            "TZNAME:HST",
            "END:STANDARD",
            "END:VTIMEZONE",
        ];
        assert(str_texts(v@) =~= zone_block(tzid@).unwrap());
        return Some(v);
    }
    if str_eq(tzid, "Europe/London") {
        assert(allowed_names()[7] == tzid@);
        let v = vec![
            "BEGIN:VTIMEZONE",
            "TZID:Europe/London",
            "BEGIN:DAYLIGHT",
            "DTSTART:20070325T010000",
            "RRULE:FREQ=YEARLY;BYMONTH=3;BYDAY=-1SU",
            "TZOFFSETFROM:+0000",
            "TZOFFSETTO:+0100",
            "TZNAME:BST",
            "END:DAYLIGHT",
            "BEGIN:STANDARD",
            "DTSTART:20071028T020000",
            "RRULE:FREQ=YEARLY;BYMONTH=10;BYDAY=-1SU",
            "TZOFFSETFROM:+0100",
            "TZOFFSETTO:+0000",
            "TZNAME:GMT",
            "END:STANDARD",
            "END:VTIMEZONE",
        ];
        assert(str_texts(v@) =~= zone_block(tzid@).unwrap());
        return Some(v);
    }
    if str_eq(tzid, "Europe/Paris") {
        assert(allowed_names()[8] == tzid@);
        let v = vec![
            "BEGIN:VTIMEZONE",
            "TZID:Europe/Paris",
            "BEGIN:DAYLIGHT",
            "DTSTART:20070325T020000",
            "RRULE:FREQ=YEARLY;BYMONTH=3;BYDAY=-1SU",
            "TZOFFSETFROM:+0100",
            "TZOFFSETTO:+0200",
            "TZNAME:CEST",
            "END:DAYLIGHT",
            "BEGIN:STANDARD",
            "DTSTART:20071028T030000",
            "RRULE:FREQ=YEARLY;BYMONTH=10;BYDAY=-1SU",
            "TZOFFSETFROM:+0200",
            "TZOFFSETTO:+0100",
            "TZNAME:CET",
            "END:STANDARD",
            "END:VTIMEZONE",
        ];
        assert(str_texts(v@) =~= zone_block(tzid@).unwrap());
        return Some(v);
    }
    if str_eq(tzid, "Asia/Tokyo") {
        assert(allowed_names()[9] == tzid@);
        let v = vec![
            "BEGIN:VTIMEZONE",
            "TZID:Asia/Tokyo",
            "BEGIN:STANDARD",
            "DTSTART:19700101T000000",
            "TZOFFSETFROM:+0900",
            "TZOFFSETTO:+0900",
            "TZNAME:JST",
            "END:STANDARD",
            "END:VTIMEZONE",
        ];
        assert(str_texts(v@) =~= zone_block(tzid@).unwrap());
        return Some(v);
    }
    if str_eq(tzid, "Australia/Sydney") {
        assert(allowed_names()[10] == tzid@);
        let v = vec![
            "BEGIN:VTIMEZONE",
            "TZID:Australia/Sydney",
            "BEGIN:DAYLIGHT",
            "DTSTART:20081005T020000",
            "RRULE:FREQ=YEARLY;BYMONTH=10;BYDAY=1SU",
            "TZOFFSETFROM:+1000",
            "TZOFFSETTO:+1100",
            "TZNAME:AEDT",
            "END:DAYLIGHT",
            "BEGIN:STANDARD",
            "DTSTART:20080406T030000",
            "RRULE:FREQ=YEARLY;BYMONTH=4;BYDAY=1SU",
            "TZOFFSETFROM:+1100",
            "TZOFFSETTO:+1000",
            "TZNAME:AEST",
            "END:STANDARD",
            "END:VTIMEZONE",
        ];
        assert(str_texts(v@) =~= zone_block(tzid@).unwrap());
        return Some(v);
    }
    assert(!allowed_names().contains(tzid@) || tzid@ == "UTC"@) by {
        if allowed_names().contains(tzid@) {
            let k = choose|k: int| 0 <= k < allowed_names().len() && allowed_names()[k] == tzid@;
            assert(k == 0);
        }
    }
    None
}

} // verus!
