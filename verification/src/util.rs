//! Identifiers and secrets, built from random bytes the caller supplies.

use vstd::prelude::*;
use crate::text::{char_from, owned};

verus! {

/// Milliseconds since the Unix epoch by the system clock (`SystemTime::now`).
/// Nothing is promised of the value: it is whatever the clock reads, and 0
/// when the clock is set before 1970.
#[verifier::external_body]
pub fn unix_millis() -> (ms: i64) {
    match std::time::SystemTime::now().duration_since(std::time::UNIX_EPOCH) {
        Ok(d) => d.as_millis() as i64,
        Err(_) => 0,
    }
}

pub open spec fn hex_digit_char(d: int) -> char {
    if d < 10 {
        (d + 48) as char
    } else {
        (d + 87) as char
    }
}

/// Two lowercase hex digits per byte.
pub open spec fn hex_text(bytes: Seq<u8>) -> Seq<char>
    decreases bytes.len(),
{
    if bytes.len() == 0 {
        Seq::empty()
    } else {
        hex_text(bytes.drop_last()) + seq![
            hex_digit_char(bytes.last() as int / 16),
            hex_digit_char(bytes.last() as int % 16),
        ]
    }
}

fn hex_digit(d: u8) -> (c: char)
    requires
        d < 16,
    ensures
        c == hex_digit_char(d as int),
{
    if d < 10 {
        char_from((d + 48) as u32)
    } else {
        char_from((d + 87) as u32)
    }
}

pub fn hex_encode(bytes: &[u8]) -> (out: String)
    ensures
        out@ == hex_text(bytes@),
{
    let mut out = String::new();
    let mut i: usize = 0;
    while i < bytes.len()
        invariant
            i <= bytes@.len(),
            out@ == hex_text(bytes@.take(i as int)),
        decreases bytes@.len() - i,
    {
        let b = bytes[i];
        out.push(hex_digit(b / 16));
        out.push(hex_digit(b % 16));
        proof {
            assert(bytes@.take(i + 1).drop_last() =~= bytes@.take(i as int));
        }
        i = i + 1;
        assert(out@ =~= hex_text(bytes@.take(i as int)));
    }
    assert(bytes@.take(i as int) =~= bytes@);
    out
}

/// A secret: the hex of random bytes (24 of them, for a key).
pub fn secret(random: &[u8]) -> (out: String)
    ensures
        out@ == hex_text(random@),
{
    hex_encode(random)
}

/// The 16 bytes of a version 4, variant 1 UUID made from random bytes.
pub open spec fn uuid_v4_bytes(b: Seq<u8>) -> Seq<u8> {
    b.update(6, ((b[6] & 0x0f) | 0x40) as u8).update(8, ((b[8] & 0x3f) | 0x80) as u8)
}

/// `<prefix>-xxxxxxxx-xxxx-4xxx-yxxx-xxxxxxxxxxxx`.
pub open spec fn uuid_text(prefix: Seq<char>, random: Seq<u8>) -> Seq<char> {
    let u = uuid_v4_bytes(random);
    prefix + seq!['-'] + hex_text(u.subrange(0, 4)) + seq!['-'] + hex_text(u.subrange(4, 6)) + seq![
        '-',
    ] + hex_text(u.subrange(6, 8)) + seq!['-'] + hex_text(u.subrange(8, 10)) + seq!['-']
        + hex_text(u.subrange(10, 16))
}

/// `<prefix>-` and a UUID v4 made from 16 random bytes.
pub fn prefixed_uid(prefix: &str, random: &[u8]) -> (out: String)
    requires
        random@.len() == 16,
    ensures
        out@ == uuid_text(prefix@, random@),
{
    let mut b: Vec<u8> = Vec::new();
    let mut i: usize = 0;
    while i < 16
        invariant
            i <= 16,
            random@.len() == 16,
            b@ == random@.take(i as int),
        decreases 16 - i,
    {
        b.push(random[i]);
        i = i + 1;
        assert(b@ =~= random@.take(i as int));
    }
    assert(b@ =~= random@);
    let b6 = (b[6] & 0x0f) | 0x40;
    b.set(6, b6);
    let b8 = (b[8] & 0x3f) | 0x80;
    b.set(8, b8);
    assert(b@ =~= uuid_v4_bytes(random@));
    let mut out = owned(prefix);
    out.push('-');
    push_hex(&mut out, b.as_slice(), 0, 4);
    out.push('-');
    push_hex(&mut out, b.as_slice(), 4, 6);
    out.push('-');
    push_hex(&mut out, b.as_slice(), 6, 8);
    out.push('-');
    push_hex(&mut out, b.as_slice(), 8, 10);
    out.push('-');
    push_hex(&mut out, b.as_slice(), 10, 16);
    assert(out@ =~= uuid_text(prefix@, random@));
    out
}

fn push_hex(out: &mut String, b: &[u8], lo: usize, hi: usize)
    requires
        lo <= hi <= b@.len(),
    ensures
        final(out)@ == old(out)@ + hex_text(b@.subrange(lo as int, hi as int)),
{
    let mut i = lo;
    while i < hi
        invariant
            lo <= i <= hi <= b@.len(),
            out@ == old(out)@ + hex_text(b@.subrange(lo as int, i as int)),
        decreases hi - i,
    {
        let x = b[i];
        out.push(hex_digit(x / 16));
        out.push(hex_digit(x % 16));
        proof {
            assert(b@.subrange(lo as int, i + 1).drop_last() =~= b@.subrange(lo as int, i as int));
        }
        i = i + 1;
        assert(out@ =~= old(out)@ + hex_text(b@.subrange(lo as int, i as int)));
    }
}

/// `evt-` and a UUID v4 made from 16 random bytes.
pub fn event_uid(random: &[u8]) -> (out: String)
    requires
        random@.len() == 16,
    ensures
        out@ == uuid_text("evt"@, random@),
{
    prefixed_uid("evt", random)
}

} // verus!
