//! Item seals: the wire format and the checks around the cipher.
//!
//! `alm1.` + base64url(nonce || ciphertext || tag). The server stores the wire
//! string and never sees the write key. The associated data is calendar id,
//! kind, and uid, so a seal cannot be moved to another row. The AES-256-GCM
//! work itself is done by libcrypto, outside this library.

use vstd::prelude::*;
use crate::json::{Json, Value, entry_get, json_entries, json_items, json_of, lemma_json_entries_len, lemma_json_items_len, obj_get};
use vstd::utf8::*;
use crate::sha256::{sha256, sha256_spec};
use crate::db::ostr;
use crate::text::{char_from, chars_of, is_alnum, is_alnum_exec, owned, str_eq, text_eq};

verus! {

pub const NONCE: usize = 12;

pub const TAG: usize = 16;

/// Fits in the 64KB request cap once wrapped as `{"seal":"..."}`.
pub const MAX_WIRE: usize = 60_000;

/// Largest plaintext a seal may carry.
pub const MAX_PLAIN: usize = 49_152;

pub open spec fn is_kind(kind: Seq<char>) -> bool {
    kind == "event"@ || kind == "todo"@ || kind == "note"@
}

pub fn kind_ok(kind: &str) -> (b: bool)
    ensures
        b == is_kind(kind@),
{
    str_eq(kind, "event") || str_eq(kind, "todo") || str_eq(kind, "note")
}

/// The associated data: calendar id, kind and uid, each followed by a zero
/// byte but the last.
pub open spec fn aad_bytes(calendar_id: Seq<char>, kind: Seq<char>, uid: Seq<char>) -> Seq<u8> {
    encode_utf8(calendar_id) + seq![0u8] + encode_utf8(kind) + seq![0u8] + encode_utf8(uid)
}

fn push_bytes(out: &mut Vec<u8>, s: &str)
    ensures
        final(out)@ == old(out)@ + encode_utf8(s@),
{
    let b = s.as_bytes();
    let mut i: usize = 0;
    while i < b.len()
        invariant
            i <= b@.len(),
            b@ == encode_utf8(s@),
            out@ == old(out)@ + b@.take(i as int),
        decreases b@.len() - i,
    {
        out.push(b[i]);
        i = i + 1;
        assert(out@ =~= old(out)@ + b@.take(i as int));
    }
    assert(b@.take(i as int) =~= b@);
}

pub fn aad(calendar_id: &str, kind: &str, uid: &str) -> (out: Vec<u8>)
    ensures
        out@ == aad_bytes(calendar_id@, kind@, uid@),
{
    let mut out: Vec<u8> = Vec::new();
    push_bytes(&mut out, calendar_id);
    out.push(0);
    push_bytes(&mut out, kind);
    out.push(0);
    push_bytes(&mut out, uid);
    assert(out@ =~= aad_bytes(calendar_id@, kind@, uid@));
    out
}

/// Why a plaintext cannot be sealed, checked before any key is touched.
pub open spec fn seal_refusal(kind: Seq<char>, uid: Seq<char>, len: int) -> Option<Seq<char>> {
    if !is_kind(kind) {
        Some("kind must be event, todo, or note"@)
    } else if uid.len() == 0 {
        Some("uid is required"@)
    } else if len > MAX_PLAIN {
        Some("item is too long"@)
    } else {
        None
    }
}

/// The checks `seal` makes on its arguments before it encrypts.
pub fn check_sealable(kind: &str, uid: &str, plaintext: &[u8]) -> (r: Result<(), String>)
    ensures
        match r {
            Ok(()) => seal_refusal(kind@, uid@, plaintext@.len() as int) is None,
            Err(e) => seal_refusal(kind@, uid@, plaintext@.len() as int) == Some(e@),
        },
{
    if !kind_ok(kind) {
        return Err(owned("kind must be event, todo, or note"));
    }
    if uid.is_empty() {
        return Err(owned("uid is required"));
    }
    if plaintext.len() > MAX_PLAIN {
        return Err(owned("item is too long"));
    }
    Ok(())
}

// ---- base64url ---------------------------------------------------------------------

/// The base64url alphabet.
pub open spec fn b64_char(v: int) -> char {
    if v < 26 {
        (v + 65) as char
    } else if v < 52 {
        (v - 26 + 97) as char
    } else if v < 62 {
        (v - 52 + 48) as char
    } else if v == 62 {
        '-'
    } else {
        '_'
    }
}

/// Unpadded base64url: three bytes to four chars; two or one trailing bytes
/// to three or two chars.
pub open spec fn b64_encode(b: Seq<u8>) -> Seq<char>
    decreases b.len(),
{
    if b.len() >= 3 {
        seq![
            b64_char((b[0] as int) / 4),
            b64_char(((b[0] as int) % 4) * 16 + (b[1] as int) / 16),
            b64_char(((b[1] as int) % 16) * 4 + (b[2] as int) / 64),
            b64_char((b[2] as int) % 64),
        ] + b64_encode(b.skip(3))
    } else if b.len() == 2 {
        seq![b64_char((b[0] as int) / 4), b64_char(((b[0] as int) % 4) * 16 + (b[1] as int) / 16), b64_char(((b[1] as int) % 16) * 4)]
    } else if b.len() == 1 {
        seq![b64_char((b[0] as int) / 4), b64_char(((b[0] as int) % 4) * 16)]
    } else {
        Seq::empty()
    }
}

fn b64_char_exec(v: u8) -> (c: char)
    requires
        v < 64,
    ensures
        c == b64_char(v as int),
{
    if v < 26 {
        char_from((v + 65) as u32)
    } else if v < 52 {
        char_from((v - 26 + 97) as u32)
    } else if v < 62 {
        char_from((v - 52 + 48) as u32)
    } else if v == 62 {
        '-'
    } else {
        '_'
    }
}

pub fn base64url(bytes: &[u8]) -> (out: String)
    ensures
        out@ == b64_encode(bytes@),
{
    let mut out = String::new();
    let mut i: usize = 0;
    assert(bytes@.skip(0) =~= bytes@);
    while bytes.len() - i >= 3
        invariant
            i <= bytes@.len(),
            b64_encode(bytes@) == out@ + b64_encode(bytes@.skip(i as int)),
        decreases bytes@.len() - i,
    {
        let b0 = bytes[i];
        let b1 = bytes[i + 1];
        let b2 = bytes[i + 2];
        out.push(b64_char_exec(b0 / 4));
        out.push(b64_char_exec((b0 % 4) * 16 + b1 / 16));
        out.push(b64_char_exec((b1 % 16) * 4 + b2 / 64));
        out.push(b64_char_exec(b2 % 64));
        proof {
            let r = bytes@.skip(i as int);
            assert(r[0] == b0 && r[1] == b1 && r[2] == b2);
            assert(r.skip(3) =~= bytes@.skip(i + 3));
        }
        i = i + 3;
        assert(b64_encode(bytes@) =~= out@ + b64_encode(bytes@.skip(i as int)));
    }
    let ghost r = bytes@.skip(i as int);
    if i < bytes.len() {
        let b0 = bytes[i];
        assert(r[0] == b0);
        if i + 1 < bytes.len() {
            let b1 = bytes[i + 1];
            assert(r[1] == b1);
            out.push(b64_char_exec(b0 / 4));
            out.push(b64_char_exec((b0 % 4) * 16 + b1 / 16));
            out.push(b64_char_exec((b1 % 16) * 4));
        } else {
            out.push(b64_char_exec(b0 / 4));
            out.push(b64_char_exec((b0 % 4) * 16));
        }
    }
    assert(b64_encode(bytes@) =~= out@);
    out
}

/// The value of a char in the decoding alphabet, which also takes `+` and `/`.
pub open spec fn b64_value(c: char) -> Option<int> {
    if 'A' <= c <= 'Z' {
        Some(c as int - 65)
    } else if 'a' <= c <= 'z' {
        Some(c as int - 97 + 26)
    } else if '0' <= c <= '9' {
        Some(c as int - 48 + 52)
    } else if c == '-' || c == '+' {
        Some(62)
    } else if c == '_' || c == '/' {
        Some(63)
    } else {
        None
    }
}

pub open spec fn b64_val(c: char) -> int {
    b64_value(c).unwrap()
}

pub open spec fn all_b64(t: Seq<char>) -> bool {
    forall|k: int| 0 <= k < t.len() ==> #[trigger] b64_value(t[k]) is Some
}

/// `t` without its trailing `=`s.
pub open spec fn strip_padding(t: Seq<char>) -> Seq<char>
    decreases t.len(),
{
    if t.len() > 0 && t.last() == '=' {
        strip_padding(t.drop_last())
    } else {
        t
    }
}

/// The bytes of base64 text with no padding: four chars to three bytes; three
/// or two trailing chars to two or one byte.
pub open spec fn b64_bytes(t: Seq<char>) -> Seq<u8>
    decreases t.len(),
{
    if t.len() >= 4 {
        let (v0, v1, v2, v3) = (b64_val(t[0]), b64_val(t[1]), b64_val(t[2]), b64_val(t[3]));
        seq![(v0 * 4 + v1 / 16) as u8, ((v1 % 16) * 16 + v2 / 4) as u8, ((v2 % 4) * 64 + v3) as u8]
            + b64_bytes(t.skip(4))
    } else if t.len() == 3 {
        let (v0, v1, v2) = (b64_val(t[0]), b64_val(t[1]), b64_val(t[2]));
        seq![(v0 * 4 + v1 / 16) as u8, ((v1 % 16) * 16 + v2 / 4) as u8]
    } else if t.len() == 2 {
        seq![(b64_val(t[0]) * 4 + b64_val(t[1]) / 16) as u8]
    } else {
        Seq::empty()
    }
}

/// Base64 decoding, padding ignored: `None` for a char outside the alphabet or
/// a length that leaves a single char over.
pub open spec fn b64_decode(text: Seq<char>) -> Option<Seq<u8>> {
    let t = strip_padding(text);
    if !all_b64(t) || t.len() % 4 == 1 {
        None
    } else {
        Some(b64_bytes(t))
    }
}

fn b64_value_exec(c: char) -> (r: Option<u8>)
    ensures
        r matches Some(v) ==> b64_value(c) == Some(v as int) && v < 64,
        r is None ==> b64_value(c) is None,
{
    if 'A' <= c && c <= 'Z' {
        Some((c as u32 - 65) as u8)
    } else if 'a' <= c && c <= 'z' {
        Some((c as u32 - 97 + 26) as u8)
    } else if '0' <= c && c <= '9' {
        Some((c as u32 - 48 + 52) as u8)
    } else if c == '-' || c == '+' {
        Some(62)
    } else if c == '_' || c == '/' {
        Some(63)
    } else {
        None
    }
}

proof fn lemma_strip_padding(t: Seq<char>, k: int)
    requires
        0 <= k <= t.len(),
        forall|q: int| k <= q < t.len() ==> t[q] == '=',
        k == 0 || t[k - 1] != '=',
    ensures
        strip_padding(t) == t.take(k),
    decreases t.len(),
{
    if t.len() > k {
        assert forall|q: int| k <= q < t.drop_last().len() implies t.drop_last()[q] == '=' by {
            assert(t.drop_last()[q] == t[q]);
        }
        lemma_strip_padding(t.drop_last(), k);
        assert(t.drop_last().take(k) =~= t.take(k));
    } else {
        assert(t.take(k) =~= t);
    }
}

pub fn base64url_decode(text: &str) -> (r: Result<Vec<u8>, ()>)
    ensures
        match r {
            Ok(b) => b64_decode(text@) == Some(b@),
            Err(()) => b64_decode(text@) is None,
        },
{
    let s = chars_of(text);
    let mut n = s.len();
    while n > 0 && s[n - 1] == '='
        invariant
            n <= s@.len(),
            forall|q: int| n <= q < s@.len() ==> s@[q] == '=',
        decreases n,
    {
        n = n - 1;
    }
    proof {
        lemma_strip_padding(s@, n as int);
    }
    let ghost t = s@.take(n as int);
    let mut out: Vec<u8> = Vec::new();
    let mut i: usize = 0;
    assert(t.skip(0) =~= t);
    while n - i >= 4
        invariant
            i <= n <= s@.len(),
            t == s@.take(n as int),
            strip_padding(text@) == t,
            forall|q: int| 0 <= q < i ==> #[trigger] b64_value(t[q]) is Some,
            all_b64(t.skip(i as int)) ==> b64_bytes(t) == out@ + b64_bytes(t.skip(i as int)),
            (t.len() - i) % 4 == t.len() % 4,
        decreases n - i,
    {
        let v0 = b64_value_exec(s[i]);
        let v1 = b64_value_exec(s[i + 1]);
        let v2 = b64_value_exec(s[i + 2]);
        let v3 = b64_value_exec(s[i + 3]);
        assert(t[i as int] == s@[i as int] && t[i + 1] == s@[i + 1] && t[i + 2] == s@[i + 2] && t[i + 3]
            == s@[i + 3]);
        match (v0, v1, v2, v3) {
            (Some(v0), Some(v1), Some(v2), Some(v3)) => {
                out.push(v0 * 4 + v1 / 16);
                out.push((v1 % 16) * 16 + v2 / 4);
                out.push((v2 % 4) * 64 + v3);
                proof {
                    let r = t.skip(i as int);
                    assert(r.skip(4) =~= t.skip(i + 4));
                    if all_b64(t.skip(i + 4)) {
                        assert forall|q: int| 0 <= q < r.len() implies #[trigger] b64_value(r[q]) is Some by {
                            if q >= 4 {
                                assert(r[q] == t.skip(i + 4)[q - 4]);
                            }
                        }
                    }
                }
                i = i + 4;
            },
            _ => {
                return Err(());
            },
        }
    }
    let rem = n - i;
    if rem == 1 {
        assert(t.len() % 4 == 1);
        return Err(());
    }
    let ghost r = t.skip(i as int);
    if rem >= 2 {
        let v0 = b64_value_exec(s[i]);
        let v1 = b64_value_exec(s[i + 1]);
        assert(r[0] == s@[i as int] && r[1] == s@[i + 1]);
        match (v0, v1) {
            (Some(v0), Some(v1)) => {
                out.push(v0 * 4 + v1 / 16);
                if rem == 3 {
                    assert(r[2] == s@[i + 2]);
                    match b64_value_exec(s[i + 2]) {
                        Some(v2) => {
                            out.push((v1 % 16) * 16 + v2 / 4);
                        },
                        None => {
                            return Err(());
                        },
                    }
                }
            },
            _ => {
                return Err(());
            },
        }
    }
    proof {
        assert forall|q: int| 0 <= q < t.len() implies #[trigger] b64_value(t[q]) is Some by {
            if q >= i {
                assert(t[q] == r[q - i]);
            }
        }
        assert(b64_bytes(t) =~= out@);
    }
    Ok(out)
}

/// Decoding what was encoded gives back the bytes.
pub proof fn lemma_base64url_roundtrip(b: Seq<u8>)
    ensures
        b64_decode(b64_encode(b)) == Some(b),
{
    lemma_encode_shape(b);
    let t = b64_encode(b);
    lemma_strip_padding(t, t.len() as int);
    assert(t.take(t.len() as int) =~= t);
    lemma_decode_encode(b);
}

proof fn lemma_b64_char_value(v: int)
    requires
        0 <= v < 64,
    ensures
        b64_value(b64_char(v)) == Some(v),
        b64_char(v) != '=',
{
}

proof fn lemma_encode_shape(b: Seq<u8>)
    ensures
        all_b64(b64_encode(b)),
        forall|k: int| 0 <= k < b64_encode(b).len() ==> #[trigger] b64_encode(b)[k] != '=',
        b64_encode(b).len() % 4 != 1,
        b64_encode(b).len() == (if b.len() % 3 == 0 {
            b.len() / 3 * 4
        } else {
            b.len() / 3 * 4 + b.len() % 3 + 1
        }),
    decreases b.len(),
{
    let e = b64_encode(b);
    if b.len() >= 3 {
        lemma_encode_shape(b.skip(3));
        let h = seq![
            b64_char((b[0] as int) / 4),
            b64_char(((b[0] as int) % 4) * 16 + (b[1] as int) / 16),
            b64_char(((b[1] as int) % 16) * 4 + (b[2] as int) / 64),
            b64_char((b[2] as int) % 64),
        ];
        lemma_b64_char_value((b[0] as int) / 4);
        lemma_b64_char_value(((b[0] as int) % 4) * 16 + (b[1] as int) / 16);
        lemma_b64_char_value(((b[1] as int) % 16) * 4 + (b[2] as int) / 64);
        lemma_b64_char_value((b[2] as int) % 64);
        assert forall|k: int| 0 <= k < e.len() implies #[trigger] b64_value(e[k]) is Some && e[k] != '=' by {
            if k < 4 {
                assert(e[k] == h[k]);
            } else {
                assert(e[k] == b64_encode(b.skip(3))[k - 4]);
            }
        }
    } else if b.len() == 2 {
        lemma_b64_char_value((b[0] as int) / 4);
        lemma_b64_char_value(((b[0] as int) % 4) * 16 + (b[1] as int) / 16);
        lemma_b64_char_value(((b[1] as int) % 16) * 4);
    } else if b.len() == 1 {
        lemma_b64_char_value((b[0] as int) / 4);
        lemma_b64_char_value(((b[0] as int) % 4) * 16);
    }
}

proof fn lemma_decode_encode(b: Seq<u8>)
    ensures
        b64_bytes(b64_encode(b)) == b,
    decreases b.len(),
{
    let e = b64_encode(b);
    if b.len() >= 3 {
        lemma_decode_encode(b.skip(3));
        lemma_b64_char_value((b[0] as int) / 4);
        lemma_b64_char_value(((b[0] as int) % 4) * 16 + (b[1] as int) / 16);
        lemma_b64_char_value(((b[1] as int) % 16) * 4 + (b[2] as int) / 64);
        lemma_b64_char_value((b[2] as int) % 64);
        lemma_encode_shape(b.skip(3));
        assert(e.skip(4) =~= b64_encode(b.skip(3)));
        let (b0, b1, b2) = (b[0] as int, b[1] as int, b[2] as int);
        assert(b0 / 4 * 4 + ((b0 % 4) * 16 + b1 / 16) / 16 == b0);
        assert(((b0 % 4) * 16 + b1 / 16) % 16 * 16 + ((b1 % 16) * 4 + b2 / 64) / 4 == b1);
        assert(((b1 % 16) * 4 + b2 / 64) % 4 * 64 + b2 % 64 == b2);
        assert(b64_bytes(e) =~= b);
    } else if b.len() == 2 {
        lemma_b64_char_value((b[0] as int) / 4);
        lemma_b64_char_value(((b[0] as int) % 4) * 16 + (b[1] as int) / 16);
        lemma_b64_char_value(((b[1] as int) % 16) * 4);
        let (b0, b1) = (b[0] as int, b[1] as int);
        assert(b0 / 4 * 4 + ((b0 % 4) * 16 + b1 / 16) / 16 == b0);
        assert(((b0 % 4) * 16 + b1 / 16) % 16 * 16 + ((b1 % 16) * 4) / 4 == b1);
        assert(b64_bytes(e) =~= b);
    } else if b.len() == 1 {
        lemma_b64_char_value((b[0] as int) / 4);
        lemma_b64_char_value(((b[0] as int) % 4) * 16);
        let b0 = b[0] as int;
        assert(b0 / 4 * 4 + ((b0 % 4) * 16) / 16 == b0);
        assert(b64_bytes(e) =~= b);
    } else {
        assert(b64_bytes(e) =~= b);
    }
}


// ---- the wire string ---------------------------------------------------------------

pub open spec fn wire_char(c: char) -> bool {
    is_alnum(c) || c == '-' || c == '_' || c == '='
}

/// The packed bytes of a wire string: `alm1.`, then at most `MAX_WIRE` chars
/// of base64url (padding allowed) that hold at least a nonce and a tag.
pub open spec fn wire_bytes(wire: Seq<char>) -> Option<Seq<u8>> {
    let rest = wire.skip(5);
    if wire.len() < 5 || wire.take(5) != "alm1."@ || rest.len() == 0 || wire.len() > MAX_WIRE
        || !(forall|k: int| 0 <= k < rest.len() ==> wire_char(#[trigger] rest[k])) {
        None
    } else {
        match b64_decode(rest) {
            Some(p) => if p.len() < NONCE + TAG {
                None
            } else {
                Some(p)
            },
            None => None,
        }
    }
}

/// The packed bytes of a wire string, or `seal is invalid`.
pub fn decode_wire(wire: &str) -> (r: Result<Vec<u8>, String>)
    ensures
        match r {
            Ok(p) => wire_bytes(wire@) == Some(p@),
            Err(e) => wire_bytes(wire@) is None && e@ == "seal is invalid"@,
        },
{
    let w = chars_of(wire);
    proof {
        reveal_strlit("alm1.");
    }
    if w.len() < 5 || !text_eq(w.as_slice(), 0, 5, "alm1.") || w.len() == 5 || w.len() > MAX_WIRE {
        proof {
            if w.len() >= 5 {
                assert(w@.subrange(0, 5) =~= w@.take(5));
            }
        }
        return Err(owned("seal is invalid"));
    }
    assert(w@.subrange(0, 5) =~= w@.take(5));
    let ghost rest = w@.skip(5);
    let mut k: usize = 5;
    let mut text = String::new();
    while k < w.len()
        invariant
            5 <= k <= w@.len(),
            w@ == wire@,
            w@.len() > 5,
            w@.len() <= MAX_WIRE,
            w@.take(5) == "alm1."@,
            rest == w@.skip(5),
            forall|q: int| 0 <= q < k - 5 ==> wire_char(#[trigger] rest[q]),
            text@ == rest.take(k - 5),
        decreases w@.len() - k,
    {
        let c = w[k];
        assert(rest[k - 5] == c);
        if !(is_alnum_exec(c) || c == '-' || c == '_' || c == '=') {
            return Err(owned("seal is invalid"));
        }
        text.push(c);
        k = k + 1;
        assert(text@ =~= rest.take(k - 5));
    }
    assert(rest.take(k - 5) =~= rest);
    match base64url_decode(text.as_str()) {
        Ok(p) => {
            if p.len() < NONCE + TAG {
                return Err(owned("seal is invalid"));
            }
            Ok(p)
        },
        Err(()) => Err(owned("seal is invalid")),
    }
}

pub fn validate_wire(wire: &str) -> (r: Result<(), String>)
    ensures
        r is Ok <==> wire_bytes(wire@) is Some,
        r matches Err(e) ==> e@ == "seal is invalid"@,
{
    match decode_wire(wire) {
        Ok(_) => Ok(()),
        Err(e) => Err(e),
    }
}

/// The wire string of a sealed item, from the cipher's nonce, ciphertext and tag.
pub open spec fn wire_text(packed: Seq<u8>) -> Seq<char> {
    "alm1."@ + b64_encode(packed)
}

proof fn lemma_encode_wire_chars(b: Seq<u8>)
    ensures
        forall|k: int| 0 <= k < b64_encode(b).len() ==> wire_char(#[trigger] b64_encode(b)[k]),
    decreases b.len(),
{
    let e = b64_encode(b);
    if b.len() >= 3 {
        lemma_encode_wire_chars(b.skip(3));
        assert forall|k: int| 0 <= k < e.len() implies wire_char(#[trigger] e[k]) by {
            if k >= 4 {
                assert(e[k] == b64_encode(b.skip(3))[k - 4]);
            }
        }
    }
}

/// A wire string read back gives the bytes that were packed into it: what
/// one side seals, the other can open, as long as the wire fits.
pub proof fn lemma_wire_roundtrip(packed: Seq<u8>)
    requires
        packed.len() >= NONCE + TAG,
        wire_text(packed).len() <= MAX_WIRE,
    ensures
        wire_bytes(wire_text(packed)) == Some(packed),
{
    reveal_strlit("alm1.");
    let w = wire_text(packed);
    assert(w.take(5) =~= "alm1."@);
    assert(w.skip(5) =~= b64_encode(packed));
    lemma_encode_wire_chars(packed);
    lemma_encode_shape(packed);
    lemma_base64url_roundtrip(packed);
}

/// Pack what the cipher produced into the wire string; one longer than
/// `MAX_WIRE` is refused.
pub fn pack_wire(nonce: &[u8], ciphertext: &[u8], tag: &[u8]) -> (r: Result<String, String>)
    ensures
        match r {
            Ok(w) => w@ == wire_text(nonce@ + ciphertext@ + tag@) && w@.len() <= MAX_WIRE,
            Err(e) => wire_text(nonce@ + ciphertext@ + tag@).len() > MAX_WIRE && e@
                == "seal is too long"@,
        },
{
    let mut packed: Vec<u8> = Vec::new();
    let mut i: usize = 0;
    while i < nonce.len()
        invariant
            i <= nonce@.len(),
            packed@ == nonce@.take(i as int),
        decreases nonce@.len() - i,
    {
        packed.push(nonce[i]);
        i = i + 1;
        assert(packed@ =~= nonce@.take(i as int));
    }
    assert(nonce@.take(i as int) =~= nonce@);
    let mut i: usize = 0;
    while i < ciphertext.len()
        invariant
            i <= ciphertext@.len(),
            packed@ == nonce@ + ciphertext@.take(i as int),
        decreases ciphertext@.len() - i,
    {
        packed.push(ciphertext[i]);
        i = i + 1;
        assert(packed@ =~= nonce@ + ciphertext@.take(i as int));
    }
    assert(ciphertext@.take(i as int) =~= ciphertext@);
    let mut i: usize = 0;
    while i < tag.len()
        invariant
            i <= tag@.len(),
            packed@ == nonce@ + ciphertext@ + tag@.take(i as int),
        decreases tag@.len() - i,
    {
        packed.push(tag[i]);
        i = i + 1;
        assert(packed@ =~= nonce@ + ciphertext@ + tag@.take(i as int));
    }
    assert(tag@.take(i as int) =~= tag@);
    let mut wire = owned("alm1.");
    wire.push_str(base64url(packed.as_slice()).as_str());
    if wire.as_str().unicode_len() > MAX_WIRE {
        return Err(owned("seal is too long"));
    }
    Ok(wire)
}

/// The nonce, ciphertext and tag a wire string carries, for `open` to decrypt.
pub fn unpack_wire(kind: &str, wire: &str) -> (r: Result<(Vec<u8>, Vec<u8>, Vec<u8>), String>)
    ensures
        match r {
            Ok((n, c, t)) => is_kind(kind@) && wire_bytes(wire@) == Some(n@ + c@ + t@) && n@.len()
                == NONCE && t@.len() == TAG,
            Err(e) => (!is_kind(kind@) && e@ == "kind must be event, todo, or note"@) || (is_kind(
                kind@,
            ) && wire_bytes(wire@) is None && e@ == "seal is invalid"@),
        },
{
    if !kind_ok(kind) {
        return Err(owned("kind must be event, todo, or note"));
    }
    let packed = decode_wire(wire)?;
    let mut nonce: Vec<u8> = Vec::new();
    let mut ciphertext: Vec<u8> = Vec::new();
    let mut tag: Vec<u8> = Vec::new();
    let cut = packed.len() - TAG;
    let mut i: usize = 0;
    while i < packed.len()
        invariant
            i <= packed@.len(),
            packed@.len() >= NONCE + TAG,
            cut == packed@.len() - TAG,
            nonce@ == packed@.take(if i < NONCE { i as int } else { NONCE as int }),
            ciphertext@ == (if i <= NONCE {
                Seq::<u8>::empty()
            } else if i <= cut {
                packed@.subrange(NONCE as int, i as int)
            } else {
                packed@.subrange(NONCE as int, cut as int)
            }),
            tag@ == (if i <= cut {
                Seq::<u8>::empty()
            } else {
                packed@.subrange(cut as int, i as int)
            }),
        decreases packed@.len() - i,
    {
        if i < NONCE {
            nonce.push(packed[i]);
        } else if i < cut {
            ciphertext.push(packed[i]);
        } else {
            tag.push(packed[i]);
        }
        i = i + 1;
        assert(nonce@ =~= packed@.take(if i < NONCE { i as int } else { NONCE as int }));
        assert(ciphertext@ =~= (if i <= NONCE {
            Seq::<u8>::empty()
        } else if i <= cut {
            packed@.subrange(NONCE as int, i as int)
        } else {
            packed@.subrange(NONCE as int, cut as int)
        }));
        assert(tag@ =~= (if i <= cut {
            Seq::<u8>::empty()
        } else {
            packed@.subrange(cut as int, i as int)
        }));
    }
    assert(nonce@ + ciphertext@ + tag@ =~= packed@);
    Ok((nonce, ciphertext, tag))
}

/// `Some(seal)` when the body is a seal write. `None` when it is a field write.
/// A sealed calendar rejects a field write. A seal body may also carry `uid`.
pub open spec fn classify_body(body: Json, feed_mode: Seq<char>) -> Result<Option<Seq<char>>, Seq<char>> {
    match body {
        Json::Obj(m) => match obj_get(m, "seal"@) {
            Some(v) => if exists|k: int| 0 <= k < m.len() && #[trigger] m[k].0 != "seal"@ && m[k].0 != "uid"@ {
                Err("seal replaces the item"@)
            } else {
                match v {
                    Json::Str(w) => if wire_bytes(w) is Some {
                        Ok(Some(w))
                    } else {
                        Err("seal is invalid"@)
                    },
                    _ => Err("seal must be a string"@),
                }
            },
            None => if feed_mode == "seal"@ {
                Err("calendar is sealed"@)
            } else {
                Ok(None)
            },
        },
        _ => Err("body must be an object"@),
    }
}

pub fn classify(body: &Value, feed_mode: &str) -> (r: Result<Option<String>, String>)
    ensures
        classify_body(body@, feed_mode@) == match r {
            Ok(Some(w)) => Ok(Some(w@)),
            Ok(None) => Ok(None),
            Err(e) => Err::<Option<Seq<char>>, Seq<char>>(e@),
        },
{
    let obj = match body.as_object() {
        Some(o) => o,
        None => {
            return Err(owned("body must be an object"));
        },
    };
    let ghost m = json_entries(obj@);
    match entry_get(obj, "seal") {
        Some(v) => {
            proof {
                lemma_json_entries_len(obj@);
            }
            let mut i: usize = 0;
            while i < obj.len()
                invariant
                    i <= obj@.len(),
                    m == json_entries(obj@),
                    body@ == Json::Obj(m),
                    obj_get(m, "seal"@) is Some,
                    m.len() == obj@.len(),
                    forall|q: int| 0 <= q < obj@.len() ==> #[trigger] m[q] == (obj@[q].0@, json_of(obj@[q].1)),
                    forall|q: int| 0 <= q < i ==> (#[trigger] m[q]).0 == "seal"@ || m[q].0 == "uid"@,
                decreases obj@.len() - i,
            {
                let k = obj[i].0.as_str();
                if !str_eq(k, "seal") && !str_eq(k, "uid") {
                    assert(m[i as int].0 != "seal"@ && m[i as int].0 != "uid"@);
                    return Err(owned("seal replaces the item"));
                }
                i = i + 1;
            }
            let wire = match v.as_str() {
                Some(w) => w,
                None => {
                    return Err(owned("seal must be a string"));
                },
            };
            validate_wire(wire)?;
            Ok(Some(owned(wire)))
        },
        None => {
            if str_eq(feed_mode, "seal") {
                Err(owned("calendar is sealed"))
            } else {
                Ok(None)
            }
        },
    }
}

/// A calendar's feed mode: `seal` stores ciphertext, `plain` is the readable feed.
pub fn feed_mode(value: &str) -> (r: Result<&'static str, String>)
    ensures
        match r {
            Ok(m) => (value@ == "seal"@ || value@ == "plain"@) && m@ == value@,
            Err(e) => value@ != "seal"@ && value@ != "plain"@ && e@ == "feed must be seal or plain"@,
        },
{
    if str_eq(value, "seal") {
        Ok("seal")
    } else if str_eq(value, "plain") {
        Ok("plain")
    } else {
        Err(owned("feed must be seal or plain"))
    }
}

// ---- the command line ---------------------------------------------------------------

pub open spec fn usage_message() -> Seq<char> {
    "usage: almanac seal|open --cal ID --kind event|todo|note --uid UID"@
}

pub open spec fn unreadable_key() -> Seq<char> {
    "could not read the calendar key"@
}

/// `--cal`, `--kind` and `--uid` of `almanac seal|open`, read in pairs; the
/// last of a repeated flag wins.
pub open spec fn flag_values(
    args: Seq<Seq<char>>,
    cal: Option<Seq<char>>,
    kind: Option<Seq<char>>,
    uid: Option<Seq<char>>,
) -> Result<(Option<Seq<char>>, Option<Seq<char>>, Option<Seq<char>>), Seq<char>>
    decreases args.len(),
{
    if args.len() == 0 {
        Ok((cal, kind, uid))
    } else if args.len() == 1 {
        Err("missing value for "@ + args[0])
    } else {
        let flag = args[0];
        let value = args[1];
        if flag == "--cal"@ {
            flag_values(args.skip(2), Some(value), kind, uid)
        } else if flag == "--kind"@ {
            flag_values(args.skip(2), cal, Some(value), uid)
        } else if flag == "--uid"@ {
            flag_values(args.skip(2), cal, kind, Some(value))
        } else {
            Err(usage_message())
        }
    }
}

/// The calendar (if named), kind and uid the command acts on.
pub open spec fn seal_args_of(args: Seq<Seq<char>>) -> Result<(Option<Seq<char>>, Seq<char>, Seq<char>), Seq<char>> {
    match flag_values(args, None, None, None) {
        Err(e) => Err(e),
        Ok((cal, kind, uid)) => match kind {
            None => Err("kind is required"@),
            Some(k) => match uid {
                None => Err("uid is required"@),
                Some(u) => Ok((cal, k, u)),
            },
        },
    }
}

pub fn seal_args(args: &[String]) -> (r: Result<(Option<String>, String, String), String>)
    ensures
        match r {
            Ok((c, k, u)) => seal_args_of(args@.map_values(|a: String| a@)) == Ok::<
                (Option<Seq<char>>, Seq<char>, Seq<char>),
                Seq<char>,
            >((ostr(c), k@, u@)),
            Err(e) => seal_args_of(args@.map_values(|a: String| a@)) == Err::<
                (Option<Seq<char>>, Seq<char>, Seq<char>),
                Seq<char>,
            >(e@),
        },
{
    let ghost all = args@.map_values(|a: String| a@);
    let mut cal: Option<String> = None;
    let mut kind: Option<String> = None;
    let mut uid: Option<String> = None;
    let mut i: usize = 0;
    assert(all.skip(0) =~= all);
    while i < args.len()
        invariant
            i <= args@.len(),
            all == args@.map_values(|a: String| a@),
            flag_values(all, None, None, None) == flag_values(all.skip(i as int), ostr(cal), ostr(kind), ostr(uid)),
        decreases args@.len() - i,
    {
        let ghost rest = all.skip(i as int);
        assert(rest[0] == args@[i as int]@);
        let flag = args[i].as_str();
        if args.len() - i < 2 {
            assert(rest.len() == 1);
            let mut m = owned("missing value for ");
            m.push_str(flag);
            return Err(m);
        }
        assert(rest[1] == args@[i + 1]@);
        assert(rest.skip(2) =~= all.skip(i + 2));
        let value = args[i + 1].clone();
        if str_eq(flag, "--cal") {
            cal = Some(value);
        } else if str_eq(flag, "--kind") {
            kind = Some(value);
        } else if str_eq(flag, "--uid") {
            uid = Some(value);
        } else {
            return Err(owned("usage: almanac seal|open --cal ID --kind event|todo|note --uid UID"));
        }
        i = i + 2;
    }
    assert(all.skip(i as int) =~= Seq::<Seq<char>>::empty());
    let kind = match kind {
        Some(k) => k,
        None => {
            return Err(owned("kind is required"));
        },
    };
    let uid = match uid {
        Some(u) => u,
        None => {
            return Err(owned("uid is required"));
        },
    };
    Ok((cal, kind, uid))
}

/// A non-empty string member of a JSON object.
pub open spec fn text_member(v: Json, key: Seq<char>) -> Option<Seq<char>> {
    match v {
        Json::Obj(m) => match obj_get(m, key) {
            Some(Json::Str(s)) => if s.len() > 0 {
                Some(s)
            } else {
                None
            },
            _ => None,
        },
        _ => None,
    }
}

/// One credentials entry: its id (the wanted one, when a calendar is named)
/// and its key.
pub open spec fn row_key(row: Json, want: Option<Seq<char>>) -> Result<(Seq<char>, Seq<char>), Seq<char>> {
    match text_member(row, "id"@) {
        None => Err(unreadable_key()),
        Some(id) => if want matches Some(w) && id != w {
            Err(unreadable_key())
        } else {
            match text_member(row, "key"@) {
                None => Err(unreadable_key()),
                Some(k) => Ok((id, k)),
            }
        },
    }
}

/// The first row whose `id` is the string `want`.
pub open spec fn wanted_row(rows: Seq<Json>, want: Seq<char>) -> Option<Json>
    decreases rows.len(),
{
    if rows.len() == 0 {
        None
    } else if rows[0] matches Json::Obj(m) && obj_get(m, "id"@) == Some(Json::Str(want)) {
        Some(rows[0])
    } else {
        wanted_row(rows.drop_first(), want)
    }
}

/// The calendar id and write key from the credentials file: a single entry,
/// or a list of them, where the wanted calendar (or else the first) is used.
pub open spec fn credentials_of(file: Json, want: Option<Seq<char>>) -> Result<(Seq<char>, Seq<char>), Seq<char>> {
    match file {
        Json::Obj(_) => row_key(file, want),
        Json::Arr(rows) => if rows.len() == 0 {
            Err(unreadable_key())
        } else {
            match want {
                Some(w) => match wanted_row(rows, w) {
                    Some(r) => row_key(r, Some(w)),
                    None => Err(unreadable_key()),
                },
                None => row_key(rows[0], None),
            }
        },
        _ => Err(unreadable_key()),
    }
}

fn text_member_of(v: &Value, key: &str) -> (r: Option<String>)
    ensures
        ostr(r) == text_member(v@, key@),
{
    match v.get(key) {
        Some(x) => match x.as_str() {
            Some(s) => if s.is_empty() {
                None
            } else {
                Some(owned(s))
            },
            None => None,
        },
        None => None,
    }
}

fn one_row(row: &Value, want: Option<&str>) -> (r: Result<(String, String), String>)
    ensures
        match r {
            Ok((i, k)) => row_key(row@, match want {
                Some(w) => Some(w@),
                None => None,
            }) == Ok::<(Seq<char>, Seq<char>), Seq<char>>((i@, k@)),
            Err(e) => row_key(row@, match want {
                Some(w) => Some(w@),
                None => None,
            }) == Err::<(Seq<char>, Seq<char>), Seq<char>>(e@),
        },
{
    let id = match text_member_of(row, "id") {
        Some(i) => i,
        None => {
            return Err(owned("could not read the calendar key"));
        },
    };
    if let Some(w) = want {
        if !str_eq(id.as_str(), w) {
            return Err(owned("could not read the calendar key"));
        }
    }
    match text_member_of(row, "key") {
        Some(k) => Ok((id, k)),
        None => Err(owned("could not read the calendar key")),
    }
}

pub fn credentials_key(file: &Value, want: Option<&str>) -> (r: Result<(String, String), String>)
    ensures
        match r {
            Ok((i, k)) => credentials_of(file@, match want {
                Some(w) => Some(w@),
                None => None,
            }) == Ok::<(Seq<char>, Seq<char>), Seq<char>>((i@, k@)),
            Err(e) => credentials_of(file@, match want {
                Some(w) => Some(w@),
                None => None,
            }) == Err::<(Seq<char>, Seq<char>), Seq<char>>(e@),
        },
{
    let rows = match file {
        Value::Array(rows) => rows,
        Value::Object(_) => {
            return one_row(file, want);
        },
        _ => {
            return Err(owned("could not read the calendar key"));
        },
    };
    let ghost js = json_items(rows@);
    proof {
        lemma_json_items_len(rows@);
    }
    if rows.len() == 0 {
        return Err(owned("could not read the calendar key"));
    }
    match want {
        Some(w) => {
            let mut i: usize = 0;
            assert(js.skip(0) =~= js);
            while i < rows.len()
                invariant
                    i <= rows@.len(),
                    js == json_items(rows@),
                    js.len() == rows@.len(),
                    forall|k: int| 0 <= k < rows@.len() ==> #[trigger] js[k] == json_of(rows@[k]),
                    wanted_row(js, w@) == wanted_row(js.skip(i as int), w@),
                    file@ == Json::Arr(js),
                    js.len() > 0,
                    want == Some(w),
                decreases rows@.len() - i,
            {
                assert(js.skip(i as int).drop_first() =~= js.skip(i + 1));
                assert(js.skip(i as int)[0] == rows@[i as int]@);
                let hit = match rows[i].get("id") {
                    Some(x) => match x.as_str() {
                        Some(s) => str_eq(s, w),
                        None => false,
                    },
                    None => false,
                };
                if hit {
                    assert(wanted_row(js.skip(i as int), w@) == Some(rows@[i as int]@));
                    return one_row(&rows[i], Some(w));
                }
                i = i + 1;
            }
            assert(js.skip(i as int) =~= Seq::<Json>::empty());
            Err(owned("could not read the calendar key"))
        },
        None => {
            assert(js[0] == rows@[0]@);
            one_row(&rows[0], None)
        },
    }
}

/// The seal key of a calendar: the SHA-256 of its write key followed by a
/// domain label, so it is never the hash stored for authentication.
pub open spec fn seal_key(write_key: Seq<char>) -> Seq<u8> {
    sha256_spec(encode_utf8(write_key) + encode_utf8("almanac-seal-v1"@))
}

pub fn derive_key(write_key: &str) -> (k: Vec<u8>)
    ensures
        k@ == seal_key(write_key@),
        k@.len() == 32,
{
    let mut msg: Vec<u8> = Vec::new();
    push_bytes(&mut msg, write_key);
    push_bytes(&mut msg, "almanac-seal-v1");
    assert(msg@ =~= encode_utf8(write_key@) + encode_utf8("almanac-seal-v1"@));
    sha256(msg.as_slice())
}

} // verus!
