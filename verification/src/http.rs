//! HTTP/1.1 requests and responses: reading a request from the bytes a
//! client sends, and the bytes of a response.
//!
//! The socket stays with the program; this module decides what the bytes mean.

use vstd::prelude::*;
use vstd::utf8::*;
use crate::text::{all_digits, ascii_lowercase, chars_of, dec, digits_value, find_char, find_char_exec, is_digit, is_digit_exec, lemma_find_char, lower_seq, owned, parse_digits, push_dec, push_range, str_eq, trim, trimmed};

verus! {

pub const MAX_HEADERS: usize = 65536;

/// Every field is capped at 4000 chars, so a legitimate body is far smaller.
pub const MAX_BODY: usize = 65536;

/// How many bytes one read takes from the client.
pub const READ_CHUNK: usize = 2048;

/// Header names are kept lowercased. A later header with the same name
/// replaces an earlier one, so the headers read as a map.
#[derive(Debug, Clone)]
pub struct Request {
    pub method: String,
    pub path: String,
    pub headers: Vec<(String, String)>,
    pub body: Vec<u8>,
    /// Socket peer address. Empty when not from a socket (tests).
    pub peer: String,
}

/// The headers as a map: the last pair with a name wins.
pub open spec fn header_map(hs: Seq<(String, String)>) -> Map<Seq<char>, Seq<char>>
    decreases hs.len(),
{
    if hs.len() == 0 {
        Map::empty()
    } else {
        header_map(hs.drop_last()).insert(hs.last().0@, hs.last().1@)
    }
}

pub struct RequestView {
    pub method: Seq<char>,
    pub path: Seq<char>,
    pub headers: Map<Seq<char>, Seq<char>>,
    pub body: Seq<u8>,
    pub peer: Seq<char>,
}

impl View for Request {
    type V = RequestView;

    open spec fn view(&self) -> RequestView {
        RequestView {
            method: self.method@,
            path: self.path@,
            headers: header_map(self.headers@),
            body: self.body@,
            peer: self.peer@,
        }
    }
}

/// A header's value, empty when absent.
pub open spec fn header_or_empty(m: Map<Seq<char>, Seq<char>>, key: Seq<char>) -> Seq<char> {
    if m.contains_key(key) {
        m[key]
    } else {
        Seq::empty()
    }
}

/// The last pair named `key`, if any.
fn find_header(hs: &Vec<(String, String)>, key: &str) -> (r: Option<usize>)
    ensures
        match r {
            Some(k) => k < hs@.len() && header_map(hs@).contains_key(key@) && header_map(hs@)[key@]
                == hs@[k as int].1@,
            None => !header_map(hs@).contains_key(key@),
        },
{
    let mut i: usize = hs.len();
    assert(hs@.take(i as int) =~= hs@);
    while i > 0
        invariant
            i <= hs@.len(),
            header_map(hs@).contains_key(key@) == header_map(hs@.take(i as int)).contains_key(key@),
            header_map(hs@.take(i as int)).contains_key(key@) ==> header_map(hs@)[key@] == header_map(
                hs@.take(i as int),
            )[key@],
        decreases i,
    {
        assert(hs@.take(i as int).drop_last() =~= hs@.take(i - 1));
        if str_eq(hs[i - 1].0.as_str(), key) {
            return Some(i - 1);
        }
        i = i - 1;
    }
    assert(hs@.take(0) =~= Seq::<(String, String)>::empty());
    None
}

impl Request {
    pub fn new(method: &str, path: &str) -> (r: Request)
        ensures
            r@.method == method@,
            r@.path == path@,
            r@.headers == Map::<Seq<char>, Seq<char>>::empty(),
            r@.body == Seq::<u8>::empty(),
            r@.peer == Seq::<char>::empty(),
    {
        let r = Request {
            method: owned(method),
            path: owned(path),
            headers: Vec::new(),
            body: Vec::new(),
            peer: String::new(),
        };
        assert(r@.headers =~= Map::<Seq<char>, Seq<char>>::empty());
        r
    }

    pub fn with_peer(self, peer: &str) -> (r: Request)
        ensures
            r@ == (RequestView { peer: peer@, ..self@ }),
    {
        let mut s = self;
        s.peer = owned(peer);
        s
    }

    /// The name is stored lowercased.
    pub fn with_header(self, key: &str, value: &str) -> (r: Request)
        ensures
            r@ == (RequestView { headers: self@.headers.insert(lower_seq(key@), value@), ..self@ }),
    {
        let mut s = self;
        let ghost before = s.headers@;
        s.headers.push((ascii_lowercase(key), owned(value)));
        assert(s.headers@.drop_last() =~= before);
        s
    }

    pub fn with_body(self, body: Vec<u8>) -> (r: Request)
        ensures
            r@ == (RequestView { body: body@, ..self@ }),
    {
        let mut s = self;
        s.body = body;
        s
    }

    /// A header by name, any case; empty when absent.
    pub fn header(&self, key: &str) -> (r: &str)
        ensures
            r@ == header_or_empty(self@.headers, lower_seq(key@)),
    {
        let k = ascii_lowercase(key);
        match find_header(&self.headers, k.as_str()) {
            Some(i) => self.headers[i].1.as_str(),
            None => {
                proof {
                    reveal_strlit("");
                }
                ""
            },
        }
    }
}

#[derive(Debug, Clone)]
pub struct Response {
    pub status: u16,
    pub headers: Vec<(String, String)>,
    pub body: Vec<u8>,
}

pub open spec fn pair_texts(hs: Seq<(String, String)>) -> Seq<(Seq<char>, Seq<char>)> {
    hs.map_values(|p: (String, String)| (p.0@, p.1@))
}

/// The value of the first header whose name matches `key` in any case.
pub open spec fn first_header(hs: Seq<(Seq<char>, Seq<char>)>, key: Seq<char>) -> Option<Seq<char>>
    decreases hs.len(),
{
    if hs.len() == 0 {
        None
    } else if lower_seq(hs[0].0) == lower_seq(key) {
        Some(hs[0].1)
    } else {
        first_header(hs.drop_first(), key)
    }
}

fn same_ignoring_case(a: &str, b: &str) -> (r: bool)
    ensures
        r == (lower_seq(a@) == lower_seq(b@)),
{
    let la = ascii_lowercase(a);
    let lb = ascii_lowercase(b);
    str_eq(la.as_str(), lb.as_str())
}

impl Response {
    pub fn new(status: u16) -> (r: Response)
        ensures
            r.status == status,
            r.headers@.len() == 0,
            r.body@.len() == 0,
    {
        Response { status, headers: Vec::new(), body: Vec::new() }
    }

    /// Adds a header after the ones already set.
    pub fn header(self, key: &str, value: &str) -> (r: Response)
        ensures
            r.status == self.status,
            pair_texts(r.headers@) == pair_texts(self.headers@).push((key@, value@)),
            r.body@ == self.body@,
    {
        let mut s = self;
        s.headers.push((owned(key), owned(value)));
        assert(pair_texts(s.headers@) =~= pair_texts(self.headers@).push((key@, value@)));
        s
    }

    pub fn body(self, body: Vec<u8>) -> (r: Response)
        ensures
            r.status == self.status,
            r.headers@ == self.headers@,
            r.body@ == body@,
    {
        let mut s = self;
        s.body = body;
        s
    }

    /// The first header named `key`, in any case.
    pub fn header_value(&self, key: &str) -> (r: Option<&str>)
        ensures
            match r {
                Some(v) => first_header(pair_texts(self.headers@), key@) == Some(v@),
                None => first_header(pair_texts(self.headers@), key@) is None,
            },
    {
        let ghost all = pair_texts(self.headers@);
        let mut i: usize = 0;
        assert(all.skip(0) =~= all);
        while i < self.headers.len()
            invariant
                i <= self.headers@.len(),
                all == pair_texts(self.headers@),
                first_header(all, key@) == first_header(all.skip(i as int), key@),
            decreases self.headers@.len() - i,
        {
            assert(all.skip(i as int).drop_first() =~= all.skip(i + 1));
            assert(all.skip(i as int)[0] == (self.headers@[i as int].0@, self.headers@[i as int].1@));
            if same_ignoring_case(self.headers[i].0.as_str(), key) {
                return Some(self.headers[i].1.as_str());
            }
            i = i + 1;
        }
        None
    }
}

pub fn text_response(status: u16, ctype: &str, body: Vec<u8>) -> (r: Response)
    ensures
        r.status == status,
        pair_texts(r.headers@) == seq![("content-type"@, ctype@)],
        r.body@ == body@,
{
    let r = Response::new(status).header("content-type", ctype).body(body);
    assert(pair_texts(r.headers@) =~= seq![("content-type"@, ctype@)]);
    r
}

pub fn json_response(status: u16, body: &str) -> (r: Response)
    ensures
        r.status == status,
        pair_texts(r.headers@) == seq![("content-type"@, "application/json; charset=utf-8"@)],
        r.body@ == encode_utf8(body@),
{
    let bytes = body.as_bytes_vec();
    text_response(status, "application/json; charset=utf-8", bytes)
}

pub fn html_response(status: u16, body: String) -> (r: Response)
    ensures
        r.status == status,
        pair_texts(r.headers@) == seq![("content-type"@, "text/html; charset=utf-8"@)],
        r.body@ == encode_utf8(body@),
{
    let bytes = body.as_str().as_bytes_vec();
    text_response(status, "text/html; charset=utf-8", bytes)
}

// ---- reading a request head ---------------------------------------------------------

/// `std::str::from_utf8`: the text of the bytes when they are valid UTF-8.
#[verifier::external_body]
pub(crate) fn utf8_text(bytes: &[u8]) -> (r: Option<&str>)
    ensures
        r is Some <==> valid_utf8(bytes@),
        r matches Some(t) ==> encode_utf8(t@) == bytes@,
{
    std::str::from_utf8(bytes).ok()
}

pub open spec fn crlf_at(t: Seq<char>, k: int) -> bool {
    0 <= k && k + 1 < t.len() && t[k] == '\r' && t[k + 1] == '\n'
}

/// Index of the first `\r\n` in `t`, or `t.len()` when there is none.
pub open spec fn find_crlf(t: Seq<char>) -> int
    decreases t.len(),
{
    if t.len() < 2 {
        t.len() as int
    } else if t[0] == '\r' && t[1] == '\n' {
        0
    } else {
        1 + find_crlf(t.drop_first())
    }
}

pub proof fn lemma_find_crlf(t: Seq<char>)
    ensures
        0 <= find_crlf(t) <= t.len(),
        find_crlf(t) < t.len() ==> crlf_at(t, find_crlf(t)),
        forall|j: int| 0 <= j < find_crlf(t) ==> !crlf_at(t, j),
    decreases t.len(),
{
    if t.len() >= 2 && !(t[0] == '\r' && t[1] == '\n') {
        let u = t.drop_first();
        lemma_find_crlf(u);
        assert forall|j: int| 0 <= j < find_crlf(t) implies !crlf_at(t, j) by {
            if j > 0 {
                assert(!crlf_at(u, j - 1));
            }
        }
        if find_crlf(t) < t.len() {
            assert(crlf_at(u, find_crlf(u)));
        }
    }
}

proof fn lemma_find_crlf_at(t: Seq<char>, k: int)
    requires
        0 <= k <= t.len(),
        forall|j: int| 0 <= j < k ==> !crlf_at(t, j),
        k < t.len() ==> crlf_at(t, k),
        k == t.len() ==> forall|j: int| 0 <= j < t.len() ==> !crlf_at(t, j),
    ensures
        find_crlf(t) == k,
    decreases t.len(),
{
    if t.len() < 2 {
        if k < t.len() {
            assert(crlf_at(t, k));
        }
    } else if t[0] == '\r' && t[1] == '\n' {
        assert(crlf_at(t, 0));
    } else {
        let u = t.drop_first();
        assert(!crlf_at(t, 0));
        if k == 0 {
            assert(crlf_at(t, 0));
        }
        assert forall|j: int| 0 <= j < k - 1 implies !crlf_at(u, j) by {
            assert(!crlf_at(t, j + 1));
        }
        if k - 1 < u.len() {
            assert(crlf_at(u, k - 1)) by {
                assert(crlf_at(t, k));
            }
        }
        if k - 1 == u.len() {
            assert forall|j: int| 0 <= j < u.len() implies !crlf_at(u, j) by {
                assert(!crlf_at(t, j + 1));
            }
        }
        lemma_find_crlf_at(u, k - 1);
    }
}

/// `str::split("\r\n")`.
pub open spec fn crlf_split(t: Seq<char>) -> Seq<Seq<char>>
    decreases t.len(),
{
    let f = find_crlf(t);
    if f >= t.len() || f < 0 {
        seq![t]
    } else {
        proof {
            lemma_find_crlf(t);
        }
        seq![t.take(f)] + crlf_split(t.skip(f + 2))
    }
}

/// Method and path of a start line: its first two space-separated parts,
/// both non-empty.
pub open spec fn start_line(line: Seq<char>) -> Option<(Seq<char>, Seq<char>)> {
    let f = find_char(line, ' ');
    if f >= line.len() {
        None
    } else {
        let method = line.take(f);
        let rest = line.skip(f + 1);
        let path = rest.take(find_char(rest, ' '));
        if method.len() == 0 || path.len() == 0 {
            None
        } else {
            Some((method, path))
        }
    }
}

/// Header lines into the map. A line without `:` is skipped; a second
/// `content-length` makes the head invalid: two lengths is how a request
/// gets read differently by two parsers.
pub open spec fn fold_headers(lines: Seq<Seq<char>>, m: Map<Seq<char>, Seq<char>>) -> Option<
    Map<Seq<char>, Seq<char>>,
>
    decreases lines.len(),
{
    if lines.len() == 0 {
        Some(m)
    } else {
        let line = lines[0];
        let f = find_char(line, ':');
        if line.len() == 0 || f >= line.len() {
            fold_headers(lines.drop_first(), m)
        } else {
            let key = lower_seq(trim(line.take(f)));
            if key == "content-length"@ && m.contains_key(key) {
                None
            } else {
                fold_headers(lines.drop_first(), m.insert(key, trim(line.skip(f + 1))))
            }
        }
    }
}

/// The request a head describes (body still empty), if it is valid: UTF-8, a
/// start line with method and path, and at most one `content-length`.
pub open spec fn parse_head_spec(head: Seq<u8>) -> Option<RequestView> {
    if !valid_utf8(head) {
        None
    } else {
        let lines = crlf_split(decode_utf8(head));
        match start_line(lines[0]) {
            None => None,
            Some((method, path)) => match fold_headers(lines.drop_first(), Map::empty()) {
                None => None,
                Some(m) => Some(
                    RequestView {
                        method,
                        path,
                        headers: m,
                        body: Seq::empty(),
                        peer: Seq::empty(),
                    },
                ),
            },
        }
    }
}

/// First `\r\n` at or after `lo`, or `s.len()`.
fn find_crlf_from(s: &[char], lo: usize) -> (j: usize)
    requires
        lo <= s@.len(),
    ensures
        lo <= j <= s@.len(),
        j - lo == find_crlf(s@.skip(lo as int)),
        j < s@.len() ==> j + 2 <= s@.len(),
{
    let ghost t = s@.skip(lo as int);
    let mut j = lo;
    while s.len() - j >= 2 && !(s[j] == '\r' && s[j + 1] == '\n')
        invariant
            lo <= j <= s@.len(),
            t == s@.skip(lo as int),
            forall|k: int| 0 <= k < j - lo ==> !crlf_at(t, k),
        decreases s@.len() - j,
    {
        assert(!crlf_at(t, j - lo));
        j = j + 1;
    }
    if s.len() - j < 2 {
        proof {
            assert forall|k: int| 0 <= k < t.len() implies !crlf_at(t, k) by {
                if k >= j - lo {
                    assert(k + 1 >= t.len());
                }
            }
            lemma_find_crlf_at(t, t.len() as int);
        }
        return s.len();
    }
    proof {
        assert(crlf_at(t, j - lo));
        lemma_find_crlf_at(t, j - lo);
    }
    j
}

fn text_of(s: &[char], lo: usize, hi: usize) -> (out: String)
    requires
        lo <= hi <= s@.len(),
    ensures
        out@ == s@.subrange(lo as int, hi as int),
{
    let mut out = String::new();
    push_range(&mut out, s, lo, hi);
    out
}

fn parse_start_line(c: &[char], lo: usize, hi: usize) -> (r: Option<(String, String)>)
    requires
        lo <= hi <= c@.len(),
    ensures
        match r {
            Some((m, p)) => start_line(c@.subrange(lo as int, hi as int)) == Some((m@, p@)),
            None => start_line(c@.subrange(lo as int, hi as int)) is None,
        },
{
    let ghost line = c@.subrange(lo as int, hi as int);
    let f = find_char_exec(c, lo, hi, ' ');
    proof {
        lemma_find_char(line, ' ');
    }
    if f == hi {
        return None;
    }
    let g = find_char_exec(c, f + 1, hi, ' ');
    proof {
        assert(line.skip(f - lo + 1) =~= c@.subrange(f + 1, hi as int));
        assert(line.take(f - lo) =~= c@.subrange(lo as int, f as int));
        assert(line.skip(f - lo + 1).take(g - f - 1) =~= c@.subrange(f + 1, g as int));
    }
    if f == lo || g == f + 1 {
        return None;
    }
    Some((text_of(c, lo, f), text_of(c, f + 1, g)))
}

/// The request a head describes, with an empty body.
pub fn parse_head(head: &[u8]) -> (r: Option<Request>)
    ensures
        match r {
            Some(q) => parse_head_spec(head@) == Some(q@),
            None => parse_head_spec(head@) is None,
        },
{
    let text = match utf8_text(head) {
        Some(t) => t,
        None => {
            return None;
        },
    };
    proof {
        encode_utf8_decode_utf8(text@);
    }
    let c = chars_of(text);
    let ghost t = c@;
    assert(t == decode_utf8(head@));
    let e0 = find_crlf_from(c.as_slice(), 0);
    assert(t.skip(0) =~= t);
    let ghost lines = crlf_split(t);
    proof {
        if e0 < c@.len() {
            assert(lines == seq![t.take(e0 as int)] + crlf_split(t.skip(e0 + 2)));
        } else {
            assert(lines == seq![t]);
            assert(t.take(e0 as int) =~= t);
        }
        assert(t.take(e0 as int) =~= c@.subrange(0, e0 as int));
    }
    let (method, path) = match parse_start_line(c.as_slice(), 0, e0) {
        Some(mp) => mp,
        None => {
            return None;
        },
    };
    let mut headers: Vec<(String, String)> = Vec::new();
    let mut more = e0 < c.len();
    let mut pos: usize = if more {
        e0 + 2
    } else {
        c.len()
    };
    proof {
        if more {
            assert(lines.drop_first() =~= crlf_split(t.skip(pos as int)));
        } else {
            assert(lines.drop_first() =~= Seq::<Seq<char>>::empty());
        }
    }
    while more
        invariant
            pos <= c@.len(),
            t == c@,
            t == decode_utf8(head@),
            valid_utf8(head@),
            lines == crlf_split(t),
            lines.len() > 0,
            start_line(lines[0]) == Some((method@, path@)),
            fold_headers(lines.drop_first(), Map::empty()) == (if more {
                fold_headers(crlf_split(t.skip(pos as int)), header_map(headers@))
            } else {
                fold_headers(Seq::empty(), header_map(headers@))
            }),
        decreases c@.len() - pos + (if more {
            1int
        } else {
            0
        }),
    {
        let e = find_crlf_from(c.as_slice(), pos);
        let ghost u = t.skip(pos as int);
        let ghost line = c@.subrange(pos as int, e as int);
        proof {
            assert(u.take(e - pos) =~= line);
            if e < c@.len() {
                assert(u.skip(e - pos + 2) =~= t.skip(e + 2));
                assert(crlf_split(u) == seq![line] + crlf_split(t.skip(e + 2)));
                assert((seq![line] + crlf_split(t.skip(e + 2))).drop_first() =~= crlf_split(t.skip(e + 2)));
            } else {
                assert(u.take(e - pos) =~= u);
                assert(crlf_split(u) == seq![line]);
                assert(seq![line].drop_first() =~= Seq::<Seq<char>>::empty());
            }
        }
        if e > pos {
            let f = find_char_exec(c.as_slice(), pos, e, ':');
            proof {
                lemma_find_char(line, ':');
            }
            if f < e {
                let key = ascii_lowercase(trimmed(text_of(c.as_slice(), pos, f).as_str()).as_str());
                let value = trimmed(text_of(c.as_slice(), f + 1, e).as_str());
                proof {
                    assert(line.take(f - pos) =~= c@.subrange(pos as int, f as int));
                    assert(line.skip(f - pos + 1) =~= c@.subrange(f + 1, e as int));
                }
                if str_eq(key.as_str(), "content-length") {
                    if find_header(&headers, key.as_str()).is_some() {
                        proof {
                            let ls = crlf_split(u);
                            assert(ls.len() > 0 && ls[0] == line);
                            assert(key@ == lower_seq(trim(line.take(f - pos))));
                            assert(fold_headers(ls, header_map(headers@)) is None);
                        }
                        return None;
                    }
                }
                let ghost before = headers@;
                headers.push((key, value));
                assert(headers@.drop_last() =~= before);
            }
        }
        if e < c.len() {
            pos = e + 2;
        } else {
            more = false;
            pos = c.len();
        }
    }
    let r = Request { method, path, headers, body: Vec::new(), peer: String::new() };
    Some(r)
}


// ---- reading a request --------------------------------------------------------------

/// Why a request could not be read.
#[derive(Debug, PartialEq, Eq)]
pub enum ReadError {
    /// The peer is gone or sent nothing usable. There is no one to answer.
    Closed(String),
    /// Answer with this status and message, then close.
    Reject(u16, &'static str),
}

pub enum Failure {
    Closed(Seq<char>),
    Reject(u16, Seq<char>),
}

impl View for ReadError {
    type V = Failure;

    open spec fn view(&self) -> Failure {
        match self {
            ReadError::Closed(m) => Failure::Closed(m@),
            ReadError::Reject(s, m) => Failure::Reject(*s, m@),
        }
    }
}

/// A read that failed: a timeout is answered `408`, anything else drops the
/// connection with the error's message.
pub fn io_error(timed_out: bool, message: String) -> (e: ReadError)
    ensures
        e@ == (if timed_out {
            Failure::Reject(408, "request timeout"@)
        } else {
            Failure::Closed(message@)
        }),
{
    if timed_out {
        ReadError::Reject(408, "request timeout")
    } else {
        ReadError::Closed(message)
    }
}

pub open spec fn crlf2_at(b: Seq<u8>, i: int) -> bool {
    0 <= i && i + 4 <= b.len() && b[i] == 13u8 && b[i + 1] == 10u8 && b[i + 2] == 13u8 && b[i + 3]
        == 10u8
}

pub open spec fn head_end_from(b: Seq<u8>, i: int) -> Option<int>
    decreases b.len() - i,
{
    if i < 0 || i + 4 > b.len() {
        None
    } else if crlf2_at(b, i) {
        Some(i + 4)
    } else {
        head_end_from(b, i + 1)
    }
}

/// Index just past the first blank line (`\r\n\r\n`), if there is one.
pub open spec fn head_end(b: Seq<u8>) -> Option<int> {
    head_end_from(b, 0)
}

fn find_double_crlf(buf: &[u8]) -> (r: Option<usize>)
    ensures
        match r {
            Some(e) => head_end(buf@) == Some(e as int) && 4 <= e <= buf@.len(),
            None => head_end(buf@) is None,
        },
{
    let mut i: usize = 0;
    while i < buf.len() && buf.len() - i >= 4
        invariant
            i <= buf@.len(),
            head_end(buf@) == head_end_from(buf@, i as int),
        decreases buf@.len() - i,
    {
        if buf[i] == 13 && buf[i + 1] == 10 && buf[i + 2] == 13 && buf[i + 3] == 10 {
            return Some(i + 4);
        }
        i = i + 1;
    }
    None
}

/// `content-length`: absent is 0; anything but digits is refused; digits
/// beyond `usize` are a body too large, not a bad header.
pub open spec fn content_length_of(raw: Seq<char>) -> Result<int, Failure> {
    if raw.len() == 0 {
        Ok(0)
    } else if !all_digits(raw) {
        Err(Failure::Reject(400, "bad content-length"@))
    } else if digits_value(raw) > usize::MAX {
        Ok(usize::MAX as int)
    } else {
        Ok(digits_value(raw))
    }
}

fn content_length(req: &Request) -> (r: Result<usize, ReadError>)
    ensures
        match r {
            Ok(n) => content_length_of(header_or_empty(req@.headers, "content-length"@)) == Ok::<int, Failure>(n as int),
            Err(e) => content_length_of(header_or_empty(req@.headers, "content-length"@)) == Err::<int, Failure>(e@),
        },
{
    let raw = req.header("content-length");
    proof {
        reveal_strlit("content-length");
        assert(lower_seq("content-length"@) =~= "content-length"@);
    }
    let c = chars_of(raw);
    if c.len() == 0 {
        return Ok(0);
    }
    let mut i: usize = 0;
    while i < c.len()
        invariant
            i <= c@.len(),
            forall|k: int| 0 <= k < i ==> is_digit(#[trigger] c@[k]),
            c@ == header_or_empty(req@.headers, "content-length"@),
            c@.len() > 0,
        decreases c@.len() - i,
    {
        if !is_digit_exec(c[i]) {
            assert(!is_digit(c@[i as int]));
            return Err(ReadError::Reject(400, "bad content-length"));
        }
        i = i + 1;
    }
    assert(c@.subrange(0, c@.len() as int) =~= c@);
    match parse_digits(c.as_slice(), 0, c.len(), usize::MAX as u64) {
        Some(v) => Ok(v as usize),
        None => Ok(usize::MAX),
    }
}

pub enum Step {
    /// Keep reading.
    More,
    /// Keep reading, and tell the client to send its body: it asked with
    /// `Expect: 100-continue`.
    Continue,
    Done(Request),
    Failed(ReadError),
}

pub enum StepView {
    More,
    Continue,
    Done(RequestView),
    Failed(Failure),
}

impl View for Step {
    type V = StepView;

    open spec fn view(&self) -> StepView {
        match self {
            Step::More => StepView::More,
            Step::Continue => StepView::Continue,
            Step::Done(r) => StepView::Done(r@),
            Step::Failed(e) => StepView::Failed(e@),
        }
    }
}

/// What has been read so far: the head bytes, or, once the head is parsed,
/// the request with the body bytes so far and the length it wants.
pub struct RequestReader {
    pub buf: Vec<u8>,
    pub pending: Option<(Request, usize)>,
}

pub struct ReaderView {
    pub buf: Seq<u8>,
    pub pending: Option<(RequestView, int)>,
}

impl View for RequestReader {
    type V = ReaderView;

    open spec fn view(&self) -> ReaderView {
        ReaderView {
            buf: self.buf@,
            pending: match self.pending {
                Some((r, w)) => Some((r@, w as int)),
                None => None,
            },
        }
    }
}

pub open spec fn with_body_view(r: RequestView, body: Seq<u8>) -> RequestView {
    RequestView { body, ..r }
}

/// Once the head is read: refuse what cannot be served, finish when the
/// body is already there, else wait for it.
pub open spec fn after_head(buf: Seq<u8>, req: RequestView, rest: Seq<u8>) -> (ReaderView, StepView) {
    if req.headers.contains_key("transfer-encoding"@) {
        (
            ReaderView { buf, pending: None },
            StepView::Failed(
                Failure::Reject(411, "chunked bodies are not supported, send content-length"@),
            ),
        )
    } else {
        match content_length_of(header_or_empty(req.headers, "content-length"@)) {
            Err(f) => (ReaderView { buf, pending: None }, StepView::Failed(f)),
            Ok(want) => if want > MAX_BODY {
                (
                    ReaderView { buf, pending: None },
                    StepView::Failed(Failure::Reject(413, "body too large"@)),
                )
            } else if rest.len() >= want {
                (ReaderView { buf, pending: None }, StepView::Done(with_body_view(req, rest.take(want))))
            } else {
                (
                    ReaderView { buf, pending: Some((with_body_view(req, rest), want)) },
                    if lower_seq(header_or_empty(req.headers, "expect"@)) == "100-continue"@ {
                        StepView::Continue
                    } else {
                        StepView::More
                    },
                )
            },
        }
    }
}

/// One read of `chunk`, which is not empty.
pub open spec fn reader_feed(s: ReaderView, chunk: Seq<u8>) -> (ReaderView, StepView) {
    match s.pending {
        Some((req, want)) => {
            let body = req.body + chunk;
            if body.len() > MAX_BODY {
                (
                    ReaderView { buf: s.buf, pending: None },
                    StepView::Failed(Failure::Reject(413, "body too large"@)),
                )
            } else if body.len() >= want {
                (ReaderView { buf: s.buf, pending: None }, StepView::Done(with_body_view(req, body.take(want))))
            } else {
                (ReaderView { buf: s.buf, pending: Some((with_body_view(req, body), want)) }, StepView::More)
            }
        },
        None => {
            let buf = s.buf + chunk;
            match head_end(buf) {
                None => if buf.len() > MAX_HEADERS {
                    (
                        ReaderView { buf, pending: None },
                        StepView::Failed(Failure::Reject(431, "headers too large"@)),
                    )
                } else {
                    (ReaderView { buf, pending: None }, StepView::More)
                },
                Some(end) => if end > MAX_HEADERS {
                    (
                        ReaderView { buf, pending: None },
                        StepView::Failed(Failure::Reject(431, "headers too large"@)),
                    )
                } else {
                    match parse_head_spec(buf.take(end)) {
                        None => (
                            ReaderView { buf, pending: None },
                            StepView::Failed(Failure::Reject(400, "bad request"@)),
                        ),
                        Some(req) => after_head(buf, req, buf.skip(end)),
                    }
                },
            }
        },
    }
}

/// The client closed the connection before the request was whole.
pub open spec fn eof_failure(s: ReaderView) -> Failure {
    match s.pending {
        Some(_) => Failure::Closed("closed mid-body"@),
        None => if s.buf.len() == 0 {
            Failure::Closed("empty request"@)
        } else {
            Failure::Closed("closed mid-headers"@)
        },
    }
}

fn append_bytes(v: &mut Vec<u8>, s: &[u8])
    ensures
        final(v)@ == old(v)@ + s@,
{
    let mut i: usize = 0;
    while i < s.len()
        invariant
            i <= s@.len(),
            v@ == old(v)@ + s@.take(i as int),
        decreases s@.len() - i,
    {
        v.push(s[i]);
        i = i + 1;
        assert(v@ =~= old(v)@ + s@.take(i as int));
    }
    assert(s@.take(i as int) =~= s@);
}

fn bytes_between(s: &[u8], lo: usize, hi: usize) -> (out: Vec<u8>)
    requires
        lo <= hi <= s@.len(),
    ensures
        out@ == s@.subrange(lo as int, hi as int),
{
    let mut out: Vec<u8> = Vec::new();
    let mut i = lo;
    while i < hi
        invariant
            lo <= i <= hi <= s@.len(),
            out@ == s@.subrange(lo as int, i as int),
        decreases hi - i,
    {
        out.push(s[i]);
        i = i + 1;
        assert(out@ =~= s@.subrange(lo as int, i as int));
    }
    out
}

impl RequestReader {
    pub fn new() -> (r: RequestReader)
        ensures
            r@ == (ReaderView { buf: Seq::empty(), pending: None }),
    {
        RequestReader { buf: Vec::new(), pending: None }
    }

    fn finish_head(&mut self, req: Request, end: usize) -> (step: Step)
        requires
            end <= old(self).buf@.len(),
            old(self).pending is None,
        ensures
            (final(self)@, step@) == after_head(old(self).buf@, req@, old(self).buf@.skip(end as int)),
    {
        if find_header(&req.headers, "transfer-encoding").is_some() {
            return Step::Failed(ReadError::Reject(411, "chunked bodies are not supported, send content-length"));
        }
        let want = match content_length(&req) {
            Ok(w) => w,
            Err(e) => {
                return Step::Failed(e);
            },
        };
        if want > MAX_BODY {
            return Step::Failed(ReadError::Reject(413, "body too large"));
        }
        let rest = bytes_between(self.buf.as_slice(), end, self.buf.len());
        assert(rest@ =~= self.buf@.skip(end as int));
        let continue_wanted = same_ignoring_case(req.header("expect"), "100-continue");
        proof {
            reveal_strlit("100-continue");
            reveal_strlit("expect");
            assert(lower_seq("100-continue"@) =~= "100-continue"@);
            assert(lower_seq("expect"@) =~= "expect"@);
        }
        let mut req = req;
        if rest.len() >= want {
            let mut body = rest;
            body.truncate(want);
            req.body = body;
            return Step::Done(req);
        }
        req.body = rest;
        self.pending = Some((req, want));
        if continue_wanted {
            Step::Continue
        } else {
            Step::More
        }
    }

    /// Take in one read of the client's bytes. After `Done` or `Failed` the
    /// reader is spent.
    pub fn feed(&mut self, chunk: &[u8]) -> (step: Step)
        ensures
            (final(self)@, step@) == reader_feed(old(self)@, chunk@),
    {
        match self.pending.take() {
            Some((req, want)) => {
                let mut req = req;
                append_bytes(&mut req.body, chunk);
                if req.body.len() > MAX_BODY {
                    return Step::Failed(ReadError::Reject(413, "body too large"));
                }
                if req.body.len() >= want {
                    req.body.truncate(want);
                    return Step::Done(req);
                }
                self.pending = Some((req, want));
                Step::More
            },
            None => {
                append_bytes(&mut self.buf, chunk);
                match find_double_crlf(self.buf.as_slice()) {
                    None => if self.buf.len() > MAX_HEADERS {
                        Step::Failed(ReadError::Reject(431, "headers too large"))
                    } else {
                        Step::More
                    },
                    Some(end) => if end > MAX_HEADERS {
                        Step::Failed(ReadError::Reject(431, "headers too large"))
                    } else {
                        let head = bytes_between(self.buf.as_slice(), 0, end);
                        assert(head@ =~= self.buf@.take(end as int));
                        match parse_head(head.as_slice()) {
                            None => Step::Failed(ReadError::Reject(400, "bad request")),
                            Some(req) => self.finish_head(req, end),
                        }
                    },
                }
            },
        }
    }

    /// The error when the client closes before the request is whole.
    pub fn closed(&self) -> (e: ReadError)
        ensures
            e@ == eof_failure(self@),
    {
        match &self.pending {
            Some(_) => ReadError::Closed(owned("closed mid-body")),
            None => if self.buf.len() == 0 {
                ReadError::Closed(owned("empty request"))
            } else {
                ReadError::Closed(owned("closed mid-headers"))
            },
        }
    }
}


/// Reading `input` as a socket delivers it, `READ_CHUNK` bytes at a time,
/// then the end of the stream. Also whether the client was told to go ahead.
pub open spec fn read_run(s: ReaderView, input: Seq<u8>, continued: bool) -> (
    Result<RequestView, Failure>,
    bool,
)
    decreases input.len(),
{
    if input.len() == 0 {
        (Err(eof_failure(s)), continued)
    } else {
        let n: int = if input.len() < READ_CHUNK {
            input.len() as int
        } else {
            READ_CHUNK as int
        };
        let (s2, st) = reader_feed(s, input.take(n));
        match st {
            StepView::More => read_run(s2, input.skip(n), continued),
            StepView::Continue => read_run(s2, input.skip(n), true),
            StepView::Done(r) => (Ok(r), continued),
            StepView::Failed(f) => (Err(f), continued),
        }
    }
}

pub open spec fn read_view(r: (Result<Request, ReadError>, bool)) -> (Result<RequestView, Failure>, bool) {
    (
        match r.0 {
            Ok(q) => Ok(q@),
            Err(e) => Err(e@),
        },
        r.1,
    )
}

pub open spec fn fresh_reader() -> ReaderView {
    ReaderView { buf: Seq::empty(), pending: None }
}

/// Read one request from what a client sends. The flag says whether the
/// client was told to go ahead with its body (`Expect: 100-continue`):
/// only when the head came without the whole body.
pub fn read_request_with(input: &[u8]) -> (r: (Result<Request, ReadError>, bool))
    ensures
        read_view(r) == read_run(fresh_reader(), input@, false),
{
    let mut reader = RequestReader::new();
    let mut pos: usize = 0;
    let mut continued = false;
    assert(input@.skip(0) =~= input@);
    loop
        invariant
            pos <= input@.len(),
            read_run(fresh_reader(), input@, false) == read_run(reader@, input@.skip(pos as int), continued),
        decreases input@.len() - pos,
    {
        let ghost rest = input@.skip(pos as int);
        if pos == input.len() {
            return (Err(reader.closed()), continued);
        }
        let n: usize = if input.len() - pos < READ_CHUNK {
            input.len() - pos
        } else {
            READ_CHUNK
        };
        let chunk = bytes_between(input, pos, pos + n);
        assert(chunk@ =~= rest.take(n as int));
        assert(rest.skip(n as int) =~= input@.skip(pos + n));
        let step = reader.feed(chunk.as_slice());
        match step {
            Step::More => {},
            Step::Continue => {
                continued = true;
            },
            Step::Done(req) => {
                return (Ok(req), continued);
            },
            Step::Failed(e) => {
                return (Err(e), continued);
            },
        }
        pos = pos + n;
    }
}

/// `read_request_with`, without the go-ahead flag.
pub fn read_request(input: &[u8]) -> (r: Result<Request, ReadError>)
    ensures
        match r {
            Ok(q) => read_run(fresh_reader(), input@, false).0 == Ok::<RequestView, Failure>(q@),
            Err(e) => read_run(fresh_reader(), input@, false).0 == Err::<RequestView, Failure>(e@),
        },
{
    let (r, _) = read_request_with(input);
    r
}

// ---- writing a response -------------------------------------------------------------

pub open spec fn reason_of(status: u16) -> Seq<char> {
    if status == 200 {
        "OK"@
    } else if status == 201 {
        "Created"@
    } else if status == 204 {
        "No Content"@
    } else if status == 400 {
        "Bad Request"@
    } else if status == 401 {
        "Unauthorized"@
    } else if status == 404 {
        "Not Found"@
    } else if status == 408 {
        "Request Timeout"@
    } else if status == 409 {
        "Conflict"@
    } else if status == 411 {
        "Length Required"@
    } else if status == 413 {
        "Payload Too Large"@
    } else if status == 429 {
        "Too Many Requests"@
    } else if status == 431 {
        "Request Header Fields Too Large"@
    } else if status == 500 {
        "Internal Server Error"@
    } else if status == 503 {
        "Service Unavailable"@
    } else {
        "OK"@
    }
}

pub fn reason(status: u16) -> (r: &'static str)
    ensures
        r@ == reason_of(status),
{
    match status {
        200 => "OK",
        201 => "Created",
        204 => "No Content",
        400 => "Bad Request",
        401 => "Unauthorized",
        404 => "Not Found",
        408 => "Request Timeout",
        409 => "Conflict",
        411 => "Length Required",
        413 => "Payload Too Large",
        429 => "Too Many Requests",
        431 => "Request Header Fields Too Large",
        500 => "Internal Server Error",
        503 => "Service Unavailable",
        _ => "OK",
    }
}

pub open spec fn header_lines(hs: Seq<(Seq<char>, Seq<char>)>) -> Seq<char>
    decreases hs.len(),
{
    if hs.len() == 0 {
        Seq::empty()
    } else {
        header_lines(hs.drop_last()) + hs.last().0 + ": "@ + hs.last().1 + "\r\n"@
    }
}

pub open spec fn sets_length(hs: Seq<(Seq<char>, Seq<char>)>) -> bool {
    exists|k: int| 0 <= k < hs.len() && lower_seq(#[trigger] hs[k].0) == "content-length"@
}

/// The status line and headers of a response, ending in the blank line. A
/// `content-length` is added when the response sets none, and every
/// connection is closed after one response.
pub open spec fn response_head_text(status: u16, hs: Seq<(Seq<char>, Seq<char>)>, body_len: nat) -> Seq<char> {
    "HTTP/1.1 "@ + dec(status as nat) + " "@ + reason_of(status) + "\r\n"@ + header_lines(hs) + (if sets_length(hs) {
        Seq::empty()
    } else {
        "content-length: "@ + dec(body_len) + "\r\n"@
    }) + "connection: close\r\n\r\n"@
}

pub fn response_head(res: &Response) -> (out: String)
    ensures
        out@ == response_head_text(res.status, pair_texts(res.headers@), res.body@.len()),
{
    let ghost hs = pair_texts(res.headers@);
    let mut head = String::new();
    head.push_str("HTTP/1.1 ");
    push_dec(&mut head, res.status as u64);
    head.push_str(" ");
    head.push_str(reason(res.status));
    head.push_str("\r\n");
    let ghost start = head@;
    let mut has_len = false;
    let mut i: usize = 0;
    while i < res.headers.len()
        invariant
            i <= res.headers@.len(),
            hs == pair_texts(res.headers@),
            head@ == start + header_lines(hs.take(i as int)),
            has_len == exists|k: int| 0 <= k < i && lower_seq(#[trigger] hs[k].0) == "content-length"@,
        decreases res.headers@.len() - i,
    {
        let (k, v) = (&res.headers[i].0, &res.headers[i].1);
        if same_ignoring_case(k.as_str(), "content-length") {
            proof {
                reveal_strlit("content-length");
                assert(lower_seq("content-length"@) =~= "content-length"@);
                assert(hs[i as int].0 == k@);
            }
            has_len = true;
        } else {
            proof {
                reveal_strlit("content-length");
                assert(lower_seq("content-length"@) =~= "content-length"@);
                assert(hs[i as int].0 == k@);
            }
        }
        head.push_str(k.as_str());
        head.push_str(": ");
        head.push_str(v.as_str());
        head.push_str("\r\n");
        proof {
            assert(hs.take(i + 1).drop_last() =~= hs.take(i as int));
            assert(hs.take(i + 1).last() == (k@, v@));
        }
        i = i + 1;
        assert(head@ =~= start + header_lines(hs.take(i as int)));
    }
    assert(hs.take(i as int) =~= hs);
    let ghost mid = head@;
    if !has_len {
        head.push_str("content-length: ");
        push_dec(&mut head, res.body.len() as u64);
        head.push_str("\r\n");
    }
    head.push_str("connection: close\r\n\r\n");
    assert(head@ =~= response_head_text(res.status, hs, res.body@.len()));
    head
}


} // verus!
