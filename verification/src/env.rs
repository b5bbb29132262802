//! Runtime configuration from the environment, and the `.env` file format.
//!
//! The environment is handed in as `(name, value)` pairs, one per name.

use vstd::prelude::*;
use crate::text::{chars_of, dec, find_char, find_char_exec, is_digit, is_upper, lemma_find_char, owned, parse_u32_at, push_dec, push_range, str_eq, trim, trim_bounds, trimmed, unsigned_text_value, upper};

verus! {

/// The value of `name` in the environment, if it is set.
pub open spec fn env_get(env: Seq<(Seq<char>, Seq<char>)>, name: Seq<char>) -> Option<Seq<char>>
    decreases env.len(),
{
    if env.len() == 0 {
        None
    } else if env[0].0 == name {
        Some(env[0].1)
    } else {
        env_get(env.drop_first(), name)
    }
}

pub open spec fn env_view(env: Seq<(String, String)>) -> Seq<(Seq<char>, Seq<char>)> {
    env.map_values(|p: (String, String)| (p.0@, p.1@))
}

/// The value of `name` in `env`.
pub fn env_lookup<'a>(env: &'a [(String, String)], name: &str) -> (r: Option<&'a String>)
    ensures
        r matches Some(v) ==> env_get(env_view(env@), name@) == Some(v@),
        r is None ==> env_get(env_view(env@), name@) is None,
{
    let ghost e = env_view(env@);
    let mut i: usize = 0;
    assert(e.skip(0) =~= e);
    while i < env.len()
        invariant
            i <= env@.len(),
            e == env_view(env@),
            env_get(e, name@) == env_get(e.skip(i as int), name@),
        decreases env@.len() - i,
    {
        assert(e.skip(i as int)[0] == e[i as int]);
        if str_eq(env[i].0.as_str(), name) {
            return Some(&env[i].1);
        }
        assert(e.skip(i as int).drop_first() =~= e.skip(i + 1));
        i = i + 1;
    }
    assert(e.skip(i as int) =~= Seq::<(Seq<char>, Seq<char>)>::empty());
    None
}

/// `str::parse::<u16>()`.
pub open spec fn parse_u16_spec(s: Seq<char>) -> Option<int> {
    match unsigned_text_value(s) {
        Some(v) => if v <= u16::MAX {
            Some(v)
        } else {
            None
        },
        None => None,
    }
}

#[derive(Debug)]
pub struct Config {
    pub port: u16,
    pub host: String,
    pub cal_name: String,
    pub db_path: String,
    pub feed_token: String,
    pub agent_key: String,
    pub tls_key: String,
    pub tls_cert: String,
}

pub open spec fn default_port() -> int {
    18788
}

/// `PORT` when it is a port number other than 0.
pub open spec fn config_port(env: Seq<(Seq<char>, Seq<char>)>) -> int {
    let raw = match env_get(env, "PORT"@) {
        Some(v) => v,
        None => Seq::empty(),
    };
    match parse_u16_spec(raw) {
        Some(p) => if p > 0 {
            p
        } else {
            default_port()
        },
        None => default_port(),
    }
}

/// The trimmed value of `name` when it is not blank, else `default`.
pub open spec fn trimmed_or(env: Seq<(Seq<char>, Seq<char>)>, name: Seq<char>, default: Seq<char>) -> Seq<char> {
    match env_get(env, name) {
        Some(v) => if trim(v).len() > 0 {
            trim(v)
        } else {
            default
        },
        None => default,
    }
}

/// The value of `name` as it is, else `default`.
pub open spec fn value_or(env: Seq<(Seq<char>, Seq<char>)>, name: Seq<char>, default: Seq<char>) -> Seq<char> {
    match env_get(env, name) {
        Some(v) => v,
        None => default,
    }
}

fn read_trimmed_or(env: &[(String, String)], name: &str, default: &str) -> (out: String)
    ensures
        out@ == trimmed_or(env_view(env@), name@, default@),
{
    match env_lookup(env, name) {
        Some(v) => {
            let t = trimmed(v.as_str());
            if t.as_str().is_empty() {
                owned(default)
            } else {
                t
            }
        },
        None => owned(default),
    }
}

fn read_value_or(env: &[(String, String)], name: &str, default: &str) -> (out: String)
    ensures
        out@ == value_or(env_view(env@), name@, default@),
{
    match env_lookup(env, name) {
        Some(v) => v.clone(),
        None => owned(default),
    }
}

/// Read runtime config. Empty secrets are allowed here; callers decide whether to seed home.
pub fn read_config(env: &[(String, String)]) -> (cfg: Config)
    ensures
        cfg.port == config_port(env_view(env@)),
        cfg.host@ == trimmed_or(env_view(env@), "HOST"@, "localhost"@),
        cfg.cal_name@ == trimmed_or(env_view(env@), "CAL_NAME"@, "Almanac"@),
        cfg.db_path@ == value_or(env_view(env@), "DB_PATH"@, "./data/calendar.db"@),
        cfg.feed_token@ == value_or(env_view(env@), "FEED_TOKEN"@, Seq::empty()),
        cfg.agent_key@ == value_or(env_view(env@), "AGENT_KEY"@, Seq::empty()),
        cfg.tls_key@ == value_or(env_view(env@), "TLS_KEY"@, Seq::empty()),
        cfg.tls_cert@ == value_or(env_view(env@), "TLS_CERT"@, Seq::empty()),
{
    let raw: Vec<char> = match env_lookup(env, "PORT") {
        Some(v) => chars_of(v.as_str()),
        None => Vec::new(),
    };
    let port: u16 = match parse_u32_at(raw.as_slice(), 0, raw.len()) {
        Some(p) => {
            if p > 0 && p <= 65535 {
                p as u16
            } else {
                18788
            }
        },
        None => 18788,
    };
    proof {
        assert(raw@.subrange(0, raw@.len() as int) =~= raw@);
    }
    proof {
        reveal_strlit("");
    }
    Config {
        port,
        host: read_trimmed_or(env, "HOST", "localhost"),
        cal_name: read_trimmed_or(env, "CAL_NAME", "Almanac"),
        db_path: read_value_or(env, "DB_PATH", "./data/calendar.db"),
        feed_token: read_value_or(env, "FEED_TOKEN", ""),
        agent_key: read_value_or(env, "AGENT_KEY", ""),
        tls_key: read_value_or(env, "TLS_KEY", ""),
        tls_cert: read_value_or(env, "TLS_CERT", ""),
    }
}

// ---- the .env file -----------------------------------------------------------------

/// An environment variable name: an upper-case letter or `_`, then upper-case
/// letters, digits and `_`.
pub open spec fn env_key_ok(key: Seq<char>) -> bool {
    &&& key.len() > 0
    &&& (is_upper(key[0]) || key[0] == '_')
    &&& forall|k: int| 1 <= k < key.len() ==> is_upper(#[trigger] key[k]) || is_digit(key[k]) || key[k] == '_'
}

/// Wrapped in a matching pair of `"` or `'`.
pub open spec fn quoted(v: Seq<char>) -> bool {
    v.len() >= 2 && ((v[0] == '"' && v.last() == '"') || (v[0] == '\'' && v.last() == '\''))
}

fn is_env_key(s: &[char], lo: usize, hi: usize) -> (b: bool)
    requires
        lo <= hi <= s@.len(),
    ensures
        b == env_key_ok(s@.subrange(lo as int, hi as int)),
{
    let ghost key = s@.subrange(lo as int, hi as int);
    if lo == hi {
        return false;
    }
    let first = s[lo];
    if !(('A' <= first && first <= 'Z') || first == '_') {
        return false;
    }
    let mut k = lo + 1;
    while k < hi
        invariant
            lo < k <= hi <= s@.len(),
            key == s@.subrange(lo as int, hi as int),
            forall|q: int| 1 <= q < k - lo ==> is_upper(#[trigger] key[q]) || is_digit(key[q]) || key[q] == '_',
        decreases hi - k,
    {
        let c = s[k];
        assert(key[k - lo] == c);
        if !(('A' <= c && c <= 'Z') || ('0' <= c && c <= '9') || c == '_') {
            return false;
        }
        k = k + 1;
    }
    true
}

/// What one line of a `.env` file assigns: blank lines, `#` comments, lines
/// without `=` or with an empty or malformed name assign nothing. Name and
/// value are trimmed, and one pair of matching quotes around the value goes.
pub open spec fn env_line(raw: Seq<char>) -> Option<(Seq<char>, Seq<char>)> {
    let line = trim(raw);
    let eq = find_char(line, '=');
    if line.len() == 0 || line[0] == '#' || eq >= line.len() || eq == 0 {
        None
    } else {
        let key = trim(line.take(eq));
        let value = trim(line.skip(eq + 1));
        if !env_key_ok(key) {
            None
        } else if quoted(value) {
            Some((key, value.subrange(1, value.len() - 1)))
        } else {
            Some((key, value))
        }
    }
}

/// The assignments of a `.env` file, line by line, in order.
pub open spec fn env_assignments(text: Seq<char>) -> Seq<(Seq<char>, Seq<char>)>
    decreases text.len(),
{
    let i = find_char(text, '\n');
    let here = match env_line(text.take(i)) {
        Some(p) => seq![p],
        None => Seq::empty(),
    };
    if i >= text.len() {
        here
    } else {
        proof {
            lemma_find_char(text, '\n');
        }
        here + env_assignments(text.skip(i + 1))
    }
}

fn env_line_at(s: &[char], lo: usize, hi: usize) -> (r: Option<(String, String)>)
    requires
        lo <= hi <= s@.len(),
    ensures
        match r {
            Some((k, v)) => env_line(s@.subrange(lo as int, hi as int)) == Some((k@, v@)),
            None => env_line(s@.subrange(lo as int, hi as int)) is None,
        },
{
    let ghost raw = s@.subrange(lo as int, hi as int);
    let mut line: Vec<char> = Vec::new();
    let mut k = lo;
    while k < hi
        invariant
            lo <= k <= hi <= s@.len(),
            line@ == s@.subrange(lo as int, k as int),
        decreases hi - k,
    {
        line.push(s[k]);
        k = k + 1;
        assert(line@ =~= s@.subrange(lo as int, k as int));
    }
    let (a, b) = trim_bounds(line.as_slice());
    let ghost t = line@.subrange(a as int, b as int);
    if a == b || line[a] == '#' {
        return None;
    }
    let eq = find_char_exec(line.as_slice(), a, b, '=');
    if eq == b || eq == a {
        return None;
    }
    let mut key_chars: Vec<char> = Vec::new();
    let mut q = a;
    while q < eq
        invariant
            a <= q <= eq <= b <= line@.len(),
            key_chars@ == line@.subrange(a as int, q as int),
        decreases eq - q,
    {
        key_chars.push(line[q]);
        q = q + 1;
        assert(key_chars@ =~= line@.subrange(a as int, q as int));
    }
    let mut val_chars: Vec<char> = Vec::new();
    let mut q = eq + 1;
    while q < b
        invariant
            eq + 1 <= q <= b <= line@.len(),
            val_chars@ == line@.subrange(eq + 1, q as int),
        decreases b - q,
    {
        val_chars.push(line[q]);
        q = q + 1;
        assert(val_chars@ =~= line@.subrange(eq + 1, q as int));
    }
    proof {
        assert(t.take(eq - a) =~= key_chars@);
        assert(t.skip(eq - a + 1) =~= val_chars@);
    }
    let (ka, kb) = trim_bounds(key_chars.as_slice());
    if !is_env_key(key_chars.as_slice(), ka, kb) {
        return None;
    }
    let (va, vb) = trim_bounds(val_chars.as_slice());
    let mut key = String::new();
    push_range(&mut key, key_chars.as_slice(), ka, kb);
    let mut value = String::new();
    let ghost v = val_chars@.subrange(va as int, vb as int);
    if vb - va >= 2 && ((val_chars[va] == '"' && val_chars[vb - 1] == '"') || (val_chars[va] == '\''
        && val_chars[vb - 1] == '\'')) {
        push_range(&mut value, val_chars.as_slice(), va + 1, vb - 1);
        assert(v.subrange(1, v.len() - 1) =~= val_chars@.subrange(va + 1, vb - 1));
    } else {
        push_range(&mut value, val_chars.as_slice(), va, vb);
    }
    Some((key, value))
}

/// The assignments of a `.env` file, in order. The caller sets each name
/// that the process environment does not already hold.
pub fn parse_env_file(text: &str) -> (pairs: Vec<(String, String)>)
    ensures
        env_view(pairs@) == env_assignments(text@),
{
    let s = chars_of(text);
    let mut pairs: Vec<(String, String)> = Vec::new();
    let mut start: usize = 0;
    let ghost mut acc: Seq<(Seq<char>, Seq<char>)> = Seq::empty();
    assert(s@.skip(0) =~= s@);
    loop
        invariant
            start <= s@.len(),
            s@ == text@,
            env_view(pairs@) == acc,
            env_assignments(text@) == acc + env_assignments(s@.skip(start as int)),
        decreases s@.len() - start,
    {
        let ghost rest = s@.skip(start as int);
        let j = find_char_exec(s.as_slice(), start, s.len(), '\n');
        proof {
            lemma_find_char(rest, '\n');
            assert(rest.take(j - start) =~= s@.subrange(start as int, j as int));
            assert(s@.subrange(start as int, s@.len() as int) =~= rest);
            if j < s.len() {
                assert(rest.skip(j - start + 1) =~= s@.skip(j + 1));
            }
        }
        let ghost before = pairs@;
        match env_line_at(s.as_slice(), start, j) {
            Some(p) => {
                pairs.push(p);
                proof {
                    acc = acc.push((p.0@, p.1@));
                    assert(env_view(pairs@) =~= acc);
                }
            },
            None => {},
        }
        if j >= s.len() {
            proof {
                assert(env_assignments(text@) =~= acc);
            }
            return pairs;
        }
        start = j + 1;
        proof {
            assert(env_assignments(text@) =~= acc + env_assignments(s@.skip(start as int)));
        }
    }
}

// ---- listening ----------------------------------------------------------------------

/// Loopback hostnames listen on v4 and v6 (`localhost` prefers `::1`); any
/// other host as given.
pub open spec fn listen_hosts_of(host: Seq<char>) -> Seq<Seq<char>> {
    if host == "localhost"@ || host == "127.0.0.1"@ || host == "::1"@ {
        seq!["127.0.0.1"@, "::1"@]
    } else {
        seq![host]
    }
}

pub fn listen_hosts(host: &str) -> (v: Vec<String>)
    ensures
        v@.map_values(|h: String| h@) == listen_hosts_of(host@),
{
    let mut v: Vec<String> = Vec::new();
    if str_eq(host, "localhost") || str_eq(host, "127.0.0.1") || str_eq(host, "::1") {
        v.push(owned("127.0.0.1"));
        v.push(owned("::1"));
    } else {
        v.push(owned(host));
    }
    assert(v@.map_values(|h: String| h@) =~= listen_hosts_of(host@));
    v
}

/// `host:port`, an IPv6 host in brackets.
pub open spec fn bind_text_of(host: Seq<char>, port: u16) -> Seq<char> {
    if has_colon(host) && !(host.len() > 0 && host[0] == '[') {
        "["@ + host + "]:"@ + dec(port as nat)
    } else {
        host + ":"@ + dec(port as nat)
    }
}

pub open spec fn has_colon(s: Seq<char>) -> bool {
    exists|k: int| 0 <= k < s.len() && s[k] == ':'
}

pub fn bind_text(host: &str, port: u16) -> (out: String)
    ensures
        out@ == bind_text_of(host@, port),
{
    let c = chars_of(host);
    let f = find_char_exec(c.as_slice(), 0, c.len(), ':');
    proof {
        assert(c@.subrange(0, c@.len() as int) =~= c@);
        lemma_find_char(c@, ':');
        if has_colon(host@) {
            let k = choose|k: int| 0 <= k < host@.len() && host@[k] == ':';
            assert(find_char(c@, ':') <= k);
        }
    }
    let mut out = String::new();
    if f < c.len() && !(c.len() > 0 && c[0] == '[') {
        out.push('[');
        out.push_str(host);
        out.push_str("]:");
    } else {
        out.push_str(host);
        out.push(':');
    }
    push_dec(&mut out, port as u64);
    proof {
        reveal_strlit("[");
        reveal_strlit(":");
    }
    assert(out@ =~= bind_text_of(host@, port));
    out
}

} // verus!
