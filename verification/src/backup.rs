//! Where and how often the service copies its database.
//!
//! The copying itself (`VACUUM INTO` and pruning old files) is the
//! program's; the settings are read here.

use vstd::prelude::*;
use crate::text::{chars_of, owned, parse_digits, text_eq, texts, trim, trimmed, unsigned_text_value};
use crate::json::{key_lt, str_lt};
use crate::db::ostr;
use crate::env::{env_get, env_lookup, env_view};
use crate::limits::{env_number, env_trimmed, env_usize, or_keep, parse_usize_spec};

verus! {

#[derive(Debug)]
pub struct BackupConfig {
    pub dir: String,
    /// `0` turns backups off.
    pub interval_hours: u64,
    pub keep: usize,
}

/// The directory `Path::parent` gives for a path, if any.
pub uninterp spec fn path_parent(p: Seq<char>) -> Option<Seq<char>>;

/// The path `Path::join` makes of a base and a name.
pub uninterp spec fn path_join(base: Seq<char>, name: Seq<char>) -> Seq<char>;

/// `Path::parent`, as text.
#[verifier::external_body]
fn parent_dir(p: &str) -> (r: Option<String>)
    ensures
        ostr(r) == path_parent(p@),
{
    std::path::Path::new(p).parent().map(|q| q.to_string_lossy().into_owned())
}

/// `Path::join`, as text.
#[verifier::external_body]
fn join_path(base: &str, name: &str) -> (r: String)
    ensures
        r@ == path_join(base@, name@),
{
    std::path::Path::new(base).join(name).to_string_lossy().into_owned()
}

/// `str::parse::<u64>()`.
pub open spec fn parse_u64_spec(s: Seq<char>) -> Option<int> {
    match unsigned_text_value(s) {
        Some(v) => if v <= u64::MAX {
            Some(v)
        } else {
            None
        },
        None => None,
    }
}

fn env_u64(env: &[(String, String)], name: &str) -> (r: Option<u64>)
    ensures
        r matches Some(n) ==> env_number(env_view(env@), name@, |s| parse_u64_spec(s)) == Some(n as int),
        r is None ==> env_number(env_view(env@), name@, |s| parse_u64_spec(s)) is None,
{
    match env_trimmed(env, name) {
        Some(c) => {
            let ghost t = c@;
            assert(c@.subrange(0, c@.len() as int) =~= c@);
            let start = if c.len() > 0 && c[0] == '+' {
                1
            } else {
                0
            };
            assert(t.len() > 0 && t[0] == '+' ==> t.drop_first() =~= c@.subrange(start as int, c@.len() as int));
            assert(!(t.len() > 0 && t[0] == '+') ==> t =~= c@.subrange(start as int, c@.len() as int));
            parse_digits(c.as_slice(), start, c.len(), u64::MAX)
        },
        None => None,
    }
}

/// The backup directory: `BACKUP_DIR` trimmed when it is not blank, else
/// `backups` beside the database, which is on the same volume.
pub open spec fn backup_dir(env: Seq<(Seq<char>, Seq<char>)>, db_path: Seq<char>) -> Seq<char> {
    match env_get(env, "BACKUP_DIR"@) {
        Some(d) if trim(d).len() > 0 => trim(d),
        _ => path_join(
            match path_parent(db_path) {
                Some(p) => p,
                None => "."@,
            },
            "backups"@,
        ),
    }
}

impl BackupConfig {
    /// Read `BACKUP_DIR`, `BACKUP_INTERVAL_HOURS` and `BACKUP_KEEP`. Unset or
    /// unparseable values keep the defaults: every 6 hours, the newest 7. At
    /// least one copy is always kept.
    pub fn from_env(db_path: &str, env: &[(String, String)]) -> (c: BackupConfig)
        ensures
            c.dir@ == backup_dir(env_view(env@), db_path@),
            c.interval_hours == or_keep(
                env_number(env_view(env@), "BACKUP_INTERVAL_HOURS"@, |s| parse_u64_spec(s)),
                6,
            ),
            c.keep == (if or_keep(env_number(env_view(env@), "BACKUP_KEEP"@, |s| parse_usize_spec(s)), 7) < 1 {
                1
            } else {
                or_keep(env_number(env_view(env@), "BACKUP_KEEP"@, |s| parse_usize_spec(s)), 7)
            }),
    {
        let given = match env_lookup(env, "BACKUP_DIR") {
            Some(d) => {
                let t = trimmed(d.as_str());
                if t.as_str().is_empty() {
                    None
                } else {
                    Some(t)
                }
            },
            None => None,
        };
        let dir = match given {
            Some(d) => d,
            None => {
                let parent = match parent_dir(db_path) {
                    Some(p) => p,
                    None => owned("."),
                };
                join_path(parent.as_str(), "backups")
            },
        };
        let interval_hours = match env_u64(env, "BACKUP_INTERVAL_HOURS") {
            Some(v) => v,
            None => 6,
        };
        let keep = match env_usize(env, "BACKUP_KEEP") {
            Some(v) => v,
            None => 7,
        };
        BackupConfig { dir, interval_hours, keep: if keep < 1 {
            1
        } else {
            keep
        } }
    }
}

// ---- file names ---------------------------------------------------------------------

/// A backup file: `almanac-<stamp>.db`.
pub open spec fn is_backup(name: Seq<char>) -> bool {
    name.len() >= 8 && name.take(8) == "almanac-"@ && name.len() >= 3 && name.skip(name.len() - 3)
        == ".db"@
}

pub fn is_backup_name(name: &str) -> (b: bool)
    ensures
        b == is_backup(name@),
{
    let c = chars_of(name);
    proof {
        reveal_strlit("almanac-");
        reveal_strlit(".db");
    }
    if c.len() < 8 || !text_eq(c.as_slice(), 0, 8, "almanac-") {
        proof {
            if c@.len() >= 8 {
                assert(c@.subrange(0, 8) =~= c@.take(8));
            }
        }
        return false;
    }
    assert(c@.subrange(0, 8) =~= c@.take(8));
    let n = c.len();
    let r = text_eq(c.as_slice(), n - 3, n, ".db");
    assert(c@.subrange(n - 3, n as int) =~= c@.skip(n - 3));
    r
}

/// The timestamp without `-`, `:` and `.`.
pub open spec fn stamp_of(iso: Seq<char>) -> Seq<char>
    decreases iso.len(),
{
    if iso.len() == 0 {
        Seq::empty()
    } else {
        let c = iso.last();
        let rest = stamp_of(iso.drop_last());
        if c == '-' || c == ':' || c == '.' {
            rest
        } else {
            rest.push(c)
        }
    }
}

/// The name of a backup taken at `now` (RFC 3339): `almanac-<stamp>.db`.
pub fn backup_name(now: &str) -> (out: String)
    ensures
        out@ == "almanac-"@ + stamp_of(now@) + ".db"@,
{
    let c = chars_of(now);
    let mut out = owned("almanac-");
    let ghost head = out@;
    let mut i: usize = 0;
    while i < c.len()
        invariant
            i <= c@.len(),
            c@ == now@,
            out@ == head + stamp_of(c@.take(i as int)),
        decreases c@.len() - i,
    {
        let ch = c[i];
        assert(c@.take(i + 1).drop_last() =~= c@.take(i as int));
        if ch != '-' && ch != ':' && ch != '.' {
            out.push(ch);
        }
        i = i + 1;
    }
    assert(c@.take(i as int) =~= now@);
    out.push_str(".db");
    out
}

/// How many backups in `names` sort after `n`.
pub open spec fn newer_backups(names: Seq<Seq<char>>, n: Seq<char>) -> nat
    decreases names.len(),
{
    if names.len() == 0 {
        0
    } else {
        newer_backups(names.drop_last(), n) + if is_backup(names.last()) && key_lt(n, names.last()) {
            1nat
        } else {
            0nat
        }
    }
}

/// The backups of `names` (in their order) that `keep` newer ones push out:
/// names sort by timestamp, so these are all but the newest `keep`.
pub open spec fn stale_of(names: Seq<Seq<char>>, all: Seq<Seq<char>>, keep: nat) -> Seq<Seq<char>>
    decreases names.len(),
{
    if names.len() == 0 {
        Seq::empty()
    } else {
        let rest = stale_of(names.drop_last(), all, keep);
        let n = names.last();
        if is_backup(n) && newer_backups(all, n) >= keep {
            rest.push(n)
        } else {
            rest
        }
    }
}

fn count_newer(names: &[String], n: &str) -> (k: usize)
    ensures
        k == newer_backups(texts(names@), n@),
{
    let mut k: usize = 0;
    let mut j: usize = 0;
    while j < names.len()
        invariant
            j <= names@.len(),
            k <= j,
            k == newer_backups(texts(names@.take(j as int)), n@),
        decreases names@.len() - j,
    {
        assert(texts(names@.take(j + 1)).drop_last() =~= texts(names@.take(j as int)));
        if is_backup_name(names[j].as_str()) && str_lt(n, names[j].as_str()) {
            k = k + 1;
        }
        j = j + 1;
    }
    assert(names@.take(j as int) =~= names@);
    k
}

/// The backups to delete from a directory listing so that only the newest
/// `keep` remain.
pub fn stale_backups(names: &[String], keep: usize) -> (out: Vec<String>)
    ensures
        texts(out@) == stale_of(texts(names@), texts(names@), keep as nat),
{
    let mut out: Vec<String> = Vec::new();
    let mut i: usize = 0;
    while i < names.len()
        invariant
            i <= names@.len(),
            texts(out@) == stale_of(texts(names@.take(i as int)), texts(names@), keep as nat),
        decreases names@.len() - i,
    {
        assert(texts(names@.take(i + 1)).drop_last() =~= texts(names@.take(i as int)));
        let name = names[i].as_str();
        if is_backup_name(name) && count_newer(names, name) >= keep {
            out.push(owned(name));
            assert(texts(out@) =~= stale_of(texts(names@.take(i as int)), texts(names@), keep as nat).push(
                name@,
            ));
        }
        i = i + 1;
    }
    assert(names@.take(i as int) =~= names@);
    out
}

} // verus!
