//! Caps and rate limits.

use vstd::prelude::*;
use crate::text::{chars_of, find_char, find_char_exec, lemma_find_char, owned, parse_digits, parse_i64_at, parse_i64_spec, parse_u32_at, parse_u32_spec, push_line, push_range, str_eq, texts, trim, trim_bounds, unsigned_text_value};
use crate::env::{env_get, env_lookup, env_view};

verus! {

/// Caps and rate limits. One struct so tests can shrink them.
#[derive(Debug)]
pub struct Limits {
    /// `POST /calendars` per client per hour.
    pub creates_per_client_hour: u32,
    /// `POST /calendars` across every client per hour.
    ///
    /// Only a backstop for the case where a caller controls its own bucket
    /// (no trusted proxy, or `proxy_hops` set too high), which defeats the
    /// per-client limit. It is deliberately far above real demand: tripping it
    /// blocks creation for everyone, so it is logged when it fires.
    pub creates_global_hour: u32,
    /// Calendars the service will ever hold.
    pub max_calendars: i64,
    /// Events per calendar.
    pub max_events: i64,
    /// Exdates plus overrides per series.
    pub max_exceptions: usize,
    /// Writes per calendar per minute. The `home` calendar is exempt.
    pub writes_per_minute: u32,
    /// Proxies in front of the service that each append to `X-Forwarded-For`.
    /// The client is the entry this many from the right. `0` ignores the header.
    pub proxy_hops: usize,
    /// Todos per calendar.
    pub max_todos: i64,
    /// Notes per calendar.
    pub max_notes: i64,
    /// Exports per calendar per hour. The `home` calendar is exempt.
    pub exports_per_hour: u32,
}

impl Default for Limits {
    fn default() -> (l: Self)
        ensures
            l.creates_per_client_hour == 10,
            l.creates_global_hour == 2_000,
            l.max_calendars == 100_000,
            l.max_events == 2_000,
            l.max_exceptions == 500,
            l.writes_per_minute == 120,
            l.proxy_hops == 1,
            l.max_todos == 5_000,
            l.max_notes == 500,
            l.exports_per_hour == 10,
    {
        Limits {
            creates_per_client_hour: 10,
            creates_global_hour: 2_000,
            max_calendars: 100_000,
            max_events: 2_000,
            max_exceptions: 500,
            writes_per_minute: 120,
            proxy_hops: 1,
            max_todos: 5_000,
            max_notes: 500,
            exports_per_hour: 10,
        }
    }
}

/// `str::parse::<usize>()`.
pub open spec fn parse_usize_spec(s: Seq<char>) -> Option<int> {
    match unsigned_text_value(s) {
        Some(v) => if v <= usize::MAX {
            Some(v)
        } else {
            None
        },
        None => None,
    }
}

/// A number setting: the trimmed value, read as `parse` reads it.
pub open spec fn env_number(env: Seq<(Seq<char>, Seq<char>)>, name: Seq<char>, parse: spec_fn(Seq<char>) -> Option<int>) -> Option<int> {
    match env_get(env, name) {
        Some(v) => parse(trim(v)),
        None => None,
    }
}

/// The trimmed value of `name`, as chars.
pub(crate) fn env_trimmed(env: &[(String, String)], name: &str) -> (r: Option<Vec<char>>)
    ensures
        r matches Some(c) ==> env_get(env_view(env@), name@) matches Some(v) && c@ == trim(v),
        r is None ==> env_get(env_view(env@), name@) is None,
{
    match env_lookup(env, name) {
        Some(v) => {
            let c = chars_of(v.as_str());
            let (lo, hi) = trim_bounds(c.as_slice());
            let mut out: Vec<char> = Vec::new();
            let mut k = lo;
            while k < hi
                invariant
                    lo <= k <= hi <= c@.len(),
                    out@ == c@.subrange(lo as int, k as int),
                decreases hi - k,
            {
                out.push(c[k]);
                k = k + 1;
                assert(out@ =~= c@.subrange(lo as int, k as int));
            }
            Some(out)
        },
        None => None,
    }
}

fn env_u32(env: &[(String, String)], name: &str) -> (r: Option<u32>)
    ensures
        r matches Some(n) ==> env_number(env_view(env@), name@, |s| parse_u32_spec(s)) == Some(n as int),
        r is None ==> env_number(env_view(env@), name@, |s| parse_u32_spec(s)) is None,
{
    match env_trimmed(env, name) {
        Some(c) => {
            assert(c@.subrange(0, c@.len() as int) =~= c@);
            parse_u32_at(c.as_slice(), 0, c.len())
        },
        None => None,
    }
}

fn env_i64(env: &[(String, String)], name: &str) -> (r: Option<i64>)
    ensures
        r matches Some(n) ==> env_number(env_view(env@), name@, |s| parse_i64_spec(s)) == Some(n as int),
        r is None ==> env_number(env_view(env@), name@, |s| parse_i64_spec(s)) is None,
{
    match env_trimmed(env, name) {
        Some(c) => {
            assert(c@.subrange(0, c@.len() as int) =~= c@);
            parse_i64_at(c.as_slice(), 0, c.len())
        },
        None => None,
    }
}

pub(crate) fn env_usize(env: &[(String, String)], name: &str) -> (r: Option<usize>)
    ensures
        r matches Some(n) ==> env_number(env_view(env@), name@, |s| parse_usize_spec(s)) == Some(n as int),
        r is None ==> env_number(env_view(env@), name@, |s| parse_usize_spec(s)) is None,
{
    match env_trimmed(env, name) {
        Some(c) => {
            let ghost t = c@;
            assert(c@.subrange(0, c@.len() as int) =~= c@);
            let start = if c.len() > 0 && c[0] == '+' {
                1
            } else {
                0
            };
            assert(t.len() > 0 && t[0] == '+' ==> t.drop_first() =~= c@.subrange(start as int, c@.len() as int));
            assert(!(t.len() > 0 && t[0] == '+') ==> t =~= c@.subrange(start as int, c@.len() as int));
            match parse_digits(c.as_slice(), start, c.len(), usize::MAX as u64) {
                Some(v) => Some(v as usize),
                None => None,
            }
        },
        None => None,
    }
}

/// A setting read from the environment, or what it was.
pub open spec fn or_keep(o: Option<int>, current: int) -> int {
    match o {
        Some(v) => v,
        None => current,
    }
}

impl Limits {
    /// Override the tunable limits from the environment. Anything unset or
    /// unparseable keeps its value.
    pub fn from_env(self, env: &[(String, String)]) -> (l: Self)
        ensures
            l.creates_per_client_hour == or_keep(
                env_number(env_view(env@), "MAX_CREATES_PER_CLIENT_HOUR"@, |s| parse_u32_spec(s)),
                self.creates_per_client_hour as int,
            ),
            l.creates_global_hour == or_keep(
                env_number(env_view(env@), "MAX_CREATES_PER_HOUR"@, |s| parse_u32_spec(s)),
                self.creates_global_hour as int,
            ),
            l.max_events == or_keep(
                env_number(env_view(env@), "MAX_EVENTS_PER_CALENDAR"@, |s| parse_i64_spec(s)),
                self.max_events as int,
            ),
            l.writes_per_minute == or_keep(
                env_number(env_view(env@), "MAX_WRITES_PER_MINUTE"@, |s| parse_u32_spec(s)),
                self.writes_per_minute as int,
            ),
            l.proxy_hops == or_keep(
                env_number(env_view(env@), "TRUSTED_PROXY_HOPS"@, |s| parse_usize_spec(s)),
                self.proxy_hops as int,
            ),
            l.max_calendars == self.max_calendars,
            l.max_exceptions == self.max_exceptions,
            l.max_todos == self.max_todos,
            l.max_notes == self.max_notes,
            l.exports_per_hour == self.exports_per_hour,
    {
        let mut l = self;
        if let Some(v) = env_u32(env, "MAX_CREATES_PER_CLIENT_HOUR") {
            l.creates_per_client_hour = v;
        }
        if let Some(v) = env_u32(env, "MAX_CREATES_PER_HOUR") {
            l.creates_global_hour = v;
        }
        if let Some(v) = env_i64(env, "MAX_EVENTS_PER_CALENDAR") {
            l.max_events = v;
        }
        if let Some(v) = env_u32(env, "MAX_WRITES_PER_MINUTE") {
            l.writes_per_minute = v;
        }
        if let Some(v) = env_usize(env, "TRUSTED_PROXY_HOPS") {
            l.proxy_hops = v;
        }
        l
    }
}


// ---- fixed-window counters ---------------------------------------------------------

pub const HOUR_MS: i64 = 3_600_000;

pub const MINUTE_MS: i64 = 60_000;

/// Distinct keys held at once. A spoofed-address flood cannot grow the table
/// past this; new keys are refused instead until the next sweep.
pub const MAX_KEYS: usize = 100_000;

/// How often dead keys are swept out. Sweeping is O(keys), so it runs on a
/// timer, never per request.
pub const SWEEP_INTERVAL_MS: i64 = 60_000;

/// A key's window: when it started and how many hits it has had.
pub type Hit = (Seq<char>, int, int);

pub struct LimiterState {
    pub hits: Seq<Hit>,
    pub last_sweep: int,
    pub sweeps: int,
}

/// The windows that started less than an hour before `now`, in order.
pub open spec fn kept_hits(hits: Seq<Hit>, now: int) -> Seq<Hit>
    decreases hits.len(),
{
    if hits.len() == 0 {
        Seq::empty()
    } else {
        let r = kept_hits(hits.drop_last(), now);
        if now - hits.last().1 < HOUR_MS {
            r.push(hits.last())
        } else {
            r
        }
    }
}

/// Index of the window of `key`, or `hits.len()`.
pub open spec fn key_index(hits: Seq<Hit>, key: Seq<char>) -> int
    decreases hits.len(),
{
    if hits.len() == 0 {
        0
    } else if hits[0].0 == key {
        0
    } else {
        1 + key_index(hits.drop_first(), key)
    }
}

/// Once a sweep interval has passed (or the clock went back), windows older
/// than an hour are dropped: no window is longer than an hour.
pub open spec fn swept(s: LimiterState, now: int) -> LimiterState {
    if 0 <= now - s.last_sweep < SWEEP_INTERVAL_MS {
        s
    } else {
        LimiterState {
            hits: kept_hits(s.hits, now),
            last_sweep: now,
            sweeps: if s.sweeps < u64::MAX {
                s.sweeps + 1
            } else {
                s.sweeps
            },
        }
    }
}

/// One hit on `key` at `now`: the next state, and `Ok` or the seconds until
/// the window resets.
pub open spec fn check_state(s: LimiterState, now: int, key: Seq<char>, max: int, window: int) -> (
    LimiterState,
    Result<(), int>,
) {
    let t = swept(s, now);
    let i = key_index(t.hits, key);
    let found = i < t.hits.len();
    if t.hits.len() >= MAX_KEYS && !found {
        (t, Err(60))
    } else {
        let start0 = if found {
            t.hits[i].1
        } else {
            now
        };
        let count0 = if found {
            t.hits[i].2
        } else {
            0
        };
        let fresh = now - start0 >= window;
        let start = if fresh {
            now
        } else {
            start0
        };
        let count = if fresh {
            0
        } else {
            count0
        };
        let denied = count >= max;
        let count2 = if denied {
            count
        } else {
            count + 1
        };
        let hits = if found {
            t.hits.update(i, (key, start, count2))
        } else {
            t.hits.push((key, start, count2))
        };
        let secs = (start + window - now + 999) / 1000;
        (
            LimiterState { hits, ..t },
            if denied {
                Err(if secs > 1 {
                    secs
                } else {
                    1
                })
            } else {
                Ok(())
            },
        )
    }
}

proof fn lemma_key_index_facts(hits: Seq<Hit>, key: Seq<char>)
    ensures
        0 <= key_index(hits, key) <= hits.len(),
        key_index(hits, key) < hits.len() ==> hits[key_index(hits, key)].0 == key,
        forall|j: int| 0 <= j < key_index(hits, key) ==> (#[trigger] hits[j]).0 != key,
    decreases hits.len(),
{
    if hits.len() > 0 && hits[0].0 != key {
        lemma_key_index_facts(hits.drop_first(), key);
        assert forall|j: int| 0 <= j < key_index(hits, key) implies (#[trigger] hits[j]).0 != key by {
            if j > 0 {
                assert(hits[j] == hits.drop_first()[j - 1]);
            }
        }
    }
}

proof fn lemma_kept_lacks(hits: Seq<Hit>, now: int, key: Seq<char>)
    requires
        forall|j: int| 0 <= j < hits.len() ==> (#[trigger] hits[j]).0 != key,
    ensures
        forall|j: int| 0 <= j < kept_hits(hits, now).len() ==> (#[trigger] kept_hits(hits, now)[j]).0
            != key,
    decreases hits.len(),
{
    if hits.len() > 0 {
        let p = hits.drop_last();
        assert forall|j: int| 0 <= j < p.len() implies (#[trigger] p[j]).0 != key by {
            assert(p[j] == hits[j]);
        }
        lemma_kept_lacks(p, now, key);
        assert(hits.last().0 != key);
        let r = kept_hits(p, now);
        let q = kept_hits(hits, now);
        assert forall|j: int| 0 <= j < q.len() implies (#[trigger] q[j]).0 != key by {
            if j < r.len() {
                assert(q[j] == r[j]);
            }
        }
    }
}

/// Sweeping keeps a key's window that is less than an hour old, and it stays
/// the first window of that key.
proof fn lemma_kept_window(hits: Seq<Hit>, now: int, key: Seq<char>)
    requires
        key_index(hits, key) < hits.len(),
        now - hits[key_index(hits, key)].1 < HOUR_MS,
    ensures
        key_index(kept_hits(hits, now), key) < kept_hits(hits, now).len(),
        kept_hits(hits, now)[key_index(kept_hits(hits, now), key)] == hits[key_index(hits, key)],
    decreases hits.len(),
{
    let k = key_index(hits, key);
    let n = hits.len();
    let p = hits.drop_last();
    let r = kept_hits(p, now);
    lemma_key_index_facts(hits, key);
    if k < n - 1 {
        assert forall|j: int| 0 <= j < k implies (#[trigger] p[j]).0 != key by {
            assert(p[j] == hits[j]);
        }
        lemma_key_index(p, key, k);
        lemma_kept_window(p, now, key);
        let j0 = key_index(r, key);
        lemma_key_index_facts(r, key);
        if now - hits.last().1 < HOUR_MS {
            let q = r.push(hits.last());
            assert forall|j: int| 0 <= j < j0 implies (#[trigger] q[j]).0 != key by {
                assert(q[j] == r[j]);
            }
            lemma_key_index(q, key, j0);
        }
    } else {
        assert forall|j: int| 0 <= j < p.len() implies (#[trigger] p[j]).0 != key by {
            assert(p[j] == hits[j]);
        }
        lemma_kept_lacks(p, now, key);
        let q = r.push(hits.last());
        assert forall|j: int| 0 <= j < r.len() implies (#[trigger] q[j]).0 != key by {
            assert(q[j] == r[j]);
        }
        lemma_key_index(q, key, r.len() as int);
    }
}

/// Once a key's window has counted `max` hits, a further hit on that key
/// before the window ends is refused with a wait of at least a second, and
/// changes no window. (A window over an hour old that a sweep drops is gone,
/// so the hit then opens a new one.)
pub proof fn lemma_full_window_refuses(s: LimiterState, now: int, key: Seq<char>, max: int, window: int)
    requires
        key_index(s.hits, key) < s.hits.len(),
        s.hits[key_index(s.hits, key)].2 >= max,
        now - s.hits[key_index(s.hits, key)].1 < window,
        now - s.hits[key_index(s.hits, key)].1 < HOUR_MS || 0 <= now - s.last_sweep
            < SWEEP_INTERVAL_MS,
    ensures
        check_state(s, now, key, max, window).1 matches Err(secs) && secs >= 1,
        check_state(s, now, key, max, window).0 == swept(s, now),
{
    let t = swept(s, now);
    if !(0 <= now - s.last_sweep < SWEEP_INTERVAL_MS) {
        lemma_kept_window(s.hits, now, key);
    }
    let i = key_index(t.hits, key);
    lemma_key_index_facts(t.hits, key);
    assert(t.hits[i] == s.hits[key_index(s.hits, key)]);
    assert(t.hits.update(i, t.hits[i]) =~= t.hits);
}

/// Fixed-window counters keyed by text.
pub struct Limiter {
    hits: Vec<(String, i64, u32)>,
    last_sweep: i64,
    sweeps: u64,
}

pub open spec fn hit_views(v: Seq<(String, i64, u32)>) -> Seq<Hit> {
    v.map_values(|h: (String, i64, u32)| (h.0@, h.1 as int, h.2 as int))
}

pub open spec fn keys_unique(hits: Seq<Hit>) -> bool {
    forall|i: int, j: int| 0 <= i < j < hits.len() ==> #[trigger] hits[i].0 != #[trigger] hits[j].0
}

impl Limiter {
    pub closed spec fn state(&self) -> LimiterState {
        LimiterState {
            hits: hit_views(self.hits@),
            last_sweep: self.last_sweep as int,
            sweeps: self.sweeps as int,
        }
    }

    /// No key has two windows.
    pub closed spec fn wf(&self) -> bool {
        keys_unique(hit_views(self.hits@))
    }

    pub fn new() -> (l: Self)
        ensures
            l.wf(),
            l.state() == (LimiterState { hits: Seq::empty(), last_sweep: 0, sweeps: 0 }),
    {
        let l = Limiter { hits: Vec::new(), last_sweep: 0, sweeps: 0 };
        assert(hit_views(l.hits@) =~= Seq::<Hit>::empty());
        l
    }

    /// How many sweeps have run.
    pub fn sweeps(&self) -> (n: u64)
        ensures
            n == self.state().sweeps,
    {
        self.sweeps
    }

    /// How many keys are held.
    pub fn key_count(&self) -> (n: usize)
        ensures
            n == self.state().hits.len(),
    {
        self.hits.len()
    }
}

proof fn lemma_kept_step(hits: Seq<Hit>, now: int, j: int)
    requires
        0 <= j < hits.len(),
    ensures
        kept_hits(hits.take(j + 1), now) == if now - hits[j].1 < HOUR_MS {
            kept_hits(hits.take(j), now).push(hits[j])
        } else {
            kept_hits(hits.take(j), now)
        },
{
    assert(hits.take(j + 1).drop_last() =~= hits.take(j));
}

proof fn lemma_kept_subset(hits: Seq<Hit>, now: int)
    ensures
        forall|a: int| 0 <= a < kept_hits(hits, now).len() ==> exists|b: int| 0 <= b < hits.len() && #[trigger] kept_hits(hits, now)[a] == hits[b],
        kept_hits(hits, now).len() <= hits.len(),
        keys_unique(hits) ==> keys_unique(kept_hits(hits, now)),
    decreases hits.len(),
{
    if hits.len() > 0 {
        let d = hits.drop_last();
        lemma_kept_subset(d, now);
        let r = kept_hits(d, now);
        let k = kept_hits(hits, now);
        assert forall|a: int| 0 <= a < k.len() implies exists|b: int| 0 <= b < hits.len() && #[trigger] k[a] == hits[b] by {
            if a < r.len() {
                let b = choose|b: int| 0 <= b < d.len() && r[a] == d[b];
                assert(k[a] == hits[b]);
            } else {
                assert(k[a] == hits[hits.len() - 1]);
            }
        }
        if keys_unique(hits) {
            assert(keys_unique(d)) by {
                assert forall|i: int, j: int| 0 <= i < j < d.len() implies #[trigger] d[i].0 != #[trigger] d[j].0 by {
                    assert(d[i] == hits[i] && d[j] == hits[j]);
                }
            }
            assert forall|i: int, j: int| 0 <= i < j < k.len() implies #[trigger] k[i].0 != #[trigger] k[j].0 by {
                if j < r.len() {
                } else {
                    let b = choose|b: int| 0 <= b < d.len() && r[i] == d[b];
                    assert(k[j] == hits[hits.len() - 1]);
                    assert(hits[b].0 != hits[hits.len() - 1].0);
                }
            }
        }
    }
}

proof fn lemma_key_index(hits: Seq<Hit>, key: Seq<char>, k: int)
    requires
        0 <= k <= hits.len(),
        forall|j: int| 0 <= j < k ==> (#[trigger] hits[j]).0 != key,
        k < hits.len() ==> hits[k].0 == key,
    ensures
        key_index(hits, key) == k,
    decreases hits.len(),
{
    if hits.len() > 0 && k > 0 {
        assert forall|j: int| 0 <= j < k - 1 implies (#[trigger] hits.drop_first()[j]).0 != key by {
            assert(hits.drop_first()[j] == hits[j + 1]);
        }
        lemma_key_index(hits.drop_first(), key, k - 1);
    }
}

impl Limiter {
    /// Drop the windows older than an hour.
    fn sweep(&mut self, now: i64)
        requires
            old(self).wf(),
        ensures
            final(self).wf(),
            final(self).state().hits == kept_hits(old(self).state().hits, now as int),
            final(self).last_sweep == old(self).last_sweep,
            final(self).sweeps == old(self).sweeps,
    {
        let ghost all = hit_views(self.hits@);
        let mut kept: Vec<(String, i64, u32)> = Vec::new();
        let mut j: usize = 0;
        assert(all.take(0) =~= Seq::<Hit>::empty());
        assert(hit_views(kept@) =~= Seq::<Hit>::empty());
        while j < self.hits.len()
            invariant
                j <= self.hits@.len(),
                self.wf(),
                all == hit_views(self.hits@),
                hit_views(kept@) == kept_hits(all.take(j as int), now as int),
            decreases self.hits@.len() - j,
        {
            proof {
                lemma_kept_step(all, now as int, j as int);
                assert(all[j as int] == (self.hits@[j as int].0@, self.hits@[j as int].1 as int, self.hits@[j as int].2 as int));
            }
            if (now as i128) - (self.hits[j].1 as i128) < HOUR_MS as i128 {
                let h = (self.hits[j].0.clone(), self.hits[j].1, self.hits[j].2);
                let ghost before = kept@;
                kept.push(h);
                assert(hit_views(kept@) =~= hit_views(before).push(all[j as int]));
            }
            j = j + 1;
        }
        assert(all.take(j as int) =~= all);
        proof {
            lemma_kept_subset(all, now as int);
        }
        self.hits = kept;
    }

    /// Count one hit at `now`. `Err(secs)` is how long until the window resets.
    pub fn check_at(&mut self, now: i64, key: &str, max: u32, window_ms: i64) -> (r: Result<(), u64>)
        requires
            old(self).wf(),
        ensures
            final(self).wf(),
            check_state(old(self).state(), now as int, key@, max as int, window_ms as int) == (
                final(self).state(),
                match r {
                    Ok(()) => Ok::<(), int>(()),
                    Err(secs) => Err(secs as int),
                },
            ),
    {
        // Outside the range, not merely past it: a negative gap is the clock
        // stepping backwards, which would otherwise postpone every sweep
        // until it caught up again.
        let since = (now as i128) - (self.last_sweep as i128);
        if !(0 <= since && since < SWEEP_INTERVAL_MS as i128) {
            self.sweep(now);
            self.last_sweep = now;
            if self.sweeps < u64::MAX {
                self.sweeps = self.sweeps + 1;
            }
        }
        let ghost t = self.state();
        assert(t == swept(old(self).state(), now as int));
        let mut i: usize = 0;
        while i < self.hits.len() && !str_eq(self.hits[i].0.as_str(), key)
            invariant
                i <= self.hits@.len(),
                t == self.state(),
                forall|j: int| 0 <= j < i ==> (#[trigger] t.hits[j]).0 != key@,
            decreases self.hits@.len() - i,
        {
            assert(t.hits[i as int].0 == self.hits@[i as int].0@);
            i = i + 1;
        }
        proof {
            if i < self.hits.len() {
                assert(t.hits[i as int].0 == self.hits@[i as int].0@);
            }
            lemma_key_index(t.hits, key@, i as int);
        }
        let found = i < self.hits.len();
        if self.hits.len() >= MAX_KEYS && !found {
            return Err(60);
        }
        let (start0, count0) = if found {
            (self.hits[i].1, self.hits[i].2)
        } else {
            (now, 0u32)
        };
        let fresh = (now as i128) - (start0 as i128) >= window_ms as i128;
        let start = if fresh {
            now
        } else {
            start0
        };
        let count = if fresh {
            0
        } else {
            count0
        };
        let denied = count >= max;
        let count2 = if denied {
            count
        } else {
            count + 1
        };
        let entry = (owned(key), start, count2);
        let ghost before = self.hits@;
        if found {
            self.hits.set(i, entry);
            proof {
                assert(hit_views(self.hits@) =~= t.hits.update(i as int, (key@, start as int, count2 as int)));
                assert forall|a: int, b: int| 0 <= a < b < self.hits@.len() implies #[trigger] hit_views(self.hits@)[a].0 != #[trigger] hit_views(self.hits@)[b].0 by {
                    assert(t.hits[a].0 != t.hits[b].0);
                }
            }
        } else {
            self.hits.push(entry);
            proof {
                assert(hit_views(self.hits@) =~= t.hits.push((key@, start as int, count2 as int)));
                assert forall|a: int, b: int| 0 <= a < b < self.hits@.len() implies #[trigger] hit_views(self.hits@)[a].0 != #[trigger] hit_views(self.hits@)[b].0 by {
                    if b < t.hits.len() {
                        assert(t.hits[a].0 != t.hits[b].0);
                    } else {
                        assert((t.hits[a]).0 != key@);
                    }
                }
            }
        }
        if denied {
            let remaining_ms = (start as i128) + (window_ms as i128) - (now as i128);
            if remaining_ms <= 0 {
                return Err(1);
            }
            let secs = (remaining_ms + 999) / 1000;
            return Err(if secs > 1 {
                secs as u64
            } else {
                1
            });
        }
        Ok(())
    }

    /// Count one hit now, by the system clock.
    pub fn check(&mut self, key: &str, max: u32, window_ms: i64) -> (r: Result<(), u64>)
        requires
            old(self).wf(),
        ensures
            final(self).wf(),
            exists|now: i64|
                check_state(old(self).state(), now as int, key@, max as int, window_ms as int) == (
                    final(self).state(),
                    match r {
                        Ok(()) => Ok::<(), int>(()),
                        Err(secs) => Err(secs as int),
                    },
                ),
    {
        let now = crate::util::unix_millis();
        self.check_at(now, key, max, window_ms)
    }
}

// ---- who is calling ------------------------------------------------------------------

/// The trimmed, non-empty entries of an `X-Forwarded-For` value, in order.
pub open spec fn forwarded_entries(s: Seq<char>) -> Seq<Seq<char>>
    decreases s.len(),
{
    let i = find_char(s, ',');
    let t = trim(s.take(i));
    let here = if t.len() > 0 {
        seq![t]
    } else {
        Seq::empty()
    };
    if i >= s.len() {
        here
    } else {
        proof {
            lemma_find_char(s, ',');
        }
        here + forwarded_entries(s.skip(i + 1))
    }
}

/// The entry `hops` from the right, else the socket peer.
pub open spec fn client_of(forwarded_for: Seq<char>, peer: Seq<char>, hops: int) -> Seq<char> {
    let es = forwarded_entries(forwarded_for);
    if hops > 0 && es.len() >= hops {
        es[es.len() - hops]
    } else {
        peer
    }
}

/// Who is calling: the `X-Forwarded-For` entry `hops` from the right, else the
/// socket peer. Trusting the leftmost entry would let a caller pick their own
/// bucket.
pub fn client_id(forwarded_for: &str, peer: &str, hops: usize) -> (out: String)
    ensures
        out@ == client_of(forwarded_for@, peer@, hops as int),
{
    if hops == 0 {
        return owned(peer);
    }
    let s = chars_of(forwarded_for);
    let mut entries: Vec<String> = Vec::new();
    let mut start: usize = 0;
    let ghost mut acc: Seq<Seq<char>> = Seq::empty();
    assert(s@.skip(0) =~= s@);
    assert(texts(entries@) =~= acc);
    loop
        invariant_except_break
            forwarded_entries(forwarded_for@) == acc + forwarded_entries(s@.skip(start as int)),
        invariant
            start <= s@.len(),
            s@ == forwarded_for@,
            texts(entries@) == acc,
        ensures
            forwarded_entries(forwarded_for@) == acc,
        decreases s@.len() - start,
    {
        let ghost rest = s@.skip(start as int);
        let j = find_char_exec(s.as_slice(), start, s.len(), ',');
        proof {
            lemma_find_char(rest, ',');
            assert(rest.take(j - start) =~= s@.subrange(start as int, j as int));
            assert(s@.subrange(start as int, s@.len() as int) =~= rest);
            if j < s.len() {
                assert(rest.skip(j - start + 1) =~= s@.skip(j + 1));
            }
        }
        let mut part: Vec<char> = Vec::new();
        let mut k = start;
        while k < j
            invariant
                start <= k <= j <= s@.len(),
                part@ == s@.subrange(start as int, k as int),
            decreases j - k,
        {
            part.push(s[k]);
            k = k + 1;
            assert(part@ =~= s@.subrange(start as int, k as int));
        }
        let (lo, hi) = trim_bounds(part.as_slice());
        if lo < hi {
            let mut t = String::new();
            push_range(&mut t, part.as_slice(), lo, hi);
            push_line(&mut entries, t);
            proof {
                acc = acc.push(trim(part@));
            }
        }
        if j >= s.len() {
            proof {
                assert(forwarded_entries(forwarded_for@) =~= acc);
            }
            break;
        }
        start = j + 1;
        proof {
            assert(forwarded_entries(forwarded_for@) =~= acc + forwarded_entries(s@.skip(start as int)));
        }
    }
    let n = entries.len();
    if n >= hops {
        entries[n - hops].clone()
    } else {
        owned(peer)
    }
}

} // verus!
