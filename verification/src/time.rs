//! Calendar dates and RFC 3339 instants.
//!
//! Instants are kept as UTC milliseconds since the Unix epoch and rendered as
//! `YYYY-MM-DDTHH:MM:SS.mmmZ`. Only ASCII text parses: anything else is refused,
//! never half-read.

use vstd::prelude::*;
use crate::text::{all_ascii, all_ascii_exec, chars_of, dec_pad, digit_run_end, digit_run_end_exec, digits_value, is_ascii_char, is_digit, lemma_digit_run_end, lemma_digit_run_to, lemma_pad2, lemma_pad3, lemma_pad4, lemma_short_parse_bounds, parse_i32_at, parse_i32_spec, parse_u32_at, parse_u32_spec, push_dec_pad, signed_text_value, zeros};

verus! {

/// Division truncating toward zero, which is what `/` does on signed integers.
pub open spec fn tdiv(a: int, b: int) -> int {
    if a >= 0 {
        a / b
    } else {
        -((-a) / b)
    }
}

pub open spec fn is_leap(y: int) -> bool {
    y % 4 == 0 && (y % 100 != 0 || y % 400 == 0)
}

pub open spec fn days_in_month(y: int, m: int) -> int {
    if m == 1 || m == 3 || m == 5 || m == 7 || m == 8 || m == 10 || m == 12 {
        31
    } else if m == 4 || m == 6 || m == 9 || m == 11 {
        30
    } else if m == 2 {
        if is_leap(y) {
            29
        } else {
            28
        }
    } else {
        0
    }
}

pub open spec fn valid_date(y: int, m: int, d: int) -> bool {
    1 <= m <= 12 && 1 <= d <= days_in_month(y, m)
}

/// `YYYY-MM-DD`: the year and the parts as `str::parse` reads them.
pub open spec fn ymd_of(s: Seq<char>) -> Option<(int, int, int)> {
    if s.len() == 10 && all_ascii(s) && s[4] == '-' && s[7] == '-' {
        match (
            parse_i32_spec(s.subrange(0, 4)),
            parse_u32_spec(s.subrange(5, 7)),
            parse_u32_spec(s.subrange(8, 10)),
        ) {
            (Some(y), Some(m), Some(d)) => if valid_date(y, m, d) {
                Some((y, m, d))
            } else {
                None
            },
            _ => None,
        }
    } else {
        None
    }
}

/// Days from 1970-01-01 to the given civil date (proleptic Gregorian).
pub open spec fn days_from_civil(y: int, m: int, d: int) -> int {
    let y = if m <= 2 {
        y - 1
    } else {
        y
    };
    let era = tdiv(
        if y >= 0 {
            y
        } else {
            y - 399
        },
        400,
    );
    let yoe = y - era * 400;
    let doy = (153 * (m + if m > 2 {
        -3int
    } else {
        9int
    }) + 2) / 5 + d - 1;
    let doe = yoe * 365 + yoe / 4 - yoe / 100 + doy;
    era * 146097 + doe - 719468
}

/// The civil date `z` days after 1970-01-01.
pub open spec fn civil_from_days(z: int) -> (int, int, int) {
    let z = z + 719468;
    let era = tdiv(
        if z >= 0 {
            z
        } else {
            z - 146096
        },
        146097,
    );
    let doe = z - era * 146097;
    let yoe = tdiv(doe - tdiv(doe, 1460) + tdiv(doe, 36524) - tdiv(doe, 146096), 365);
    let y = yoe + era * 400;
    let doy = doe - (365 * yoe + tdiv(yoe, 4) - tdiv(yoe, 100));
    let mp = tdiv(5 * doy + 2, 153);
    let d = doy - tdiv(153 * mp + 2, 5) + 1;
    let m = mp + if mp < 10 {
        3int
    } else {
        -9int
    };
    (
        y + if m <= 2 {
            1int
        } else {
            0int
        },
        m,
        d,
    )
}

/// Milliseconds of the instant an RFC 3339 text names: `YYYY-MM-DDTHH:MM:SS`,
/// optional fraction, then `Z` or `±HH:MM`.
pub open spec fn rfc3339_millis(s: Seq<char>) -> Option<int> {
    if !(s.len() >= 20 && all_ascii(s)) {
        None
    } else {
        match (
            ymd_of(s.subrange(0, 10)),
            parse_u32_spec(s.subrange(11, 13)),
            parse_u32_spec(s.subrange(14, 16)),
            parse_u32_spec(s.subrange(17, 19)),
        ) {
            (Some((y, mo, d)), Some(hh), Some(mm), Some(ss)) => {
                if !(s[10] == 'T' || s[10] == 't') || s[13] != ':' || s[16] != ':' || hh > 23 || mm
                    > 59 || ss > 60 {
                    None
                } else {
                    let has_frac = s[19] == '.';
                    let j = if has_frac {
                        digit_run_end(s, 20)
                    } else {
                        19
                    };
                    let millis = if has_frac {
                        frac_millis(s, j)
                    } else {
                        0
                    };
                    if has_frac && j == 20 {
                        None
                    } else {
                        match offset_minutes(s, j) {
                            Some(off) => {
                                let local = days_from_civil(y, mo, d) * 86400 + hh * 3600 + mm * 60
                                    + ss;
                                Some((local - off * 60) * 1000 + millis)
                            },
                            None => None,
                        }
                    }
                }
            },
            _ => None,
        }
    }
}

/// The zone designator starting at `i`: `Z` is zero, `±HH:MM` is signed minutes.
pub open spec fn offset_minutes(s: Seq<char>, i: int) -> Option<int> {
    if i < s.len() && (s[i] == 'Z' || s[i] == 'z') {
        if i + 1 == s.len() {
            Some(0)
        } else {
            None
        }
    } else if i < s.len() && (s[i] == '+' || s[i] == '-') {
        let rest = s.subrange(i + 1, s.len() as int);
        if rest.len() == 5 && rest[2] == ':' {
            match (parse_i32_spec(rest.subrange(0, 2)), parse_i32_spec(rest.subrange(3, 5))) {
                (Some(oh), Some(om)) => if oh > 23 || om > 59 {
                    None
                } else if s[i] == '-' {
                    Some(-(oh * 60 + om))
                } else {
                    Some(oh * 60 + om)
                },
                _ => None,
            }
        } else {
            None
        }
    } else {
        None
    }
}

/// `format!("{n:0w$}")` for a signed `n`: the sign counts toward the width.
pub open spec fn dec_pad_signed(n: int, w: nat) -> Seq<char> {
    if n < 0 {
        seq!['-'] + dec_pad((-n) as nat, if w > 0 {
            (w - 1) as nat
        } else {
            0
        })
    } else {
        dec_pad(n as nat, w)
    }
}

/// `YYYY-MM-DDTHH:MM:SS.mmmZ` for UTC milliseconds.
pub open spec fn utc_text(ms: int) -> Seq<char> {
    let secs = ms / 1000;
    let milli = ms % 1000;
    let (y, m, d) = civil_from_days(secs / 86400);
    let sod = secs % 86400;
    dec_pad_signed(y, 4) + seq!['-'] + dec_pad_signed(m, 2) + seq!['-'] + dec_pad_signed(d, 2)
        + seq!['T'] + dec_pad((sod / 3600) as nat, 2) + seq![':'] + dec_pad(
        ((sod % 3600) / 60) as nat,
        2,
    ) + seq![':'] + dec_pad((sod % 60) as nat, 2) + seq!['.'] + dec_pad(milli as nat, 3) + seq![
        'Z',
    ]
}

/// `YYYYMMDDTHHMMSSZ` for UTC milliseconds.
pub open spec fn ics_utc_text(ms: int) -> Seq<char> {
    let secs = ms / 1000;
    let (y, m, d) = civil_from_days(secs / 86400);
    let sod = secs % 86400;
    dec_pad_signed(y, 4) + dec_pad_signed(m, 2) + dec_pad_signed(d, 2) + seq!['T'] + dec_pad(
        (sod / 3600) as nat,
        2,
    ) + dec_pad(((sod % 3600) / 60) as nat, 2) + dec_pad((sod % 60) as nat, 2) + seq!['Z']
}

pub open spec fn ymd_text(y: int, m: int, d: int) -> Seq<char> {
    dec_pad_signed(y, 4) + seq!['-'] + dec_pad_signed(m, 2) + seq!['-'] + dec_pad_signed(d, 2)
}

pub open spec fn ymd_compact_text(y: int, m: int, d: int) -> Seq<char> {
    dec_pad_signed(y, 4) + dec_pad_signed(m, 2) + dec_pad_signed(d, 2)
}

/// The normalized form of an instant, when it parses.
pub open spec fn instant_text(s: Seq<char>) -> Option<Seq<char>> {
    match rfc3339_millis(s) {
        Some(ms) => Some(utc_text(ms)),
        None => None,
    }
}

/// Largest magnitude of milliseconds a parsed instant can have.
pub open spec fn ms_bound() -> int {
    400_000_000_000_000
}

// ---- exec ----------------------------------------------------------------------

pub fn is_leap_exec(y: i64) -> (b: bool)
    requires
        -100_000_000_000 <= y <= 100_000_000_000,
    ensures
        b == is_leap(y as int),
{
    let a: i64 = if y < 0 {
        -y
    } else {
        y
    };
    proof {
        lemma_neg_mod_zero(y as int, 4);
        lemma_neg_mod_zero(y as int, 100);
        lemma_neg_mod_zero(y as int, 400);
    }
    a % 4 == 0 && (a % 100 != 0 || a % 400 == 0)
}

proof fn lemma_neg_mod_zero(y: int, k: int)
    requires
        k > 0,
    ensures
        (y % k == 0) <==> ((if y < 0 { -y } else { y }) % k == 0),
{
    if y < 0 {
        let a = -y;
        if a % k == 0 {
            vstd::arithmetic::div_mod::lemma_fundamental_div_mod(a, k);
            let q = a / k;
            assert(y == (-q) * k + 0) by (nonlinear_arith)
                requires
                    a == k * q + 0,
                    y == -a,
            ;
            vstd::arithmetic::div_mod::lemma_fundamental_div_mod_converse(y, k, -q, 0);
        }
        if y % k == 0 {
            vstd::arithmetic::div_mod::lemma_fundamental_div_mod(y, k);
            let q = y / k;
            assert(a == (-q) * k + 0) by (nonlinear_arith)
                requires
                    y == k * q + 0,
                    a == -y,
            ;
            vstd::arithmetic::div_mod::lemma_fundamental_div_mod_converse(a, k, -q, 0);
        }
    }
}

pub fn days_in_month_exec(y: i64, m: i64) -> (n: i64)
    requires
        -100_000_000_000 <= y <= 100_000_000_000,
    ensures
        n == days_in_month(y as int, m as int),
{
    if m == 1 || m == 3 || m == 5 || m == 7 || m == 8 || m == 10 || m == 12 {
        31
    } else if m == 4 || m == 6 || m == 9 || m == 11 {
        30
    } else if m == 2 {
        if is_leap_exec(y) {
            29
        } else {
            28
        }
    } else {
        0
    }
}

/// `YYYY-MM-DD` in `s[lo..lo+10]`, as `ymd_of` reads it.
pub fn parse_ymd_at(s: &[char], lo: usize) -> (r: Option<(i32, u32, u32)>)
    requires
        lo + 10 <= s@.len(),
    ensures
        r matches Some((y, m, d)) ==> ymd_of(s@.subrange(lo as int, lo + 10)) == Some(
            (y as int, m as int, d as int),
        ),
        r is None ==> ymd_of(s@.subrange(lo as int, lo + 10)) is None,
{
    let ghost t = s@.subrange(lo as int, lo + 10);
    let n = s.len();
    let end = lo + 10;
    let mut k: usize = lo;
    while k < end
        invariant
            end == lo + 10,
            lo <= k <= lo + 10 <= s@.len(),
            t == s@.subrange(lo as int, lo + 10),
            forall|q: int| lo <= q < k ==> is_ascii_char(#[trigger] s@[q]),
        decreases lo + 10 - k,
    {
        if (s[k] as u32) >= 128 {
            assert(t[k - lo] == s@[k as int]);
            assert(!is_ascii_char(t[k - lo]));
            return None;
        }
        k = k + 1;
    }
    assert(all_ascii(t));
    if s[lo + 4] != '-' || s[lo + 7] != '-' {
        return None;
    }
    assert(t.subrange(0, 4) =~= s@.subrange(lo as int, lo + 4));
    assert(t.subrange(5, 7) =~= s@.subrange(lo + 5, lo + 7));
    assert(t.subrange(8, 10) =~= s@.subrange(lo + 8, lo + 10));
    let y = match parse_i32_at(s, lo, lo + 4) {
        Some(y) => y,
        None => return None,
    };
    let m = match parse_u32_at(s, lo + 5, lo + 7) {
        Some(m) => m,
        None => return None,
    };
    let d = match parse_u32_at(s, lo + 8, lo + 10) {
        Some(d) => d,
        None => return None,
    };
    if m == 0 || m > 12 || d == 0 || (d as i64) > days_in_month_exec(y as i64, m as i64) {
        return None;
    }
    Some((y, m, d))
}

/// `s` is a calendar date `YYYY-MM-DD`.
pub fn is_ymd_chars(s: &[char]) -> (b: bool)
    ensures
        b == (ymd_of(s@) is Some),
{
    if s.len() != 10 {
        return false;
    }
    assert(s@.subrange(0, 10) =~= s@);
    parse_ymd_at(s, 0).is_some()
}

pub fn is_ymd(value: &str) -> (b: bool)
    ensures
        b == (ymd_of(value@) is Some),
{
    let v = chars_of(value);
    is_ymd_chars(v.as_slice())
}

proof fn lemma_floor_adjust(z: int, k: int)
    requires
        k > 0,
    ensures
        tdiv(
            if z >= 0 {
                z
            } else {
                z - (k - 1)
            },
            k,
        ) == z / k,
{
    if z < 0 {
        let a = k - 1 - z;
        vstd::arithmetic::div_mod::lemma_fundamental_div_mod(a, k);
        let q = a / k;
        let r = a % k;
        assert(z == (-q) * k + (k - 1 - r)) by (nonlinear_arith)
            requires
                a == k * q + r,
                a == k - 1 - z,
        ;
        vstd::arithmetic::div_mod::lemma_fundamental_div_mod_converse(z, k, -q, k - 1 - r);
    }
}

/// `days_from_civil` for any year an `i32` holds and any month and day a
/// `u32` holds.
pub fn days_from_civil_exec(y: i64, m: i64, d: i64) -> (n: i64)
    requires
        i32::MIN <= y <= i32::MAX,
        0 <= m <= u32::MAX,
        0 <= d <= u32::MAX,
    ensures
        n == days_from_civil(y as int, m as int, d as int),
{
    let y = if m <= 2 {
        y - 1
    } else {
        y
    };
    let adj = if y >= 0 {
        y
    } else {
        y - 399
    };
    let era = adj / 400;
    proof {
        lemma_floor_adjust(y as int, 400);
        vstd::arithmetic::div_mod::lemma_fundamental_div_mod(y as int, 400);
    }
    let yoe = y - era * 400;
    let mp = m + if m > 2 {
        -3i64
    } else {
        9i64
    };
    let doy = (153 * mp + 2) / 5 + d - 1;
    let doe = yoe * 365 + yoe / 4 - yoe / 100 + doy;
    era * 146097 + doe - 719468
}

/// `civil_from_days` for day counts this library handles.
pub fn civil_from_days_exec(z: i64) -> (r: (i64, i64, i64))
    requires
        -1_000_000_000_000 <= z <= 1_000_000_000_000,
    ensures
        r.0 == civil_from_days(z as int).0,
        r.1 == civil_from_days(z as int).1,
        r.2 == civil_from_days(z as int).2,
{
    let z = z + 719468;
    let adj = if z >= 0 {
        z
    } else {
        z - 146096
    };
    let era = adj / 146097;
    proof {
        lemma_floor_adjust(z as int, 146097);
        vstd::arithmetic::div_mod::lemma_fundamental_div_mod(z as int, 146097);
    }
    let doe = z - era * 146097;
    let yoe = (doe - doe / 1460 + doe / 36524 - doe / 146096) / 365;
    let y = yoe + era * 400;
    let doy = doe - (365 * yoe + yoe / 4 - yoe / 100);
    let mp = (5 * doy + 2) / 153;
    let d = doy - (153 * mp + 2) / 5 + 1;
    let m = mp + if mp < 10 {
        3i64
    } else {
        -9i64
    };
    (
        y + if m <= 2 {
            1i64
        } else {
            0i64
        },
        m,
        d,
    )
}

/// Euclidean quotient and remainder, as `div_euclid` and `rem_euclid` give them.
pub fn div_mod_floor(a: i128, b: i128) -> (r: (i128, i128))
    requires
        b > 0,
        a > i128::MIN,
    ensures
        r.0 == a / b,
        r.1 == a % b,
{
    if a >= 0 {
        (a / b, a % b)
    } else {
        let n = -a;
        let q = n / b;
        let r = n % b;
        proof {
            vstd::arithmetic::div_mod::lemma_fundamental_div_mod(n as int, b as int);
            assert(0 <= q <= n) by (nonlinear_arith)
                requires
                    n > 0,
                    b > 0,
                    q == (n as int) / (b as int),
            ;
        }
        if r == 0 {
            proof {
                assert(a == (-q) * b + 0) by (nonlinear_arith)
                    requires
                        n == b * q + r,
                        r == 0,
                        a == -n,
                ;
                vstd::arithmetic::div_mod::lemma_fundamental_div_mod_converse(
                    a as int,
                    b as int,
                    -q,
                    0,
                );
            }
            (-q, 0)
        } else {
            proof {
                assert(a == (-q - 1) * b + (b - r)) by (nonlinear_arith)
                    requires
                        n == b * q + r,
                        a == -n,
                ;
                vstd::arithmetic::div_mod::lemma_fundamental_div_mod_converse(
                    a as int,
                    b as int,
                    -q - 1,
                    b - r,
                );
            }
            (-q - 1, b - r)
        }
    }
}

pub open spec fn frac_millis(s: Seq<char>, j: int) -> int {
    digits_value((s.subrange(20, j) + seq!['0', '0']).take(3))
}

/// The milliseconds of the fraction digits `s[20..j]`: the first three,
/// right-padded with zeros.
fn frac_millis_exec(s: &[char], j: usize) -> (m: i64)
    requires
        21 <= j <= s@.len(),
        forall|k: int| 20 <= k < j ==> is_digit(#[trigger] s@[k]),
    ensures
        m == frac_millis(s@, j as int),
        0 <= m <= 999,
{
    let ghost t = (s@.subrange(20, j as int) + seq!['0', '0']).take(3);
    let c0 = s[20];
    let c1 = if j > 21 {
        s[21]
    } else {
        '0'
    };
    let c2 = if j > 22 {
        s[22]
    } else {
        '0'
    };
    assert(t[0] == c0 && t[1] == c1 && t[2] == c2);
    assert(t.drop_last().drop_last().drop_last() =~= Seq::<char>::empty());
    assert(t.drop_last().drop_last() =~= seq![c0]);
    assert(t.drop_last() =~= seq![c0, c1]);
    reveal_with_fuel(digits_value, 4);
    let v0 = (c0 as u32 - 48) as i64;
    let v1 = (c1 as u32 - 48) as i64;
    let v2 = (c2 as u32 - 48) as i64;
    assert(digits_value(seq![c0]) == v0);
    assert(digits_value(seq![c0, c1]) == v0 * 10 + v1);
    v0 * 100 + v1 * 10 + v2
}

/// The zone designator at `s[i..]`, as `offset_minutes` reads it.
fn offset_minutes_exec(s: &[char], i: usize) -> (r: Option<i64>)
    requires
        i <= s@.len(),
    ensures
        r matches Some(v) ==> offset_minutes(s@, i as int) == Some(v as int) && -100_000 <= v
            <= 100_000,
        r is None ==> offset_minutes(s@, i as int) is None,
{
    if i < s.len() && (s[i] == 'Z' || s[i] == 'z') {
        if i + 1 == s.len() {
            Some(0)
        } else {
            None
        }
    } else if i < s.len() && (s[i] == '+' || s[i] == '-') {
        let ghost rest = s@.subrange(i + 1, s@.len() as int);
        if s.len() - (i + 1) != 5 || s[i + 3] != ':' {
            return None;
        }
        assert(rest.subrange(0, 2) =~= s@.subrange(i + 1, i + 3));
        assert(rest.subrange(3, 5) =~= s@.subrange(i + 4, i + 6));
        proof {
            lemma_short_parse_bounds(s@.subrange(i + 1, i + 3));
            lemma_short_parse_bounds(s@.subrange(i + 4, i + 6));
        }
        let oh = match parse_i32_at(s, i + 1, i + 3) {
            Some(v) => v,
            None => return None,
        };
        let om = match parse_i32_at(s, i + 4, i + 6) {
            Some(v) => v,
            None => return None,
        };
        if oh > 23 || om > 59 {
            return None;
        }
        let total = (oh as i64) * 60 + (om as i64);
        if s[i] == '-' {
            Some(-total)
        } else {
            Some(total)
        }
    } else {
        None
    }
}

/// Milliseconds of an RFC 3339 instant, as `rfc3339_millis` reads it.
#[verifier::rlimit(40)]
pub fn parse_rfc3339_millis(s: &[char]) -> (r: Option<i64>)
    ensures
        r matches Some(v) ==> rfc3339_millis(s@) == Some(v as int) && -ms_bound() <= v
            <= ms_bound(),
        r is None ==> rfc3339_millis(s@) is None,
{
    if s.len() < 20 || !all_ascii_exec(s) {
        return None;
    }
    let ymd = parse_ymd_at(s, 0);
    assert(s@.subrange(0, 10) =~= s@.subrange(0, 10));
    let hh = parse_u32_at(s, 11, 13);
    let mm = parse_u32_at(s, 14, 16);
    let ss = parse_u32_at(s, 17, 19);
    let (y, mo, d) = match ymd {
        Some(t) => t,
        None => return None,
    };
    let (hh, mm, ss) = match (hh, mm, ss) {
        (Some(a), Some(b), Some(c)) => (a, b, c),
        _ => return None,
    };
    if !(s[10] == 'T' || s[10] == 't') || s[13] != ':' || s[16] != ':' || hh > 23 || mm > 59 || ss
        > 60 {
        return None;
    }
    let has_frac = s[19] == '.';
    let j = if has_frac {
        digit_run_end_exec(s, 20)
    } else {
        19
    };
    if has_frac && j == 20 {
        return None;
    }
    let millis: i64 = if has_frac {
        proof {
            lemma_digit_run_end(s@, 20);
        }
        frac_millis_exec(s, j)
    } else {
        0
    };
    let off = match offset_minutes_exec(s, j) {
        Some(o) => o,
        None => return None,
    };
    proof {
        assert(s@.subrange(0, 10).subrange(0, 4) =~= s@.subrange(0, 4));
        lemma_short_parse_bounds(s@.subrange(0, 4));
    }
    let days = days_from_civil_exec(y as i64, mo as i64, d as i64);
    proof {
        lemma_days_from_civil_bound(y as int, mo as int, d as int);
    }
    let local = days * 86400 + (hh as i64) * 3600 + (mm as i64) * 60 + (ss as i64);
    let total = (local - off * 60) * 1000 + millis;
    assert(-ms_bound() <= total <= ms_bound());
    Some(total)
}

proof fn lemma_days_from_civil_bound(y: int, m: int, d: int)
    requires
        -1000 < y < 10000,
        1 <= m <= 12,
        1 <= d <= 31,
    ensures
        -2_000_000 <= days_from_civil(y, m, d) <= 4_000_000,
{
}

/// Append `n` as `format!("{n:0w$}")` would.
pub fn push_pad_signed(out: &mut String, n: i64, w: usize)
    requires
        n > i64::MIN,
    ensures
        final(out)@ == old(out)@ + dec_pad_signed(n as int, w as nat),
{
    if n < 0 {
        out.push('-');
        let w1 = if w > 0 {
            w - 1
        } else {
            0
        };
        push_dec_pad(out, (0 - n) as u64, w1);
        assert(out@ =~= old(out)@ + dec_pad_signed(n as int, w as nat));
    } else {
        push_dec_pad(out, n as u64, w);
    }
}

/// Date and time of day of UTC milliseconds.
fn civil_parts(ms: i64) -> (r: (i64, i64, i64, i64, i64))
    ensures
        ({
            let secs = (ms as int) / 1000;
            let (y, m, d) = civil_from_days(secs / 86400);
            r.0 == y && r.1 == m && r.2 == d && r.3 == secs % 86400 && r.4 == (ms as int) % 1000
        }),
        -1_000_000_000_000 <= r.0 <= 1_000_000_000_000,
        -1_000_000 <= r.1 <= 1_000_000,
        -1_000_000 <= r.2 <= 1_000_000,
        0 <= r.3 < 86400,
        0 <= r.4 < 1000,
{
    let (secs, milli) = div_mod_floor(ms as i128, 1000);
    let (days, sod) = div_mod_floor(secs, 86400);
    proof {
        assert(-10_000_000_000_000_000 <= secs <= 10_000_000_000_000_000) by (nonlinear_arith)
            requires
                secs == (ms as int) / 1000,
                i64::MIN <= ms <= i64::MAX,
        ;
        assert(-1_000_000_000_000 <= days <= 1_000_000_000_000) by (nonlinear_arith)
            requires
                days == (secs as int) / 86400,
                -10_000_000_000_000_000 <= secs <= 10_000_000_000_000_000,
        ;
    }
    let (y, m, d) = civil_from_days_exec(days as i64);
    proof {
        lemma_civil_bounds(days as int);
    }
    (y, m, d, sod as i64, milli as i64)
}

proof fn lemma_civil_bounds(z: int)
    requires
        -1_000_000_000_000 <= z <= 1_000_000_000_000,
    ensures
        -1_000_000_000_000 <= civil_from_days(z).0 <= 1_000_000_000_000,
        -1_000_000 <= civil_from_days(z).1 <= 1_000_000,
        -1_000_000 <= civil_from_days(z).2 <= 1_000_000,
{
    let z2 = z + 719468;
    lemma_floor_adjust(z2, 146097);
    vstd::arithmetic::div_mod::lemma_fundamental_div_mod(z2, 146097);
    let era = z2 / 146097;
    let doe = z2 - era * 146097;
    assert(0 <= doe < 146097);
    assert(-10_000_000 <= era <= 10_000_000) by (nonlinear_arith)
        requires
            era == z2 / 146097,
            -1_000_000_000_000 <= z2 <= 1_000_001_000_000,
    ;
    let n = doe - tdiv(doe, 1460) + tdiv(doe, 36524) - tdiv(doe, 146096);
    assert(0 <= n <= 150000);
    let yoe = tdiv(n, 365);
    assert(0 <= yoe <= 500);
    let doy = doe - (365 * yoe + tdiv(yoe, 4) - tdiv(yoe, 100));
    assert(-200000 <= doy <= 200000);
    let mp = tdiv(5 * doy + 2, 153);
    assert(-10000 <= mp <= 10000);
    let t = tdiv(153 * mp + 2, 5);
    assert(-400000 <= t <= 400000);
}

/// `YYYY-MM-DDTHH:MM:SS.mmmZ` for UTC milliseconds.
pub fn format_utc_millis(ms: i64) -> (out: String)
    ensures
        out@ == utc_text(ms as int),
{
    let (y, m, d, sod, milli) = civil_parts(ms);
    let mut out = String::new();
    push_pad_signed(&mut out, y, 4);
    out.push('-');
    push_pad_signed(&mut out, m, 2);
    out.push('-');
    push_pad_signed(&mut out, d, 2);
    out.push('T');
    push_dec_pad(&mut out, (sod / 3600) as u64, 2);
    out.push(':');
    push_dec_pad(&mut out, ((sod % 3600) / 60) as u64, 2);
    out.push(':');
    push_dec_pad(&mut out, (sod % 60) as u64, 2);
    out.push('.');
    push_dec_pad(&mut out, milli as u64, 3);
    out.push('Z');
    assert(out@ =~= utc_text(ms as int));
    out
}

/// `YYYYMMDDTHHMMSSZ` for UTC milliseconds.
pub fn format_ics_utc(ms: i64) -> (out: String)
    ensures
        out@ == ics_utc_text(ms as int),
{
    let (y, m, d, sod, _milli) = civil_parts(ms);
    let mut out = String::new();
    push_pad_signed(&mut out, y, 4);
    push_pad_signed(&mut out, m, 2);
    push_pad_signed(&mut out, d, 2);
    out.push('T');
    push_dec_pad(&mut out, (sod / 3600) as u64, 2);
    push_dec_pad(&mut out, ((sod % 3600) / 60) as u64, 2);
    push_dec_pad(&mut out, (sod % 60) as u64, 2);
    out.push('Z');
    assert(out@ =~= ics_utc_text(ms as int));
    out
}

pub open spec fn invalid_date_message(value: Seq<char>) -> Seq<char> {
    "invalid date: "@ + value
}

pub open spec fn invalid_all_day_message(value: Seq<char>) -> Seq<char> {
    "invalid all-day date: "@ + value
}

fn message(prefix: &str, value: &str) -> (out: String)
    ensures
        out@ == prefix@ + value@,
{
    let mut out = String::new();
    out.push_str(prefix);
    out.push_str(value);
    out
}

/// Instant → `YYYYMMDDTHHMMSSZ`.
pub fn to_ics_utc(iso: &str) -> (r: Result<String, String>)
    ensures
        r matches Ok(t) ==> rfc3339_millis(iso@) matches Some(ms) && t@ == ics_utc_text(ms),
        r matches Err(e) ==> rfc3339_millis(iso@) is None && e@ == invalid_date_message(iso@),
{
    let v = chars_of(iso);
    match parse_rfc3339_millis(v.as_slice()) {
        Some(ms) => Ok(format_ics_utc(ms)),
        None => Err(message("invalid date: ", iso)),
    }
}

/// Calendar date `YYYY-MM-DD` → `YYYYMMDD`.
pub fn to_ics_date(ymd: &str) -> (r: Result<String, String>)
    ensures
        r matches Ok(t) ==> ymd_of(ymd@) matches Some((y, m, d)) && t@ == ymd_compact_text(
            y,
            m,
            d,
        ),
        r matches Err(e) ==> ymd_of(ymd@) is None && e@ == invalid_all_day_message(ymd@),
{
    let v = chars_of(ymd);
    if v.len() != 10 {
        return Err(message("invalid all-day date: ", ymd));
    }
    assert(v@.subrange(0, 10) =~= v@);
    match parse_ymd_at(v.as_slice(), 0) {
        Some((y, m, d)) => {
            let mut out = String::new();
            push_pad_signed(&mut out, y as i64, 4);
            push_pad_signed(&mut out, m as i64, 2);
            push_pad_signed(&mut out, d as i64, 2);
            assert(out@ =~= ymd_compact_text(y as int, m as int, d as int));
            Ok(out)
        },
        None => Err(message("invalid all-day date: ", ymd)),
    }
}

/// The date `add` days after a valid date.
pub open spec fn add_days(y: int, m: int, d: int, add: int) -> (int, int, int) {
    civil_from_days(days_from_civil(y, m, d) + add)
}

/// Exclusive next DATE for all-day DTEND.
pub fn next_date(ymd: &str) -> (r: Result<String, String>)
    ensures
        r matches Ok(t) ==> ymd_of(ymd@) matches Some((y, m, d)) && t@ == ({
            let (y2, m2, d2) = add_days(y, m, d, 1);
            ymd_text(y2, m2, d2)
        }),
        r matches Err(e) ==> ymd_of(ymd@) is None && e@ == invalid_all_day_message(ymd@),
{
    let v = chars_of(ymd);
    if v.len() != 10 {
        return Err(message("invalid all-day date: ", ymd));
    }
    assert(v@.subrange(0, 10) =~= v@);
    match parse_ymd_at(v.as_slice(), 0) {
        Some((y, m, d)) => {
            proof {
                assert(v@.subrange(0, 10).subrange(0, 4) =~= v@.subrange(0, 4));
                lemma_short_parse_bounds(v@.subrange(0, 4));
                lemma_days_from_civil_bound(y as int, m as int, d as int);
            }
            let z = days_from_civil_exec(y as i64, m as i64, d as i64) + 1;
            let (y2, m2, d2) = civil_from_days_exec(z);
            proof {
                lemma_civil_bounds(z as int);
            }
            let mut out = String::new();
            push_pad_signed(&mut out, y2, 4);
            out.push('-');
            push_pad_signed(&mut out, m2, 2);
            out.push('-');
            push_pad_signed(&mut out, d2, 2);
            assert(out@ =~= ymd_text(y2 as int, m2 as int, d2 as int));
            Ok(out)
        },
        None => Err(message("invalid all-day date: ", ymd)),
    }
}

/// The current instant, `YYYY-MM-DDTHH:MM:SS.mmmZ`.
pub fn now_iso() -> (out: String)
    ensures
        exists|ms: i64| out@ == utc_text(ms as int),
{
    let ms = crate::util::unix_millis();
    format_utc_millis(ms)
}

/// The normalized UTC form of an RFC 3339 instant, if it is one.
pub fn parse_instant(value: &str) -> (r: Option<String>)
    ensures
        r matches Some(t) ==> instant_text(value@) == Some(t@),
        r is None ==> instant_text(value@) is None,
{
    let v = chars_of(value);
    match parse_rfc3339_millis(v.as_slice()) {
        Some(ms) => Some(format_utc_millis(ms)),
        None => None,
    }
}

/// One hour after a stored instant.
pub fn add_hour(iso: &str) -> (out: String)
    requires
        rfc3339_millis(iso@) is Some,
    ensures
        out@ == utc_text(rfc3339_millis(iso@).unwrap() + 3_600_000),
{
    let v = chars_of(iso);
    let ms = parse_rfc3339_millis(v.as_slice()).unwrap();
    format_utc_millis(ms + 3_600_000)
}


/// Milliseconds of an RFC 3339 instant.
pub fn instant_millis(value: &str) -> (r: Option<i64>)
    ensures
        r matches Some(ms) ==> rfc3339_millis(value@) == Some(ms as int) && -ms_bound() <= ms
            <= ms_bound(),
        r is None ==> rfc3339_millis(value@) is None,
{
    let v = chars_of(value);
    parse_rfc3339_millis(v.as_slice())
}

// ---- reading back what was written ----------------------------------------------------


proof fn lemma_era_split(doe: int)
    requires
        0 <= doe <= 146096,
    ensures
        ({
            let yoe = (doe - doe / 1460 + doe / 36524 - doe / 146096) / 365;
            let doy = doe - (365 * yoe + yoe / 4 - yoe / 100);
            &&& 0 <= yoe <= 399
            &&& 0 <= doy <= 365
            &&& doy == 365 ==> (yoe + 1) % 4 == 0 && ((yoe + 1) % 100 != 0 || (yoe + 1) % 400 == 0)
        }),
{
}

proof fn lemma_month_split(doy: int)
    requires
        0 <= doy <= 365,
    ensures
        ({
            let mp = (5 * doy + 2) / 153;
            let d = doy - (153 * mp + 2) / 5 + 1;
            let m = if mp < 10 { mp + 3 } else { mp - 9 };
            &&& 0 <= mp <= 11
            &&& 1 <= m <= 12
            &&& 1 <= d
            &&& (153 * (m + if m > 2 { -3int } else { 9int }) + 2) / 5 + d - 1 == doy
            &&& (m == 1 || m == 3 || m == 5 || m == 7 || m == 8 || m == 10 || m == 12 ==> d <= 31)
            &&& (m == 4 || m == 6 || m == 9 || m == 11 ==> d <= 30)
            &&& (m == 2 ==> d <= 28 || (d == 29 && doy == 365))
        }),
{
}

/// The civil date of a day number is a real date, and its day number is
/// that day again.
#[verifier::rlimit(60)]
#[verifier::spinoff_prover]
pub proof fn lemma_civil_roundtrip(z: int)
    ensures
        ({
            let (y, m, d) = civil_from_days(z);
            valid_date(y, m, d) && days_from_civil(y, m, d) == z
        }),
{
    let zz = z + 719468;
    let era = tdiv(if zz >= 0 { zz } else { zz - 146096 }, 146097);
    let doe = zz - era * 146097;
    assert(0 <= doe <= 146096);
    assert(tdiv(doe, 1460) == doe / 1460);
    assert(tdiv(doe, 36524) == doe / 36524);
    assert(tdiv(doe, 146096) == doe / 146096);
    let yoe = (doe - doe / 1460 + doe / 36524 - doe / 146096) / 365;
    lemma_era_split(doe);
    assert(tdiv(doe - tdiv(doe, 1460) + tdiv(doe, 36524) - tdiv(doe, 146096), 365) == yoe);
    let doy = doe - (365 * yoe + yoe / 4 - yoe / 100);
    assert(tdiv(yoe, 4) == yoe / 4 && tdiv(yoe, 100) == yoe / 100);
    lemma_month_split(doy);
    let mp = (5 * doy + 2) / 153;
    assert(tdiv(5 * doy + 2, 153) == mp);
    let d = doy - (153 * mp + 2) / 5 + 1;
    assert(tdiv(153 * mp + 2, 5) == (153 * mp + 2) / 5);
    let m = if mp < 10 { mp + 3 } else { mp - 9 };
    let y1 = yoe + era * 400;
    let y = y1 + if m <= 2 { 1int } else { 0int };
    assert(civil_from_days(z) == (y, m, d));
    // back
    let yb = if m <= 2 { y - 1 } else { y };
    assert(yb == y1);
    let era2 = tdiv(if yb >= 0 { yb } else { yb - 399 }, 400);
    assert(era2 == era);
    if m == 2 && d == 29 {
        assert((y % 4 == 0 && (y % 100 != 0 || y % 400 == 0)));
    }
}

/// `YYYY-MM-DDTHH:MM:SS.mmmZ` of its parts.
pub open spec fn stamp_text(y: nat, m: nat, d: nat, hh: nat, mm: nat, ss: nat, milli: nat) -> Seq<char> {
    dec_pad(y, 4) + seq!['-'] + dec_pad(m, 2) + seq!['-'] + dec_pad(d, 2) + seq!['T'] + dec_pad(hh, 2) + seq![
        ':',
    ] + dec_pad(mm, 2) + seq![':'] + dec_pad(ss, 2) + seq!['.'] + dec_pad(milli, 3) + seq!['Z']
}

#[verifier::spinoff_prover]
proof fn lemma_stamp_shape(y: nat, m: nat, d: nat, hh: nat, mm: nat, ss: nat, milli: nat)
    requires
        y < 10000,
        m < 100,
        d < 100,
        hh < 100,
        mm < 100,
        ss < 100,
        milli < 1000,
    ensures
        ({
            let s = stamp_text(y, m, d, hh, mm, ss, milli);
            &&& s.len() == 24
            &&& all_ascii(s)
            &&& s[4] == '-' && s[7] == '-' && s[10] == 'T' && s[13] == ':' && s[16] == ':' && s[19] == '.' && s[23] == 'Z'
            &&& s.subrange(0, 10) == dec_pad(y, 4) + seq!['-'] + dec_pad(m, 2) + seq!['-'] + dec_pad(d, 2)
            &&& s.subrange(11, 13) == dec_pad(hh, 2)
            &&& s.subrange(14, 16) == dec_pad(mm, 2)
            &&& s.subrange(17, 19) == dec_pad(ss, 2)
            &&& s.subrange(20, 23) == dec_pad(milli, 3)
        }),
{
    lemma_pad4(y);
    lemma_pad2(m);
    lemma_pad2(d);
    lemma_pad2(hh);
    lemma_pad2(mm);
    lemma_pad2(ss);
    lemma_pad3(milli);
    let s = stamp_text(y, m, d, hh, mm, ss, milli);
    assert(s.subrange(0, 10) =~= dec_pad(y, 4) + seq!['-'] + dec_pad(m, 2) + seq!['-'] + dec_pad(d, 2));
    assert(s.subrange(11, 13) =~= dec_pad(hh, 2));
    assert(s.subrange(14, 16) =~= dec_pad(mm, 2));
    assert(s.subrange(17, 19) =~= dec_pad(ss, 2));
    assert(s.subrange(20, 23) =~= dec_pad(milli, 3));
    assert forall|k: int| 0 <= k < s.len() implies is_ascii_char(#[trigger] s[k]) by {
        if k < 4 {
            assert(s[k] == dec_pad(y, 4)[k]);
        } else if 5 <= k < 7 {
            assert(s[k] == dec_pad(m, 2)[k - 5]);
        } else if 8 <= k < 10 {
            assert(s[k] == dec_pad(d, 2)[k - 8]);
        } else if 11 <= k < 13 {
            assert(s[k] == dec_pad(hh, 2)[k - 11]);
        } else if 14 <= k < 16 {
            assert(s[k] == dec_pad(mm, 2)[k - 14]);
        } else if 17 <= k < 19 {
            assert(s[k] == dec_pad(ss, 2)[k - 17]);
        } else if 20 <= k < 23 {
            assert(s[k] == dec_pad(milli, 3)[k - 20]);
        }
    }
}

#[verifier::spinoff_prover]
proof fn lemma_ymd_text(y: nat, m: nat, d: nat)
    requires
        y < 10000,
        valid_date(y as int, m as int, d as int),
    ensures
        ymd_of(dec_pad(y, 4) + seq!['-'] + dec_pad(m, 2) + seq!['-'] + dec_pad(d, 2)) == Some((y as int, m as int, d as int)),
{
    lemma_pad4(y);
    lemma_pad2(m);
    lemma_pad2(d);
    let t = dec_pad(y, 4) + seq!['-'] + dec_pad(m, 2) + seq!['-'] + dec_pad(d, 2);
    assert(t.subrange(0, 4) =~= dec_pad(y, 4));
    assert(t.subrange(5, 7) =~= dec_pad(m, 2));
    assert(t.subrange(8, 10) =~= dec_pad(d, 2));
    assert forall|k: int| 0 <= k < t.len() implies is_ascii_char(#[trigger] t[k]) by {
        if k < 4 {
            assert(t[k] == dec_pad(y, 4)[k]);
        } else if 5 <= k < 7 {
            assert(t[k] == dec_pad(m, 2)[k - 5]);
        } else if 8 <= k < 10 {
            assert(t[k] == dec_pad(d, 2)[k - 8]);
        }
    }
    assert(parse_i32_spec(dec_pad(y, 4)) == Some(y as int));
    assert(parse_u32_spec(dec_pad(m, 2)) == Some(m as int));
    assert(parse_u32_spec(dec_pad(d, 2)) == Some(d as int));
}

#[verifier::rlimit(60)]
#[verifier::spinoff_prover]
proof fn lemma_stamp_parses(y: nat, m: nat, d: nat, hh: nat, mm: nat, ss: nat, milli: nat)
    requires
        y < 10000,
        valid_date(y as int, m as int, d as int),
        hh <= 23,
        mm <= 59,
        ss <= 59,
        milli < 1000,
    ensures
        rfc3339_millis(stamp_text(y, m, d, hh, mm, ss, milli)) == Some(
            (days_from_civil(y as int, m as int, d as int) * 86400 + hh * 3600 + mm * 60 + ss) * 1000 + milli,
        ),
{
    let s = stamp_text(y, m, d, hh, mm, ss, milli);
    lemma_stamp_shape(y, m, d, hh, mm, ss, milli);
    lemma_ymd_text(y, m, d);
    lemma_pad2(hh);
    lemma_pad2(mm);
    lemma_pad2(ss);
    lemma_pad3(milli);
    assert(parse_u32_spec(dec_pad(hh, 2)) == Some(hh as int));
    assert(parse_u32_spec(dec_pad(mm, 2)) == Some(mm as int));
    assert(parse_u32_spec(dec_pad(ss, 2)) == Some(ss as int));
    assert forall|k: int| 20 <= k < 23 implies is_digit(#[trigger] s[k]) by {
        assert(s.subrange(20, 23)[k - 20] == dec_pad(milli, 3)[k - 20]);
    }
    lemma_digit_run_to(s, 20, 23);
    assert((s.subrange(20, 23) + seq!['0', '0']).take(3) =~= dec_pad(milli, 3));
    assert(frac_millis(s, 23) == milli);
    assert(offset_minutes(s, 23) == Some(0int));
}

/// An instant written out reads back as the same instant, for the years 0
/// through 9999 (whose years take four digits).
#[verifier::rlimit(60)]
#[verifier::spinoff_prover]
pub proof fn lemma_utc_text_roundtrip(ms: int)
    requires
        0 <= civil_from_days((ms / 1000) / 86400).0 <= 9999,
    ensures
        rfc3339_millis(utc_text(ms)) == Some(ms),
        utc_text(ms).len() == 24,
{
    let secs = ms / 1000;
    let milli = ms % 1000;
    let days = secs / 86400;
    let (y, m, d) = civil_from_days(days);
    let sod = secs % 86400;
    lemma_civil_roundtrip(days);
    let hh = sod / 3600;
    let mm = (sod % 3600) / 60;
    let ss = sod % 60;
    lemma_pad4(y as nat);
    lemma_pad2(m as nat);
    lemma_pad2(d as nat);
    assert(dec_pad_signed(y, 4) == dec_pad(y as nat, 4));
    assert(dec_pad_signed(m, 2) == dec_pad(m as nat, 2));
    assert(dec_pad_signed(d, 2) == dec_pad(d as nat, 2));
    assert(utc_text(ms) =~= stamp_text(y as nat, m as nat, d as nat, hh as nat, mm as nat, ss as nat, milli as nat));
    lemma_stamp_parses(y as nat, m as nat, d as nat, hh as nat, mm as nat, ss as nat, milli as nat);
    lemma_stamp_shape(y as nat, m as nat, d as nat, hh as nat, mm as nat, ss as nat, milli as nat);
    assert(hh * 3600 + mm * 60 + ss == sod);
    assert(days * 86400 + sod == secs);
    assert(secs * 1000 + milli == ms);
}


/// Instants whose year is written with four digits: 0 through 9999.
pub open spec fn four_digit_year(ms: int) -> bool {
    0 <= civil_from_days((ms / 1000) / 86400).0 <= 9999
}

/// Normalizing an instant again changes nothing, for the years 0 through
/// 9999.
pub proof fn lemma_instant_text_idempotent(s: Seq<char>)
    requires
        rfc3339_millis(s) matches Some(ms) && four_digit_year(ms),
    ensures
        instant_text(s) matches Some(t) && instant_text(t) == Some(t),
{
    lemma_utc_text_roundtrip(rfc3339_millis(s).unwrap());
}


/// `±HH:MM` as a zone designator.
pub open spec fn zone_text(sign: char, hh: nat, mm: nat) -> Seq<char> {
    seq![sign] + dec_pad(hh, 2) + seq![':'] + dec_pad(mm, 2)
}

proof fn lemma_two_digits_parse(n: nat)
    requires
        n < 100,
    ensures
        parse_i32_spec(dec_pad(n, 2)) == Some(n as int),
{
    lemma_pad2(n);
    let p = dec_pad(n, 2);
    assert(p[0] != '-' && p[0] != '+') by {
        assert(is_digit(p[0]));
    }
}

/// A zone offset moves the instant by its signed size: the same local time
/// at `+HH:MM` is that many minutes before the time at `Z`, and at `-HH:MM`
/// that many minutes after.
#[verifier::spinoff_prover]
pub proof fn lemma_offset_moves_instant(t: Seq<char>, hh: nat, mm: nat)
    requires
        hh <= 23,
        mm <= 59,
    ensures
        rfc3339_millis(t + seq!['Z']) matches Some(u) ==> rfc3339_millis(t + zone_text('+', hh, mm))
            == Some(u - (hh * 60 + mm) * 60000) && rfc3339_millis(t + zone_text('-', hh, mm))
            == Some(u + (hh * 60 + mm) * 60000),
{
    if rfc3339_millis(t + seq!['Z']) is Some {
        lemma_offset_text(t, '+', hh, mm);
        lemma_offset_text(t, '-', hh, mm);
    }
}

proof fn lemma_offset_text(t: Seq<char>, sign: char, hh: nat, mm: nat)
    requires
        hh <= 23,
        mm <= 59,
        sign == '+' || sign == '-',
        rfc3339_millis(t + seq!['Z']) is Some,
    ensures
        rfc3339_millis(t + zone_text(sign, hh, mm)) == Some(
            rfc3339_millis(t + seq!['Z']).unwrap() - (if sign == '+' {
                1int
            } else {
                -1int
            }) * (hh * 60 + mm) * 60000,
        ),
{
    let a = t + seq!['Z'];
    let z = zone_text(sign, hh, mm);
    let b = t + z;
    lemma_pad2(hh);
    lemma_pad2(mm);
    lemma_two_digits_parse(hh);
    lemma_two_digits_parse(mm);
    assert(z.len() == 6);
    assert(t.len() >= 19);
    // the fields before the zone are the same text
    assert(a.subrange(0, 10) =~= b.subrange(0, 10));
    assert(a.subrange(11, 13) =~= b.subrange(11, 13));
    assert(a.subrange(14, 16) =~= b.subrange(14, 16));
    assert(a.subrange(17, 19) =~= b.subrange(17, 19));
    assert(a[10] == b[10] && a[13] == b[13] && a[16] == b[16]);
    assert forall|k: int| 0 <= k < b.len() implies is_ascii_char(#[trigger] b[k]) by {
        if k < t.len() {
            assert(b[k] == a[k]);
        } else if k == t.len() {
            assert(b[k] == sign);
        } else if k == t.len() + 3 {
            assert(b[k] == z[3]);
        } else if k < t.len() + 3 {
            assert(b[k] == z[k - t.len()]);
            assert(z[k - t.len()] == dec_pad(hh, 2)[k - t.len() - 1]);
        } else {
            assert(b[k] == z[k - t.len()]);
            assert(z[k - t.len()] == dec_pad(mm, 2)[k - t.len() - 4]);
        }
    }
    // where the fraction ends: at the end of `t`
    let has_frac = a[19] == '.';
    let j = if has_frac {
        digit_run_end(a, 20)
    } else {
        19
    };
    if has_frac {
        lemma_digit_run_end(a, 20);
    }
    assert(j < a.len() && a[j] == 'Z' && j + 1 == a.len());
    assert(j == t.len());
    if t.len() > 19 {
        assert(a[19] == b[19]);
    } else {
        assert(a[19] == 'Z' && b[19] == sign);
    }
    if has_frac {
        assert forall|k: int| 20 <= k < j implies is_digit(#[trigger] b[k]) by {
            assert(b[k] == a[k]);
        }
        lemma_digit_run_to(b, 20, j);
        assert(a.subrange(20, j) =~= b.subrange(20, j));
    }
    // the zone
    let rest = b.subrange(j + 1, b.len() as int);
    assert(rest =~= dec_pad(hh, 2) + seq![':'] + dec_pad(mm, 2));
    assert(rest.subrange(0, 2) =~= dec_pad(hh, 2));
    assert(rest.subrange(3, 5) =~= dec_pad(mm, 2));
    assert(b[j] == sign);
}


/// A fraction of a second adds its milliseconds: `t.mmmZ` is `mmm`
/// milliseconds after `tZ`.
#[verifier::spinoff_prover]
pub proof fn lemma_fraction_adds_millis(t: Seq<char>, ms: nat)
    requires
        ms < 1000,
        t.len() == 19,
    ensures
        rfc3339_millis(t + seq!['Z']) matches Some(u) ==> rfc3339_millis(
            t + seq!['.'] + dec_pad(ms, 3) + seq!['Z'],
        ) == Some(u + ms),
{
    if rfc3339_millis(t + seq!['Z']) is Some {
        let a = t + seq!['Z'];
        let f = dec_pad(ms, 3);
        let b = t + seq!['.'] + f + seq!['Z'];
        lemma_pad3(ms);
        assert(f.len() == 3);
        assert(a.subrange(0, 10) =~= b.subrange(0, 10));
        assert(a.subrange(11, 13) =~= b.subrange(11, 13));
        assert(a.subrange(14, 16) =~= b.subrange(14, 16));
        assert(a.subrange(17, 19) =~= b.subrange(17, 19));
        assert(a[10] == b[10] && a[13] == b[13] && a[16] == b[16]);
        assert forall|k: int| 20 <= k < 23 implies is_digit(#[trigger] b[k]) by {
            assert(b[k] == f[k - 20]);
        }
        assert forall|k: int| 0 <= k < b.len() implies is_ascii_char(#[trigger] b[k]) by {
            if k < 19 {
                assert(b[k] == a[k]);
            } else if 20 <= k < 23 {
                assert(b[k] == f[k - 20]);
            }
        }
        assert(b[19] == '.' && b[23] == 'Z');
        lemma_digit_run_to(b, 20, 23);
        assert(b.subrange(20, 23) =~= f);
        assert((b.subrange(20, 23) + seq!['0', '0']).take(3) =~= f);
        assert(frac_millis(b, 23) == ms);
        assert(offset_minutes(b, 23) == Some(0int));
    }
}

} // verus!
