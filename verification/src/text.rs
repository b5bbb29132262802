//! Character-level building blocks shared by the parsers and renderers.
//!
//! Text is reasoned about as `Seq<char>` (the view of `str` and `String`).
//! Where the wire format counts octets, `utf8_len` gives the UTF-8 length.

use vstd::prelude::*;
use vstd::utf8::*;

verus! {

pub assume_specification[ std::string::String::push ](string: &mut std::string::String, ch: char)
    ensures
        final(string)@ == old(string)@.push(ch),
;

pub assume_specification[ std::string::String::push_str ](
    string: &mut std::string::String,
    s: &str,
)
    ensures
        final(string)@ == old(string)@ + s@,
;

// ---- character classes -------------------------------------------------------

pub open spec fn is_digit(c: char) -> bool {
    '0' <= c <= '9'
}

pub open spec fn digit_value(c: char) -> int {
    c as int - '0' as int
}

pub open spec fn is_ascii_char(c: char) -> bool {
    (c as u32) < 128
}

pub open spec fn is_upper(c: char) -> bool {
    'A' <= c <= 'Z'
}

pub open spec fn is_lower(c: char) -> bool {
    'a' <= c <= 'z'
}

pub open spec fn is_alnum(c: char) -> bool {
    is_digit(c) || is_upper(c) || is_lower(c)
}

pub open spec fn is_hex_digit(c: char) -> bool {
    is_digit(c) || ('a' <= c <= 'f') || ('A' <= c <= 'F')
}

pub open spec fn hex_value(c: char) -> int {
    if is_digit(c) {
        digit_value(c)
    } else if 'a' <= c <= 'f' {
        c as int - 'a' as int + 10
    } else {
        c as int - 'A' as int + 10
    }
}

/// `u8::is_ascii_whitespace` on the char: space, tab, LF, FF, CR.
pub open spec fn is_ascii_ws(c: char) -> bool {
    c == ' ' || c == '\t' || c == '\n' || c == '\x0C' || c == '\r'
}

/// The Unicode `White_Space` property, which `char::is_whitespace` tests.
pub open spec fn is_ws(c: char) -> bool {
    let u = c as u32;
    (0x09 <= u <= 0x0d) || u == 0x20 || u == 0x85 || u == 0xa0 || u == 0x1680 || (0x2000 <= u
        <= 0x200a) || u == 0x2028 || u == 0x2029 || u == 0x202f || u == 0x205f || u == 0x3000
}

/// General category `Cc`, which `char::is_control` tests.
pub open spec fn is_control(c: char) -> bool {
    let u = c as u32;
    u <= 0x1f || (0x7f <= u <= 0x9f)
}

pub open spec fn lower(c: char) -> char {
    if is_upper(c) {
        ((c as u32) + 32) as char
    } else {
        c
    }
}

pub open spec fn upper(c: char) -> char {
    if is_lower(c) {
        ((c as u32) - 32) as char
    } else {
        c
    }
}

pub open spec fn lower_seq(s: Seq<char>) -> Seq<char> {
    Seq::new(s.len(), |i: int| lower(s[i]))
}

pub open spec fn upper_seq(s: Seq<char>) -> Seq<char> {
    Seq::new(s.len(), |i: int| upper(s[i]))
}

pub open spec fn all_digits(s: Seq<char>) -> bool {
    forall|i: int| 0 <= i < s.len() ==> is_digit(#[trigger] s[i])
}

pub open spec fn all_ascii(s: Seq<char>) -> bool {
    forall|i: int| 0 <= i < s.len() ==> is_ascii_char(#[trigger] s[i])
}

/// Octets of the UTF-8 encoding, which is what `str::len` counts.
pub open spec fn utf8_len(s: Seq<char>) -> nat {
    encode_utf8(s).len()
}

pub open spec fn char_utf8_len(c: char) -> nat {
    let u = c as u32;
    if u < 0x80 {
        1
    } else if u < 0x800 {
        2
    } else if u < 0x10000 {
        3
    } else {
        4
    }
}

// ---- numbers -----------------------------------------------------------------

/// Value of a run of decimal digits.
pub open spec fn digits_value(s: Seq<char>) -> int
    decreases s.len(),
{
    if s.len() == 0 {
        0
    } else {
        digits_value(s.drop_last()) * 10 + digit_value(s.last())
    }
}

/// What `str::parse` gives for an unsigned integer type before its range check:
/// an optional `+`, then one or more digits.
pub open spec fn unsigned_text_value(s: Seq<char>) -> Option<int> {
    let body = if s.len() > 0 && s[0] == '+' {
        s.drop_first()
    } else {
        s
    };
    if body.len() > 0 && all_digits(body) {
        Some(digits_value(body))
    } else {
        None
    }
}

/// What `str::parse` gives for a signed integer type before its range check:
/// an optional `+` or `-`, then one or more digits.
pub open spec fn signed_text_value(s: Seq<char>) -> Option<int> {
    if s.len() > 0 && s[0] == '-' {
        let body = s.drop_first();
        if body.len() > 0 && all_digits(body) {
            Some(-digits_value(body))
        } else {
            None
        }
    } else {
        unsigned_text_value(s)
    }
}

/// `str::parse::<u32>()`.
pub open spec fn parse_u32_spec(s: Seq<char>) -> Option<int> {
    match unsigned_text_value(s) {
        Some(v) => if v <= u32::MAX {
            Some(v)
        } else {
            None
        },
        None => None,
    }
}

/// `str::parse::<i32>()`.
pub open spec fn parse_i32_spec(s: Seq<char>) -> Option<int> {
    match signed_text_value(s) {
        Some(v) => if i32::MIN <= v <= i32::MAX {
            Some(v)
        } else {
            None
        },
        None => None,
    }
}

pub open spec fn digit_char(d: int) -> char {
    (d + 48) as char
}

/// Decimal digits of `n`, no leading zeros (`"0"` for zero).
pub open spec fn dec(n: nat) -> Seq<char>
    decreases n,
{
    if n < 10 {
        seq![digit_char(n as int)]
    } else {
        dec(n / 10).push(digit_char((n % 10) as int))
    }
}

/// Decimal of a signed number, with `-` for negatives.
pub open spec fn dec_int(n: int) -> Seq<char> {
    if n < 0 {
        seq!['-'] + dec((-n) as nat)
    } else {
        dec(n as nat)
    }
}

pub open spec fn zeros(k: nat) -> Seq<char> {
    Seq::new(k, |i: int| '0')
}

/// `format!("{n:0w$}")` for a non-negative `n`.
pub open spec fn dec_pad(n: nat, w: nat) -> Seq<char> {
    if dec(n).len() >= w {
        dec(n)
    } else {
        zeros((w - dec(n).len()) as nat) + dec(n)
    }
}

pub proof fn lemma_dec_digits(n: nat)
    ensures
        all_digits(dec(n)),
        dec(n).len() >= 1,
        all_ascii(dec(n)),
        digits_value(dec(n)) == n,
    decreases n,
{
    if n < 10 {
        assert(digit_char(n as int) as int == n + 48);
        assert(dec(n).drop_last() =~= Seq::<char>::empty());
        assert(digits_value(Seq::<char>::empty()) == 0);
        assert(digits_value(dec(n)) == digits_value(dec(n).drop_last()) * 10 + digit_value(
            dec(n).last(),
        ));
    } else {
        assert(digit_char((n % 10) as int) as int == (n % 10) + 48);
        lemma_dec_digits(n / 10);
        let s = dec(n);
        assert(s.drop_last() =~= dec(n / 10));
        assert(s.last() == digit_char((n % 10) as int));
        assert(digits_value(s) == digits_value(dec(n / 10)) * 10 + (n % 10));
        assert forall|i: int| 0 <= i < s.len() implies is_digit(#[trigger] s[i]) && is_ascii_char(
            s[i],
        ) by {
            if i < s.len() - 1 {
                assert(s[i] == dec(n / 10)[i]);
            }
        }
    }
}

// ---- exec helpers ------------------------------------------------------------

/// The characters of `s`, in order.
pub fn chars_of(s: &str) -> (out: Vec<char>)
    ensures
        out@ == s@,
{
    let mut out: Vec<char> = Vec::new();
    for c in it: s.chars()
        invariant
            out@ == it.seq().take(it.index() as int),
            it.seq() == s@,
    {
        out.push(c);
    }
    out
}

/// A `String` holding exactly `chars`.
pub fn string_of(chars: &[char]) -> (out: String)
    ensures
        out@ == chars@,
{
    let mut out = String::new();
    let mut i: usize = 0;
    while i < chars.len()
        invariant
            i <= chars@.len(),
            out@ == chars@.take(i as int),
        decreases chars@.len() - i,
    {
        out.push(chars[i]);
        i = i + 1;
        assert(out@ =~= chars@.take(i as int));
    }
    assert(chars@.take(i as int) =~= chars@);
    out
}

/// Append `chars` to `out`.
pub fn push_chars(out: &mut String, chars: &[char])
    ensures
        final(out)@ == old(out)@ + chars@,
{
    let mut i: usize = 0;
    while i < chars.len()
        invariant
            i <= chars@.len(),
            out@ == old(out)@ + chars@.take(i as int),
        decreases chars@.len() - i,
    {
        out.push(chars[i]);
        i = i + 1;
        assert(out@ =~= old(out)@ + chars@.take(i as int));
    }
    assert(chars@.take(i as int) =~= chars@);
}

pub fn is_digit_exec(c: char) -> (b: bool)
    ensures
        b == is_digit(c),
{
    '0' <= c && c <= '9'
}

pub fn is_alnum_exec(c: char) -> (b: bool)
    ensures
        b == is_alnum(c),
{
    ('0' <= c && c <= '9') || ('A' <= c && c <= 'Z') || ('a' <= c && c <= 'z')
}

pub fn is_ascii_ws_exec(c: char) -> (b: bool)
    ensures
        b == is_ascii_ws(c),
{
    c == ' ' || c == '\t' || c == '\n' || c == '\x0C' || c == '\r'
}

pub fn is_ws_exec(c: char) -> (b: bool)
    ensures
        b == is_ws(c),
{
    let u = c as u32;
    (0x09 <= u && u <= 0x0d) || u == 0x20 || u == 0x85 || u == 0xa0 || u == 0x1680 || (0x2000 <= u
        && u <= 0x200a) || u == 0x2028 || u == 0x2029 || u == 0x202f || u == 0x205f || u == 0x3000
}

pub fn is_control_exec(c: char) -> (b: bool)
    ensures
        b == is_control(c),
{
    let u = c as u32;
    u <= 0x1f || (0x7f <= u && u <= 0x9f)
}

pub fn lower_exec(c: char) -> (r: char)
    ensures
        r == lower(c),
{
    if 'A' <= c && c <= 'Z' {
        let u = (c as u32) + 32;
        char_from(u)
    } else {
        c
    }
}

pub fn upper_exec(c: char) -> (r: char)
    ensures
        r == upper(c),
{
    if 'a' <= c && c <= 'z' {
        let u = (c as u32) - 32;
        char_from(u)
    } else {
        c
    }
}

/// An ASCII code point as a `char`.
pub fn char_from(u: u32) -> (c: char)
    requires
        u < 128,
    ensures
        c == u as char,
        c as u32 == u,
{
    (u as u8) as char
}

/// Append the decimal digits of `n`.
pub fn push_dec(out: &mut String, n: u64)
    ensures
        final(out)@ == old(out)@ + dec(n as nat),
    decreases n,
{
    if n >= 10 {
        push_dec(out, n / 10);
    }
    let d = (n % 10) as u32;
    out.push(char_from(d + 48));
    assert(out@ =~= old(out)@ + dec(n as nat));
}

/// Append `n` in decimal, left-padded with zeros to `w` digits.
pub fn push_dec_pad(out: &mut String, n: u64, w: usize)
    ensures
        final(out)@ == old(out)@ + dec_pad(n as nat, w as nat),
{
    let mut digits = String::new();
    push_dec(&mut digits, n);
    let len = digits.as_str().unicode_len();
    proof {
        lemma_dec_digits(n as nat);
    }
    if len < w {
        let mut k: usize = 0;
        while k < w - len
            invariant
                k <= w - len,
                len < w,
                out@ == old(out)@ + zeros(k as nat),
            decreases w - len - k,
        {
            out.push('0');
            k = k + 1;
            assert(out@ =~= old(out)@ + zeros(k as nat));
        }
    }
    out.push_str(digits.as_str());
    assert(out@ =~= old(out)@ + dec_pad(n as nat, w as nat));
}

/// Append `n` in decimal with a leading `-` when negative.
pub fn push_int(out: &mut String, n: i64)
    ensures
        final(out)@ == old(out)@ + dec_int(n as int),
{
    if n < 0 {
        out.push('-');
        let mag: u64 = if n == i64::MIN {
            9223372036854775808u64
        } else {
            (0 - n) as u64
        };
        push_dec(out, mag);
        assert(out@ =~= old(out)@ + dec_int(n as int));
    } else {
        push_dec(out, n as u64);
    }
}

pub proof fn lemma_digits_value_nonneg(s: Seq<char>)
    requires
        all_digits(s),
    ensures
        digits_value(s) >= 0,
    decreases s.len(),
{
    if s.len() > 0 {
        lemma_digits_value_nonneg(s.drop_last());
    }
}

/// A prefix of a digit run never has a larger value than the whole run.
pub proof fn lemma_digits_prefix_le(s: Seq<char>, k: int)
    requires
        all_digits(s),
        0 <= k <= s.len(),
    ensures
        digits_value(s.take(k)) <= digits_value(s),
    decreases s.len(),
{
    if k < s.len() {
        lemma_digits_prefix_le(s.drop_last(), k);
        assert(s.drop_last().take(k) =~= s.take(k));
        lemma_digits_value_nonneg(s.drop_last());
    } else {
        assert(s.take(k) =~= s);
    }
}

/// The value of the digits in `s[lo..hi]`, when they are one or more digits
/// worth at most `cap`.
pub fn parse_digits(s: &[char], lo: usize, hi: usize, cap: u64) -> (r: Option<u64>)
    requires
        lo <= hi <= s@.len(),
    ensures
        r is Some <==> (hi > lo && all_digits(s@.subrange(lo as int, hi as int)) && digits_value(
            s@.subrange(lo as int, hi as int),
        ) <= cap),
        r matches Some(v) ==> v == digits_value(s@.subrange(lo as int, hi as int)),
{
    if hi == lo {
        return None;
    }
    let ghost whole = s@.subrange(lo as int, hi as int);
    let mut v: u64 = 0;
    let mut i: usize = lo;
    while i < hi
        invariant
            lo <= i <= hi <= s@.len(),
            whole == s@.subrange(lo as int, hi as int),
            all_digits(s@.subrange(lo as int, i as int)),
            v == digits_value(s@.subrange(lo as int, i as int)),
            v <= cap,
        decreases hi - i,
    {
        let c = s[i];
        if !is_digit_exec(c) {
            assert(whole[i - lo] == c);
            return None;
        }
        let d = (c as u32 - '0' as u32) as u64;
        assert(s@.subrange(lo as int, i + 1).drop_last() =~= s@.subrange(lo as int, i as int));
        if d > cap || v > (cap - d) / 10 {
            proof {
                if d <= cap {
                    assert(v * 10 + d > cap) by (nonlinear_arith)
                        requires
                            v > (cap - d) / 10,
                            d <= cap,
                    ;
                }
                let k = (i + 1 - lo) as int;
                if all_digits(whole) {
                    assert(whole.take(k) =~= s@.subrange(lo as int, i + 1));
                    lemma_digits_prefix_le(whole, k);
                }
            }
            return None;
        }
        v = v * 10 + d;
        i = i + 1;
        assert(all_digits(s@.subrange(lo as int, i as int)));
    }
    Some(v)
}

/// `str::parse::<u32>()` on `s[lo..hi]`.
pub fn parse_u32_at(s: &[char], lo: usize, hi: usize) -> (r: Option<u32>)
    requires
        lo <= hi <= s@.len(),
    ensures
        r matches Some(v) ==> parse_u32_spec(s@.subrange(lo as int, hi as int)) == Some(v as int),
        r is None ==> parse_u32_spec(s@.subrange(lo as int, hi as int)) is None,
{
    let ghost t = s@.subrange(lo as int, hi as int);
    let start = if lo < hi && s[lo] == '+' {
        lo + 1
    } else {
        lo
    };
    assert(t.len() > 0 && t[0] == '+' ==> t.drop_first() =~= s@.subrange(start as int, hi as int));
    assert(!(t.len() > 0 && t[0] == '+') ==> t =~= s@.subrange(start as int, hi as int));
    match parse_digits(s, start, hi, 4294967295u64) {
        Some(v) => Some(v as u32),
        None => None,
    }
}

/// `str::parse::<i32>()` on `s[lo..hi]`.
pub fn parse_i32_at(s: &[char], lo: usize, hi: usize) -> (r: Option<i32>)
    requires
        lo <= hi <= s@.len(),
    ensures
        r matches Some(v) ==> parse_i32_spec(s@.subrange(lo as int, hi as int)) == Some(v as int),
        r is None ==> parse_i32_spec(s@.subrange(lo as int, hi as int)) is None,
{
    let ghost t = s@.subrange(lo as int, hi as int);
    if lo < hi && s[lo] == '-' {
        assert(t.drop_first() =~= s@.subrange(lo + 1, hi as int));
        match parse_digits(s, lo + 1, hi, 2147483648u64) {
            Some(v) => Some((0 - (v as i64)) as i32),
            None => {
                proof {
                    let b = t.drop_first();
                    if b.len() > 0 && all_digits(b) {
                        lemma_digits_value_nonneg(b);
                    }
                }
                None
            },
        }
    } else {
        let start = if lo < hi && s[lo] == '+' {
            lo + 1
        } else {
            lo
        };
        assert(t.len() > 0 && t[0] == '+' ==> t.drop_first() =~= s@.subrange(
            start as int,
            hi as int,
        ));
        assert(!(t.len() > 0 && t[0] == '+') ==> t =~= s@.subrange(start as int, hi as int));
        match parse_digits(s, start, hi, 2147483647u64) {
            Some(v) => Some(v as i32),
            None => None,
        }
    }
}

/// Index of the first char at or after `i` that is not a decimal digit.
pub open spec fn digit_run_end(s: Seq<char>, i: int) -> int
    decreases s.len() - i,
{
    if 0 <= i < s.len() && is_digit(s[i]) {
        digit_run_end(s, i + 1)
    } else {
        i
    }
}

pub proof fn lemma_digit_run_end(s: Seq<char>, i: int)
    requires
        0 <= i <= s.len(),
    ensures
        i <= digit_run_end(s, i) <= s.len(),
        forall|k: int| i <= k < digit_run_end(s, i) ==> is_digit(#[trigger] s[k]),
        digit_run_end(s, i) < s.len() ==> !is_digit(s[digit_run_end(s, i)]),
    decreases s.len() - i,
{
    if i < s.len() && is_digit(s[i]) {
        lemma_digit_run_end(s, i + 1);
    }
}

/// The run of digits from `i` ends at `e` when `s[i..e]` are digits and
/// `s[e]` is not.
pub proof fn lemma_digit_run_to(s: Seq<char>, i: int, e: int)
    requires
        0 <= i <= e <= s.len(),
        forall|k: int| i <= k < e ==> is_digit(#[trigger] s[k]),
        e == s.len() || !is_digit(s[e]),
    ensures
        digit_run_end(s, i) == e,
    decreases e - i,
{
    if i < e {
        lemma_digit_run_to(s, i + 1, e);
    }
}

pub fn digit_run_end_exec(s: &[char], i: usize) -> (j: usize)
    requires
        i <= s@.len(),
    ensures
        j as int == digit_run_end(s@, i as int),
{
    let mut j = i;
    while j < s.len() && is_digit_exec(s[j])
        invariant
            i <= j <= s@.len(),
            digit_run_end(s@, j as int) == digit_run_end(s@, i as int),
        decreases s@.len() - j,
    {
        j = j + 1;
    }
    j
}

pub fn all_ascii_exec(s: &[char]) -> (b: bool)
    ensures
        b == all_ascii(s@),
{
    let mut i: usize = 0;
    while i < s.len()
        invariant
            i <= s@.len(),
            forall|k: int| 0 <= k < i ==> is_ascii_char(#[trigger] s@[k]),
        decreases s@.len() - i,
    {
        if (s[i] as u32) >= 128 {
            return false;
        }
        i = i + 1;
    }
    true
}

pub open spec fn pow10(n: nat) -> int
    decreases n,
{
    if n == 0 {
        1
    } else {
        10 * pow10((n - 1) as nat)
    }
}

pub proof fn lemma_digits_value_bound(s: Seq<char>)
    requires
        all_digits(s),
    ensures
        0 <= digits_value(s) < pow10(s.len()),
    decreases s.len(),
{
    if s.len() > 0 {
        lemma_digits_value_bound(s.drop_last());
    }
}

/// Bounds on what `str::parse` can give for a short field.
pub proof fn lemma_short_parse_bounds(s: Seq<char>)
    requires
        s.len() <= 4,
    ensures
        parse_u32_spec(s) matches Some(v) ==> 0 <= v < 10000,
        parse_i32_spec(s) matches Some(v) ==> -1000 < v < 10000,
{
    reveal_with_fuel(pow10, 5);
    assert(pow10(0) == 1 && pow10(1) == 10 && pow10(2) == 100 && pow10(3) == 1000 && pow10(4)
        == 10000);
    if s.len() > 0 && all_digits(s) {
        lemma_digits_value_bound(s);
    }
    if s.len() > 0 && all_digits(s.drop_first()) {
        lemma_digits_value_bound(s.drop_first());
    }
}


// ---- searching, trimming, lengths -------------------------------------------

/// Index of the first `c` in `s`, or `s.len()` when there is none.
pub open spec fn find_char(s: Seq<char>, c: char) -> int
    decreases s.len(),
{
    if s.len() == 0 {
        0
    } else if s[0] == c {
        0
    } else {
        1 + find_char(s.drop_first(), c)
    }
}

pub proof fn lemma_find_char(s: Seq<char>, c: char)
    ensures
        0 <= find_char(s, c) <= s.len(),
        forall|k: int| 0 <= k < find_char(s, c) ==> #[trigger] s[k] != c,
        find_char(s, c) < s.len() ==> s[find_char(s, c)] == c,
    decreases s.len(),
{
    if s.len() > 0 && s[0] != c {
        lemma_find_char(s.drop_first(), c);
        assert forall|k: int| 0 <= k < find_char(s, c) implies #[trigger] s[k] != c by {
            if k > 0 {
                assert(s[k] == s.drop_first()[k - 1]);
            }
        }
    }
}

/// `find_char` is pinned down by the first occurrence.
pub proof fn lemma_find_char_at(s: Seq<char>, c: char, k: int)
    requires
        0 <= k <= s.len(),
        forall|j: int| 0 <= j < k ==> #[trigger] s[j] != c,
        k < s.len() ==> s[k] == c,
    ensures
        find_char(s, c) == k,
    decreases s.len(),
{
    if s.len() > 0 && k > 0 {
        assert forall|j: int| 0 <= j < k - 1 implies #[trigger] s.drop_first()[j] != c by {
            assert(s[j + 1] != c);
        }
        lemma_find_char_at(s.drop_first(), c, k - 1);
    }
}

/// First index in `s[lo..hi]` holding `c`, or `hi`.
pub fn find_char_exec(s: &[char], lo: usize, hi: usize, c: char) -> (j: usize)
    requires
        lo <= hi <= s@.len(),
    ensures
        lo <= j <= hi,
        j - lo == find_char(s@.subrange(lo as int, hi as int), c),
{
    let ghost t = s@.subrange(lo as int, hi as int);
    let mut j = lo;
    while j < hi && s[j] != c
        invariant
            lo <= j <= hi <= s@.len(),
            t == s@.subrange(lo as int, hi as int),
            forall|k: int| 0 <= k < j - lo ==> #[trigger] t[k] != c,
        decreases hi - j,
    {
        assert(t[j - lo] == s@[j as int]);
        j = j + 1;
    }
    proof {
        if j < hi {
            assert(t[j - lo] == s@[j as int]);
        }
        lemma_find_char_at(t, c, j - lo);
    }
    j
}

/// `s` without its leading whitespace (`str::trim_start`).
pub open spec fn trim_start(s: Seq<char>) -> Seq<char>
    decreases s.len(),
{
    if s.len() > 0 && is_ws(s[0]) {
        trim_start(s.drop_first())
    } else {
        s
    }
}

/// `s` without its trailing whitespace (`str::trim_end`).
pub open spec fn trim_end(s: Seq<char>) -> Seq<char>
    decreases s.len(),
{
    if s.len() > 0 && is_ws(s.last()) {
        trim_end(s.drop_last())
    } else {
        s
    }
}

/// `str::trim`.
pub open spec fn trim(s: Seq<char>) -> Seq<char> {
    trim_end(trim_start(s))
}

proof fn lemma_trim_start_from(s: Seq<char>, i: int)
    requires
        0 <= i <= s.len(),
        forall|k: int| 0 <= k < i ==> is_ws(#[trigger] s[k]),
    ensures
        trim_start(s) == trim_start(s.subrange(i, s.len() as int)),
    decreases i,
{
    if i > 0 {
        let t = s.drop_first();
        assert forall|k: int| 0 <= k < i - 1 implies is_ws(#[trigger] t[k]) by {
            assert(t[k] == s[k + 1]);
        }
        lemma_trim_start_from(t, i - 1);
        assert(t.subrange(i - 1, t.len() as int) =~= s.subrange(i, s.len() as int));
        assert(is_ws(s[0]));
    } else {
        assert(s.subrange(0, s.len() as int) =~= s);
    }
}

proof fn lemma_trim_end_to(s: Seq<char>, j: int)
    requires
        0 <= j <= s.len(),
        forall|k: int| j <= k < s.len() ==> is_ws(#[trigger] s[k]),
    ensures
        trim_end(s) == trim_end(s.subrange(0, j)),
    decreases s.len() - j,
{
    if j < s.len() {
        let t = s.drop_last();
        assert forall|k: int| j <= k < t.len() implies is_ws(#[trigger] t[k]) by {
            assert(t[k] == s[k]);
        }
        lemma_trim_end_to(t, j);
        assert(t.subrange(0, j) =~= s.subrange(0, j));
        assert(is_ws(s[s.len() - 1]));
    } else {
        assert(s.subrange(0, j) =~= s);
    }
}

/// Bounds `(lo, hi)` such that `s[lo..hi]` is `s` trimmed.
pub fn trim_bounds(s: &[char]) -> (r: (usize, usize))
    ensures
        r.0 <= r.1 <= s@.len(),
        s@.subrange(r.0 as int, r.1 as int) == trim(s@),
{
    let mut lo: usize = 0;
    while lo < s.len() && is_ws_exec(s[lo])
        invariant
            lo <= s@.len(),
            forall|k: int| 0 <= k < lo ==> is_ws(#[trigger] s@[k]),
        decreases s@.len() - lo,
    {
        lo = lo + 1;
    }
    let ghost u = s@.subrange(lo as int, s@.len() as int);
    proof {
        lemma_trim_start_from(s@, lo as int);
        assert(!(u.len() > 0 && is_ws(u[0])));
    }
    let mut hi: usize = s.len();
    while hi > lo && is_ws_exec(s[hi - 1])
        invariant
            lo <= hi <= s@.len(),
            u == s@.subrange(lo as int, s@.len() as int),
            forall|k: int| hi - lo <= k < u.len() ==> is_ws(#[trigger] u[k]),
        decreases hi,
    {
        assert(u[hi - 1 - lo] == s@[hi - 1]);
        hi = hi - 1;
    }
    proof {
        lemma_trim_end_to(u, hi - lo);
        let w = u.subrange(0, hi - lo);
        assert(w =~= s@.subrange(lo as int, hi as int));
        if w.len() > 0 {
            assert(w.last() == s@[hi - 1]);
        }
    }
    (lo, hi)
}

pub proof fn lemma_encode_utf8_concat(a: Seq<char>, b: Seq<char>)
    ensures
        encode_utf8(a + b) == encode_utf8(a) + encode_utf8(b),
    decreases a.len(),
{
    if a.len() > 0 {
        lemma_encode_utf8_concat(a.drop_first(), b);
        assert((a + b).drop_first() =~= a.drop_first() + b);
        assert(encode_utf8(a) + encode_utf8(b) =~= encode_scalar(a[0] as u32) + (encode_utf8(
            a.drop_first(),
        ) + encode_utf8(b)));
    } else {
        assert(a + b =~= b);
        assert(encode_utf8(a) + encode_utf8(b) =~= encode_utf8(b));
    }
}

pub proof fn lemma_utf8_len_push(a: Seq<char>, c: char)
    ensures
        utf8_len(a.push(c)) == utf8_len(a) + char_utf8_len(c),
{
    lemma_encode_utf8_concat(a, seq![c]);
    assert(a.push(c) =~= a + seq![c]);
    assert(seq![c].drop_first() =~= Seq::<char>::empty());
    assert(encode_utf8(seq![c]) =~= encode_scalar(c as u32) + encode_utf8(Seq::<char>::empty()));
}

/// Whether the UTF-8 length of `s[lo..hi]` exceeds `limit`.
pub fn utf8_len_exceeds(s: &[char], lo: usize, hi: usize, limit: usize) -> (b: bool)
    requires
        lo <= hi <= s@.len(),
        limit < usize::MAX - 4,
    ensures
        b == (utf8_len(s@.subrange(lo as int, hi as int)) > limit),
{
    let mut n: usize = 0;
    let mut i: usize = lo;
    assert(s@.subrange(lo as int, lo as int) =~= Seq::<char>::empty());
    while i < hi
        invariant
            lo <= i <= hi <= s@.len(),
            limit < usize::MAX - 4,
            n == utf8_len(s@.subrange(lo as int, i as int)),
            n <= limit,
        decreases hi - i,
    {
        let u = s[i] as u32;
        let w: usize = if u < 0x80 {
            1
        } else if u < 0x800 {
            2
        } else if u < 0x10000 {
            3
        } else {
            4
        };
        proof {
            lemma_utf8_len_push(s@.subrange(lo as int, i as int), s@[i as int]);
            assert(s@.subrange(lo as int, i as int).push(s@[i as int]) =~= s@.subrange(
                lo as int,
                i + 1,
            ));
        }
        n = n + w;
        i = i + 1;
        if n > limit {
            proof {
                lemma_utf8_len_monotone(s@.subrange(lo as int, hi as int), i - lo);
                assert(s@.subrange(lo as int, hi as int).take(i - lo) =~= s@.subrange(
                    lo as int,
                    i as int,
                ));
            }
            return true;
        }
    }
    false
}

pub proof fn lemma_utf8_len_monotone(s: Seq<char>, k: int)
    requires
        0 <= k <= s.len(),
    ensures
        utf8_len(s.take(k)) <= utf8_len(s),
    decreases s.len() - k,
{
    if k < s.len() {
        lemma_utf8_len_monotone(s, k + 1);
        lemma_utf8_len_push(s.take(k), s[k]);
        assert(s.take(k).push(s[k]) =~= s.take(k + 1));
    } else {
        assert(s.take(k) =~= s);
    }
}

/// A `String` holding the text of `s`.
pub fn owned(s: &str) -> (out: String)
    ensures
        out@ == s@,
{
    let mut out = String::new();
    out.push_str(s);
    assert(out@ =~= s@);
    out
}


/// The view of a `Result` whose both sides are text.
pub open spec fn text_result(r: Result<String, String>) -> Result<Seq<char>, Seq<char>> {
    match r {
        Ok(t) => Ok(t@),
        Err(e) => Err(e@),
    }
}

/// Whether `s[lo..hi]` is exactly `lit`.
pub fn text_eq(s: &[char], lo: usize, hi: usize, lit: &str) -> (b: bool)
    requires
        lo <= hi <= s@.len(),
    ensures
        b == (s@.subrange(lo as int, hi as int) == lit@),
{
    let l = chars_of(lit);
    if hi - lo != l.len() {
        return false;
    }
    let mut k: usize = 0;
    while k < l.len()
        invariant
            lo <= hi <= s@.len(),
            hi - lo == l@.len(),
            l@ == lit@,
            k <= l@.len(),
            forall|q: int| 0 <= q < k ==> s@[lo + q] == #[trigger] l@[q],
        decreases l@.len() - k,
    {
        if s[lo + k] != l[k] {
            assert(s@.subrange(lo as int, hi as int)[k as int] != lit@[k as int]);
            return false;
        }
        k = k + 1;
    }
    assert(s@.subrange(lo as int, hi as int) =~= lit@);
    true
}

/// Whether `s[lo..hi]`, in ASCII upper case, is exactly `lit`.
pub fn eq_upper(s: &[char], lo: usize, hi: usize, lit: &str) -> (b: bool)
    requires
        lo <= hi <= s@.len(),
    ensures
        b == (upper_seq(s@.subrange(lo as int, hi as int)) == lit@),
{
    let l = chars_of(lit);
    if hi - lo != l.len() {
        return false;
    }
    let mut k: usize = 0;
    while k < l.len()
        invariant
            lo <= hi <= s@.len(),
            hi - lo == l@.len(),
            l@ == lit@,
            k <= l@.len(),
            forall|q: int| 0 <= q < k ==> upper(s@[lo + q]) == #[trigger] l@[q],
        decreases l@.len() - k,
    {
        if upper_exec(s[lo + k]) != l[k] {
            assert(upper_seq(s@.subrange(lo as int, hi as int))[k as int] != lit@[k as int]);
            return false;
        }
        k = k + 1;
    }
    assert(upper_seq(s@.subrange(lo as int, hi as int)) =~= lit@);
    true
}

/// Append `s[lo..hi]` in ASCII upper case.
pub fn push_upper(out: &mut String, s: &[char], lo: usize, hi: usize)
    requires
        lo <= hi <= s@.len(),
    ensures
        final(out)@ == old(out)@ + upper_seq(s@.subrange(lo as int, hi as int)),
{
    let mut k: usize = lo;
    while k < hi
        invariant
            lo <= k <= hi <= s@.len(),
            out@ == old(out)@ + upper_seq(s@.subrange(lo as int, k as int)),
        decreases hi - k,
    {
        out.push(upper_exec(s[k]));
        k = k + 1;
        assert(out@ =~= old(out)@ + upper_seq(s@.subrange(lo as int, k as int)));
    }
}

/// Append `s[lo..hi]` as it is.
pub fn push_range(out: &mut String, s: &[char], lo: usize, hi: usize)
    requires
        lo <= hi <= s@.len(),
    ensures
        final(out)@ == old(out)@ + s@.subrange(lo as int, hi as int),
{
    let mut k: usize = lo;
    while k < hi
        invariant
            lo <= k <= hi <= s@.len(),
            out@ == old(out)@ + s@.subrange(lo as int, k as int),
        decreases hi - k,
    {
        out.push(s[k]);
        k = k + 1;
        assert(out@ =~= old(out)@ + s@.subrange(lo as int, k as int));
    }
}

/// Values of at most four digits stay under 10000.
pub proof fn lemma_small_digits(s: Seq<char>)
    requires
        all_digits(s),
        s.len() <= 4,
    ensures
        0 <= digits_value(s) < 10000,
{
    reveal_with_fuel(pow10, 5);
    lemma_digits_value_bound(s);
    assert(pow10(s.len()) <= 10000);
}


/// `char::from_u32`: the char whose code point is `n`, when `n` is a Unicode
/// scalar value (at most `0x10FFFF` and not a surrogate), and `None` otherwise,
/// as std documents it.
#[verifier::external_body]
pub(crate) fn char_of_code(n: u32) -> (r: Option<char>)
    ensures
        r matches Some(c) ==> c as u32 == n && c == (n as int) as char,
        r is None <==> (n > 0x10FFFF || (0xD800 <= n && n <= 0xDFFF)),
{
    char::from_u32(n)
}

/// `str::parse::<i64>()`.
pub open spec fn parse_i64_spec(s: Seq<char>) -> Option<int> {
    match signed_text_value(s) {
        Some(v) => if i64::MIN <= v <= i64::MAX {
            Some(v)
        } else {
            None
        },
        None => None,
    }
}

/// `str::parse::<i64>()` on `s[lo..hi]`.
pub fn parse_i64_at(s: &[char], lo: usize, hi: usize) -> (r: Option<i64>)
    requires
        lo <= hi <= s@.len(),
    ensures
        r matches Some(v) ==> parse_i64_spec(s@.subrange(lo as int, hi as int)) == Some(v as int),
        r is None ==> parse_i64_spec(s@.subrange(lo as int, hi as int)) is None,
{
    let ghost t = s@.subrange(lo as int, hi as int);
    if lo < hi && s[lo] == '-' {
        assert(t.drop_first() =~= s@.subrange(lo + 1, hi as int));
        match parse_digits(s, lo + 1, hi, 9223372036854775808u64) {
            Some(v) => {
                if v == 9223372036854775808u64 {
                    Some(i64::MIN)
                } else {
                    Some(0 - (v as i64))
                }
            },
            None => {
                proof {
                    let b = t.drop_first();
                    if b.len() > 0 && all_digits(b) {
                        lemma_digits_value_nonneg(b);
                    }
                }
                None
            },
        }
    } else {
        let start = if lo < hi && s[lo] == '+' {
            lo + 1
        } else {
            lo
        };
        assert(t.len() > 0 && t[0] == '+' ==> t.drop_first() =~= s@.subrange(
            start as int,
            hi as int,
        ));
        assert(!(t.len() > 0 && t[0] == '+') ==> t =~= s@.subrange(start as int, hi as int));
        match parse_digits(s, start, hi, 9223372036854775807u64) {
            Some(v) => Some(v as i64),
            None => None,
        }
    }
}


/// Whether two texts are equal.
pub fn str_eq(a: &str, b: &str) -> (r: bool)
    ensures
        r == (a@ == b@),
{
    let ac = chars_of(a);
    let r = text_eq(ac.as_slice(), 0, ac.len(), b);
    assert(ac@.subrange(0, ac@.len() as int) =~= ac@);
    r
}

/// `parts.join(sep)`.
pub open spec fn join_with(parts: Seq<Seq<char>>, sep: Seq<char>) -> Seq<char>
    decreases parts.len(),
{
    if parts.len() == 0 {
        Seq::empty()
    } else if parts.len() == 1 {
        parts[0]
    } else {
        join_with(parts.drop_last(), sep) + sep + parts.last()
    }
}

/// The texts of a sequence of strings.
pub open spec fn texts(v: Seq<String>) -> Seq<Seq<char>> {
    v.map_values(|t: String| t@)
}

/// The texts of a sequence of string slices.
pub open spec fn str_texts(v: Seq<&str>) -> Seq<Seq<char>> {
    v.map_values(|t: &str| t@)
}

/// `parts.join(sep)` on strings.
pub fn join_strings(parts: &[String], sep: &str) -> (out: String)
    ensures
        out@ == join_with(texts(parts@), sep@),
{
    let mut out = String::new();
    let mut i: usize = 0;
    while i < parts.len()
        invariant
            i <= parts@.len(),
            out@ == join_with(texts(parts@.take(i as int)), sep@),
        decreases parts@.len() - i,
    {
        if i > 0 {
            out.push_str(sep);
        }
        out.push_str(parts[i].as_str());
        proof {
            let t = texts(parts@.take(i + 1));
            assert(t.drop_last() =~= texts(parts@.take(i as int)));
            if i == 0 {
                assert(t.len() == 1);
            }
        }
        i = i + 1;
        assert(out@ =~= join_with(texts(parts@.take(i as int)), sep@));
    }
    assert(parts@.take(i as int) =~= parts@);
    out
}

/// `parts.join(sep)` on string slices.
pub fn join_strs(parts: &[&str], sep: &str) -> (out: String)
    ensures
        out@ == join_with(str_texts(parts@), sep@),
{
    let mut out = String::new();
    let mut i: usize = 0;
    while i < parts.len()
        invariant
            i <= parts@.len(),
            out@ == join_with(str_texts(parts@.take(i as int)), sep@),
        decreases parts@.len() - i,
    {
        if i > 0 {
            out.push_str(sep);
        }
        out.push_str(parts[i]);
        proof {
            let t = str_texts(parts@.take(i + 1));
            assert(t.drop_last() =~= str_texts(parts@.take(i as int)));
            if i == 0 {
                assert(t.len() == 1);
            }
        }
        i = i + 1;
        assert(out@ =~= join_with(str_texts(parts@.take(i as int)), sep@));
    }
    assert(parts@.take(i as int) =~= parts@);
    out
}


/// `a` followed by `b`.
pub fn concat(a: &str, b: &str) -> (out: String)
    ensures
        out@ == a@ + b@,
{
    let mut out = owned(a);
    out.push_str(b);
    out
}

/// Append `line` to `lines`.
pub fn push_line(lines: &mut Vec<String>, line: String)
    ensures
        texts(final(lines)@) == texts(old(lines)@).push(line@),
{
    lines.push(line);
    assert(texts(lines@) =~= texts(old(lines)@).push(line@));
}


/// `s` trimmed, as a new string.
pub fn trimmed(s: &str) -> (out: String)
    ensures
        out@ == trim(s@),
{
    let c = chars_of(s);
    let (lo, hi) = trim_bounds(c.as_slice());
    let mut out = String::new();
    push_range(&mut out, c.as_slice(), lo, hi);
    out
}

/// Whether the UTF-8 length of `s` is over `limit`.
pub fn utf8_longer_than(s: &str, limit: usize) -> (b: bool)
    requires
        limit < usize::MAX - 4,
    ensures
        b == (utf8_len(s@) > limit),
{
    let c = chars_of(s);
    let b = utf8_len_exceeds(c.as_slice(), 0, c.len(), limit);
    assert(c@.subrange(0, c@.len() as int) =~= c@);
    b
}


/// Two-digit zero padding of a number below 100.
pub proof fn lemma_pad2(n: nat)
    requires
        n < 100,
    ensures
        dec_pad(n, 2) == seq![digit_char((n / 10) as int), digit_char((n % 10) as int)],
        dec_pad(n, 2).len() == 2,
        all_digits(dec_pad(n, 2)),
        digits_value(dec_pad(n, 2)) == n,
{
    if n < 10 {
        assert(dec(n) == seq![digit_char(n as int)]);
        assert(zeros(1) =~= seq!['0']);
        assert(dec_pad(n, 2) =~= seq!['0', digit_char(n as int)]);
    } else {
        assert(dec(n / 10) == seq![digit_char((n / 10) as int)]);
        assert(dec(n) =~= seq![digit_char((n / 10) as int), digit_char((n % 10) as int)]);
    }
    let p = dec_pad(n, 2);
    assert(p.drop_last() =~= seq![p[0]]);
    assert(seq![p[0]].drop_last() =~= Seq::<char>::empty());
    assert(digits_value(Seq::<char>::empty()) == 0);
    assert(digits_value(seq![p[0]]) == digit_value(p[0]));
    assert(digit_value(p[0]) == n / 10);
    assert(digit_value(p[1]) == n % 10);
    assert(digits_value(p) == digits_value(p.drop_last()) * 10 + digit_value(p.last()));
}

/// Three-digit zero padding of a number below 1000.
pub proof fn lemma_pad3(n: nat)
    requires
        n < 1000,
    ensures
        dec_pad(n, 3) == seq![
            digit_char((n / 100) as int),
            digit_char((n / 10 % 10) as int),
            digit_char((n % 10) as int),
        ],
        dec_pad(n, 3).len() == 3,
        all_digits(dec_pad(n, 3)),
        digits_value(dec_pad(n, 3)) == n,
{
    let e = seq![digit_char((n / 100) as int), digit_char((n / 10 % 10) as int), digit_char((n % 10) as int)];
    if n < 10 {
        assert(dec(n) == seq![digit_char(n as int)]);
        assert(zeros(2) =~= seq!['0', '0']);
        assert(dec_pad(n, 3) =~= e);
    } else if n < 100 {
        assert(dec(n / 10) == seq![digit_char((n / 10) as int)]);
        assert(dec(n) =~= seq![digit_char((n / 10) as int), digit_char((n % 10) as int)]);
        assert(zeros(1) =~= seq!['0']);
        assert(dec_pad(n, 3) =~= e);
    } else {
        assert(dec(n / 100) == seq![digit_char((n / 100) as int)]);
        assert(dec(n / 10) =~= seq![digit_char((n / 100) as int), digit_char((n / 10 % 10) as int)]);
        assert(dec(n) =~= e);
    }
    let p = dec_pad(n, 3);
    assert(p.drop_last() =~= seq![p[0], p[1]]);
    assert(seq![p[0], p[1]].drop_last() =~= seq![p[0]]);
    assert(seq![p[0]].drop_last() =~= Seq::<char>::empty());
    assert(digits_value(Seq::<char>::empty()) == 0);
    assert(digits_value(seq![p[0]]) == digit_value(p[0]));
    assert(digits_value(seq![p[0], p[1]]) == digit_value(p[0]) * 10 + digit_value(p[1]));
    assert(digits_value(p) == digits_value(p.drop_last()) * 10 + digit_value(p.last()));
}

/// Four-digit zero padding of a number below 10000.
pub proof fn lemma_pad4(n: nat)
    requires
        n < 10000,
    ensures
        dec_pad(n, 4) == seq![
            digit_char((n / 1000) as int),
            digit_char((n / 100 % 10) as int),
            digit_char((n / 10 % 10) as int),
            digit_char((n % 10) as int),
        ],
        dec_pad(n, 4).len() == 4,
        all_digits(dec_pad(n, 4)),
        digits_value(dec_pad(n, 4)) == n,
{
    let e = seq![
        digit_char((n / 1000) as int),
        digit_char((n / 100 % 10) as int),
        digit_char((n / 10 % 10) as int),
        digit_char((n % 10) as int),
    ];
    if n < 10 {
        assert(dec(n) == seq![digit_char(n as int)]);
        assert(zeros(3) =~= seq!['0', '0', '0']);
        assert(dec_pad(n, 4) =~= e);
    } else if n < 100 {
        assert(dec(n / 10) == seq![digit_char((n / 10) as int)]);
        assert(dec(n) =~= seq![digit_char((n / 10) as int), digit_char((n % 10) as int)]);
        assert(zeros(2) =~= seq!['0', '0']);
        assert(dec_pad(n, 4) =~= e);
    } else if n < 1000 {
        assert(dec(n / 100) == seq![digit_char((n / 100) as int)]);
        assert(dec(n / 10) =~= seq![digit_char((n / 100) as int), digit_char((n / 10 % 10) as int)]);
        assert(dec(n) =~= seq![
            digit_char((n / 100) as int),
            digit_char((n / 10 % 10) as int),
            digit_char((n % 10) as int),
        ]);
        assert(zeros(1) =~= seq!['0']);
        assert(dec_pad(n, 4) =~= e);
    } else {
        assert(dec(n / 1000) == seq![digit_char((n / 1000) as int)]);
        assert(dec(n / 100) =~= seq![digit_char((n / 1000) as int), digit_char((n / 100 % 10) as int)]);
        assert(dec(n / 10) =~= seq![
            digit_char((n / 1000) as int),
            digit_char((n / 100 % 10) as int),
            digit_char((n / 10 % 10) as int),
        ]);
        assert(dec(n) =~= e);
    }
    let p = dec_pad(n, 4);
    assert(p.drop_last() =~= seq![p[0], p[1], p[2]]);
    assert(seq![p[0], p[1], p[2]].drop_last() =~= seq![p[0], p[1]]);
    assert(seq![p[0], p[1]].drop_last() =~= seq![p[0]]);
    assert(seq![p[0]].drop_last() =~= Seq::<char>::empty());
    assert(digits_value(Seq::<char>::empty()) == 0);
    assert(digits_value(seq![p[0]]) == digit_value(p[0]));
    assert(digits_value(seq![p[0], p[1]]) == digit_value(p[0]) * 10 + digit_value(p[1]));
    assert(digits_value(seq![p[0], p[1], p[2]]) == digits_value(seq![p[0], p[1]]) * 10 + digit_value(p[2]));
    assert(digits_value(p) == digits_value(p.drop_last()) * 10 + digit_value(p.last()));
}

/// `str::to_ascii_lowercase`.
pub fn ascii_lowercase(s: &str) -> (out: String)
    ensures
        out@ == lower_seq(s@),
{
    let c = chars_of(s);
    let mut out = String::new();
    let mut i: usize = 0;
    while i < c.len()
        invariant
            i <= c@.len(),
            c@ == s@,
            out@ == lower_seq(c@.take(i as int)),
        decreases c@.len() - i,
    {
        out.push(lower_exec(c[i]));
        i = i + 1;
        assert(out@ =~= lower_seq(c@.take(i as int)));
    }
    assert(c@.take(i as int) =~= c@);
    out
}

} // verus!
