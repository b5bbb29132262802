//! iCalendar (RFC 5545) output: escaping, line folding, VEVENT and VTODO.

use vstd::prelude::*;
use vstd::utf8::encode_utf8;
use crate::text::{lemma_utf8_len_monotone, char_utf8_len, chars_of, concat, dec_int, find_char, find_char_exec, is_control, is_control_exec, is_digit, is_digit_exec, join_strings, join_with, lemma_encode_utf8_concat, lemma_utf8_len_push, owned, push_int, push_line, push_range, str_eq, str_texts, texts, utf8_len};
use crate::tz::{is_utc, vtimezone_lines, zone_block};
use crate::util::{unix_millis};
use crate::time::{format_ics_utc, ics_utc_text, is_ymd, rfc3339_millis, to_ics_date, to_ics_utc, ymd_compact_text, ymd_of};

verus! {

// ---- TEXT escaping -----------------------------------------------------------------

/// How one char of a TEXT value is written: `\`, `;` and `,` get a backslash,
/// a line break becomes `\n`, tab passes, any other control char is dropped.
pub open spec fn escape_one(c: char) -> Seq<char> {
    if c == '\r' || c == '\n' {
        seq!['\\', 'n']
    } else if c == '\\' {
        seq!['\\', '\\']
    } else if c == ';' {
        seq!['\\', ';']
    } else if c == ',' {
        seq!['\\', ',']
    } else if is_control(c) && c != '\t' {
        Seq::empty()
    } else {
        seq![c]
    }
}

/// RFC 5545 TEXT escaping; a CR LF pair is one line break.
pub open spec fn escape_ics(s: Seq<char>) -> Seq<char>
    decreases s.len(),
{
    if s.len() == 0 {
        Seq::empty()
    } else if s.len() >= 2 && s[0] == '\r' && s[1] == '\n' {
        seq!['\\', 'n'] + escape_ics(s.skip(2))
    } else {
        escape_one(s[0]) + escape_ics(s.drop_first())
    }
}

/// RFC 5545 text escaping for SUMMARY / DESCRIPTION / LOCATION.
///
/// Newlines become the `\n` escape and tabs pass through. Any other control
/// character (NUL, bell, escape, DEL, C1) is dropped: TEXT allows none of
/// them, and calendar apps reject or truncate a feed that carries one.
pub fn escape_text(value: &str) -> (out: String)
    ensures
        out@ == escape_ics(value@),
{
    let s = chars_of(value);
    let mut out = String::new();
    let mut i: usize = 0;
    assert(s@.skip(0) =~= s@);
    while i < s.len()
        invariant
            i <= s@.len(),
            s@ == value@,
            escape_ics(value@) == out@ + escape_ics(s@.skip(i as int)),
        decreases s@.len() - i,
    {
        let ghost rest = s@.skip(i as int);
        let c = s[i];
        if c == '\r' && i + 1 < s.len() && s[i + 1] == '\n' {
            out.push('\\');
            out.push('n');
            assert(rest.skip(2) =~= s@.skip(i + 2));
            i = i + 2;
        } else {
            if c == '\r' || c == '\n' {
                out.push('\\');
                out.push('n');
            } else if c == '\\' {
                out.push('\\');
                out.push('\\');
            } else if c == ';' {
                out.push('\\');
                out.push(';');
            } else if c == ',' {
                out.push('\\');
                out.push(',');
            } else if is_control_exec(c) && c != '\t' {
            } else {
                out.push(c);
            }
            assert(rest.drop_first() =~= s@.skip(i + 1));
            i = i + 1;
        }
        assert(escape_ics(value@) =~= out@ + escape_ics(s@.skip(i as int)));
    }
    out
}

/// Escaped text holds no line break and no control char but tab: a value
/// cannot end its content line and start a property of its own.
pub proof fn lemma_escape_text_one_line(s: Seq<char>)
    ensures
        forall|k: int|
            0 <= k < escape_ics(s).len() ==> !is_control(#[trigger] escape_ics(s)[k])
                || escape_ics(s)[k] == '\t',
    decreases s.len(),
{
    if s.len() > 0 {
        let head = if s.len() >= 2 && s[0] == '\r' && s[1] == '\n' {
            seq!['\\', 'n']
        } else {
            escape_one(s[0])
        };
        let tail = if s.len() >= 2 && s[0] == '\r' && s[1] == '\n' {
            s.skip(2)
        } else {
            s.drop_first()
        };
        lemma_escape_text_one_line(tail);
        let e = escape_ics(s);
        assert(e =~= head + escape_ics(tail));
        assert forall|k: int| 0 <= k < e.len() implies !is_control(#[trigger] e[k]) || e[k] == '\t' by {
            if k < head.len() {
                assert(e[k] == head[k]);
            } else {
                assert(e[k] == escape_ics(tail)[k - head.len()]);
            }
        }
    }
}

// ---- line folding ------------------------------------------------------------------

/// How many leading chars of `s` fit in `limit` octets of UTF-8.
pub open spec fn prefix_fit(s: Seq<char>, limit: int) -> int
    decreases s.len(),
{
    if s.len() == 0 || char_utf8_len(s[0]) > limit {
        0
    } else {
        1 + prefix_fit(s.drop_first(), limit - char_utf8_len(s[0]))
    }
}

pub proof fn lemma_prefix_fit(s: Seq<char>, limit: int)
    ensures
        0 <= prefix_fit(s, limit) <= s.len(),
        utf8_len(s.take(prefix_fit(s, limit))) <= limit || prefix_fit(s, limit) == 0,
        limit >= 0 ==> utf8_len(s.take(prefix_fit(s, limit))) <= limit,
        prefix_fit(s, limit) < s.len() ==> utf8_len(s.take(prefix_fit(s, limit) + 1)) > limit,
        limit >= 4 && s.len() > 0 ==> prefix_fit(s, limit) >= 1,
    decreases s.len(),
{
    if s.len() > 0 && char_utf8_len(s[0]) <= limit {
        let t = s.drop_first();
        let l2 = limit - char_utf8_len(s[0]);
        lemma_prefix_fit(t, l2);
        let k = prefix_fit(t, l2);
        lemma_utf8_len_cons(s[0], t.take(k));
        assert(seq![s[0]] + t.take(k) =~= s.take(k + 1));
        if k < t.len() {
            lemma_utf8_len_cons(s[0], t.take(k + 1));
            assert(seq![s[0]] + t.take(k + 1) =~= s.take(k + 2));
        }
    } else {
        assert(s.take(0) =~= Seq::<char>::empty());
        assert(utf8_len(Seq::<char>::empty()) == 0);
        if s.len() > 0 {
            lemma_utf8_len_cons(s[0], Seq::<char>::empty());
            assert(seq![s[0]] + Seq::<char>::empty() =~= s.take(1));
        }
    }
}

pub proof fn lemma_utf8_len_cons(c: char, t: Seq<char>)
    ensures
        utf8_len(seq![c] + t) == char_utf8_len(c) + utf8_len(t),
{
    lemma_encode_utf8_concat(seq![c], t);
    lemma_utf8_len_push(Seq::<char>::empty(), c);
    assert(Seq::<char>::empty().push(c) =~= seq![c]);
    assert(utf8_len(Seq::<char>::empty()) == 0);
}

/// The pieces of a folded line: as many chars as fit in 75 octets, then in
/// 74 octets each (a continuation line starts with a space).
pub open spec fn fold_segments(s: Seq<char>, limit: int) -> Seq<Seq<char>>
    decreases s.len(),
{
    let k = prefix_fit(s, limit);
    if k >= s.len() || k <= 0 {
        seq![s]
    } else {
        seq![s.take(k)] + fold_segments(s.skip(k), 74)
    }
}

/// `fold_line(line)`.
pub open spec fn folded(s: Seq<char>) -> Seq<char> {
    join_with(fold_segments(s, 75), "\r\n "@)
}

proof fn lemma_join_cons(a: Seq<char>, rest: Seq<Seq<char>>, sep: Seq<char>)
    requires
        rest.len() > 0,
    ensures
        join_with(seq![a] + rest, sep) == a + sep + join_with(rest, sep),
    decreases rest.len(),
{
    let all = seq![a] + rest;
    assert(all.last() == rest.last());
    if rest.len() == 1 {
        assert(all.drop_last() =~= seq![a]);
        assert(join_with(seq![a], sep) == a);
        assert(rest =~= seq![rest[0]]);
        assert(join_with(rest, sep) == rest[0]);
        assert(join_with(all, sep) == a + sep + rest[0]);
    } else {
        lemma_join_cons(a, rest.drop_last(), sep);
        assert(all.drop_last() =~= seq![a] + rest.drop_last());
        assert(join_with(all, sep) =~= a + sep + join_with(rest, sep));
    }
}

/// Fold a content line at 75 octets. Continuations start with a space.
pub fn fold_line(line: &str) -> (out: String)
    ensures
        out@ == folded(line@),
{
    let s = chars_of(line);
    let mut out = String::new();
    let mut i: usize = 0;
    let mut limit: usize = 75;
    let ghost mut acc: Seq<Seq<char>> = Seq::empty();
    assert(s@.skip(0) =~= s@);
    loop
        invariant
            i <= s@.len(),
            s@ == line@,
            limit == 75 || limit == 74,
            i == 0 <==> limit == 75,
            i == 0 ==> out@ == Seq::<char>::empty(),
            i < s@.len() || s@.len() == 0,
            folded(line@) == (if i == 0 {
                join_with(fold_segments(s@, 75), "\r\n "@)
            } else {
                out@ + "\r\n "@ + join_with(fold_segments(s@.skip(i as int), 74), "\r\n "@)
            }),
        decreases s@.len() - i,
    {
        let ghost rest = s@.skip(i as int);
        let mut used: usize = 0;
        let mut end = i;
        loop
            invariant
                i <= end <= s@.len(),
                rest == s@.skip(i as int),
                limit == 75 || limit == 74,
                used <= limit,
                prefix_fit(rest, limit as int) == (end - i) + prefix_fit(
                    s@.skip(end as int),
                    limit - used,
                ),
            ensures
                prefix_fit(s@.skip(end as int), limit - used) == 0,
            decreases s@.len() - end,
        {
            if end >= s.len() {
                assert(s@.skip(end as int).len() == 0);
                break;
            }
            let u = s[end] as u32;
            let w: usize = if u < 0x80 {
                1
            } else if u < 0x800 {
                2
            } else if u < 0x10000 {
                3
            } else {
                4
            };
            if w > limit - used {
                assert(s@.skip(end as int)[0] == s@[end as int]);
                break;
            }
            assert(s@.skip(end as int).drop_first() =~= s@.skip(end + 1));
            used = used + w;
            end = end + 1;
        }
        proof {
            lemma_prefix_fit(rest, limit as int);
            assert(rest.take(end - i) =~= s@.subrange(i as int, end as int));
            assert(rest.skip(end - i) =~= s@.skip(end as int));
        }
        let ghost old_out = out@;
        if i > 0 {
            out.push_str("\r\n ");
        }
        push_range(&mut out, s.as_slice(), i, end);
        if end >= s.len() {
            proof {
                if i == 0 {
                    assert(s@.subrange(0, end as int) =~= s@);
                    assert(out@ =~= s@);
                } else {
                    assert(s@.subrange(i as int, end as int) =~= rest);
                }
            }
            return out;
        }
        proof {
            let segs = fold_segments(rest, limit as int);
            assert(segs == seq![rest.take(end - i)] + fold_segments(s@.skip(end as int), 74));
            lemma_join_cons(rest.take(end - i), fold_segments(s@.skip(end as int), 74), "\r\n "@);
            let tail = join_with(fold_segments(s@.skip(end as int), 74), "\r\n "@);
            if i == 0 {
                assert(rest =~= s@);
                assert(out@ =~= rest.take(end - i));
            } else {
                assert(out@ =~= old_out + "\r\n "@ + rest.take(end - i));
                assert(old_out + "\r\n "@ + (rest.take(end - i) + "\r\n "@ + tail) =~= out@ + "\r\n "@ + tail);
            }
        }
        i = end;
        limit = 74;
    }
}


/// Folding keeps the text and bounds the lines: the pieces of a folded line,
/// put back together, are the line; the first takes at most 75 octets and
/// every later one at most 74, so with its leading space each continuation
/// line also takes at most 75.
pub proof fn lemma_fold_segments(s: Seq<char>, limit: int)
    requires
        4 <= limit <= 75,
    ensures
        join_with(fold_segments(s, limit), Seq::empty()) == s,
        fold_segments(s, limit).len() >= 1,
        s.len() > 0 ==> utf8_len(fold_segments(s, limit)[0]) <= limit,
        forall|k: int|
            1 <= k < fold_segments(s, limit).len() ==> utf8_len(#[trigger] fold_segments(s, limit)[k]) <= 74,
    decreases s.len(),
{
    let k = prefix_fit(s, limit);
    lemma_prefix_fit(s, limit);
    if k >= s.len() || k <= 0 {
        assert(s.take(k) =~= s) by {
            if s.len() > 0 {
                assert(k == s.len());
            }
        }
        if s.len() == 0 {
            assert(fold_segments(s, limit) == seq![s]);
        }
    } else {
        let rest = fold_segments(s.skip(k), 74);
        lemma_fold_segments(s.skip(k), 74);
        lemma_join_cons(s.take(k), rest, Seq::empty());
        assert(s.take(k) + Seq::<char>::empty() + join_with(rest, Seq::empty()) =~= s);
        let all = fold_segments(s, limit);
        assert(all == seq![s.take(k)] + rest);
        assert forall|j: int| 1 <= j < all.len() implies utf8_len(#[trigger] all[j]) <= 74 by {
            assert(all[j] == rest[j - 1]);
            if j - 1 == 0 {
                assert(s.skip(k).len() > 0);
            }
        }
    }
}


/// No `\r\n` anywhere in `s`.
pub open spec fn no_crlf(s: Seq<char>) -> bool {
    forall|k: int| 0 <= k < s.len() - 1 ==> !(#[trigger] s[k] == '\r' && s[k + 1] == '\n')
}

/// `t` with every `\r\n ` taken out, from the left (`str::replace`).
pub open spec fn unfold_text(t: Seq<char>) -> Seq<char>
    decreases t.len(),
{
    if t.len() >= 3 && t[0] == '\r' && t[1] == '\n' && t[2] == ' ' {
        unfold_text(t.skip(3))
    } else if t.len() == 0 {
        Seq::empty()
    } else {
        seq![t[0]] + unfold_text(t.drop_first())
    }
}

/// The pieces of `t` between `\r\n` breaks (`str::split("\r\n")`).
pub open spec fn crlf_lines(t: Seq<char>) -> Seq<Seq<char>>
    decreases t.len(),
{
    if t.len() < 2 {
        seq![t]
    } else if t[0] == '\r' && t[1] == '\n' {
        seq![Seq::<char>::empty()] + crlf_lines(t.skip(2))
    } else {
        let r = crlf_lines(t.drop_first());
        r.update(0, seq![t[0]] + r[0])
    }
}

proof fn lemma_crlf_lines_len(t: Seq<char>)
    ensures
        crlf_lines(t).len() >= 1,
    decreases t.len(),
{
    if t.len() >= 2 {
        if t[0] == '\r' && t[1] == '\n' {
            lemma_crlf_lines_len(t.skip(2));
        } else {
            lemma_crlf_lines_len(t.drop_first());
        }
    }
}

proof fn lemma_no_crlf_tail(a: Seq<char>)
    requires
        no_crlf(a),
        a.len() > 0,
    ensures
        no_crlf(a.drop_first()),
{
    let b = a.drop_first();
    assert forall|k: int| 0 <= k < b.len() - 1 implies !(#[trigger] b[k] == '\r' && b[k + 1] == '\n') by {
        assert(b[k] == a[k + 1] && b[k + 1] == a[k + 2]);
        assert(!(a[k + 1] == '\r' && a[k + 2] == '\n'));
    }
}

/// Text with no `\r\n` in front keeps to the first piece and is kept by the
/// unfolding, unless its last `\r` meets a `\n`.
proof fn lemma_crlf_prefix(a: Seq<char>, y: Seq<char>)
    requires
        no_crlf(a),
        a.len() > 0 && a.last() == '\r' ==> y.len() == 0 || y[0] != '\n',
    ensures
        crlf_lines(a + y) == crlf_lines(y).update(0, a + crlf_lines(y)[0]),
        unfold_text(a + y) == a + unfold_text(y),
    decreases a.len(),
{
    lemma_crlf_lines_len(y);
    let t = a + y;
    if a.len() == 0 {
        assert(t =~= y);
        assert(a + crlf_lines(y)[0] =~= crlf_lines(y)[0]);
        assert(crlf_lines(y).update(0, crlf_lines(y)[0]) =~= crlf_lines(y));
    } else {
        assert(t[0] == a[0]);
        if a.len() >= 2 {
            assert(t[1] == a[1]);
            assert(!(a[0] == '\r' && a[1] == '\n'));
        } else {
            assert(a.last() == a[0]);
            if y.len() > 0 {
                assert(t[1] == y[0]);
            }
        }
        let a2 = a.drop_first();
        lemma_no_crlf_tail(a);
        if a2.len() > 0 {
            assert(a2.last() == a.last());
        }
        lemma_crlf_prefix(a2, y);
        assert(t.drop_first() =~= a2 + y);
        let l = crlf_lines(y);
        if t.len() < 2 {
            assert(y.len() == 0);
            assert(y =~= Seq::<char>::empty());
            assert(l =~= seq![y]);
            assert(crlf_lines(t) =~= l.update(0, a + l[0]));
        } else {
            let r = crlf_lines(t.drop_first());
            assert(r == l.update(0, a2 + l[0]));
            assert(seq![t[0]] + (a2 + l[0]) =~= a + l[0]);
            assert(r.update(0, seq![t[0]] + r[0]) =~= l.update(0, a + l[0]));
        }
        if t.len() >= 3 {
            assert(!(t[0] == '\r' && t[1] == '\n'));
        }
        assert(seq![t[0]] + (a2 + unfold_text(y)) =~= a + unfold_text(y));
    }
}

/// A first piece, then the pieces after it, each after `\r\n `.
pub open spec fn continued(a: Seq<char>, rest: Seq<Seq<char>>) -> Seq<char> {
    if rest.len() == 0 {
        a
    } else {
        a + "\r\n "@ + join_with(rest, "\r\n "@)
    }
}

/// The folded text of a first piece and the pieces after it, each after
/// `\r\n `: unfolding gives the pieces joined, and each line between breaks
/// takes at most 75 octets.
proof fn lemma_fold_text_pieces(a: Seq<char>, rest: Seq<Seq<char>>)
    requires
        no_crlf(a),
        utf8_len(a) <= 75,
        forall|k: int| 0 <= k < rest.len() ==> no_crlf(#[trigger] rest[k]) && utf8_len(rest[k]) <= 74,
    ensures
        unfold_text(continued(a, rest)) == a + join_with(rest, Seq::empty()),
        forall|k: int|
            0 <= k < crlf_lines(continued(a, rest)).len() ==> utf8_len(
                #[trigger] crlf_lines(continued(a, rest))[k],
            ) <= 75,
    decreases rest.len(),
{
    reveal_strlit("\r\n ");
    let sep = "\r\n "@;
    if rest.len() == 0 {
        lemma_crlf_prefix(a, Seq::empty());
        assert(a + Seq::<char>::empty() =~= a);
        assert(crlf_lines(Seq::<char>::empty()) =~= seq![Seq::<char>::empty()]);
        assert(join_with(rest, Seq::empty()) =~= Seq::<char>::empty());
        assert(unfold_text(Seq::<char>::empty()) =~= Seq::<char>::empty());
        let c = crlf_lines(a);
        assert(c =~= seq![a]);
    } else {
        let g = rest[0];
        let r2 = rest.drop_first();
        assert(rest =~= seq![g] + r2);
        let j = join_with(rest, sep);
        let je = join_with(rest, Seq::empty());
        if r2.len() > 0 {
            lemma_join_cons(g, r2, sep);
            lemma_join_cons(g, r2, Seq::empty());
        } else {
            assert(j == g);
            assert(je == g);
        }
        let tail = continued(g, r2);
        assert(j == tail);
        assert(je =~= g + join_with(r2, Seq::empty()));
        assert forall|k: int| 0 <= k < r2.len() implies no_crlf(#[trigger] r2[k]) && utf8_len(r2[k]) <= 74 by {
            assert(r2[k] == rest[k + 1]);
        }
        // unfolding
        lemma_fold_text_pieces(g, r2);
        let t = a + sep + j;
        lemma_crlf_prefix(a, sep + j);
        assert(t =~= a + (sep + j));
        assert((sep + j).skip(3) =~= j);
        assert(unfold_text(sep + j) == unfold_text(j));
        assert(unfold_text(t) =~= a + je);
        // the lines
        let sg = seq![' '] + g;
        assert(no_crlf(sg)) by {
            assert forall|k: int| 0 <= k < sg.len() - 1 implies !(#[trigger] sg[k] == '\r' && sg[k + 1] == '\n') by {
                if k > 0 {
                    assert(sg[k] == g[k - 1] && sg[k + 1] == g[k]);
                }
            }
        }
        lemma_utf8_len_cons(' ', g);
        lemma_fold_text_pieces(sg, r2);
        let t2 = continued(sg, r2);
        assert(seq![' '] + j =~= t2);
        let y = seq!['\r', '\n'] + t2;
        assert(sep + j =~= y);
        assert(y.skip(2) =~= t2);
        assert(crlf_lines(y) == seq![Seq::<char>::empty()] + crlf_lines(t2));
        let c = crlf_lines(t);
        assert(c == crlf_lines(y).update(0, a + crlf_lines(y)[0]));
        lemma_crlf_lines_len(t2);
        let c2 = crlf_lines(t2);
        assert forall|k: int| 0 <= k < c.len() implies utf8_len(#[trigger] c[k]) <= 75 by {
            if k == 0 {
                assert(crlf_lines(y)[0] =~= Seq::<char>::empty());
                assert(c[0] =~= a);
            } else {
                assert(crlf_lines(y)[k] == c2[k - 1]);
                assert(c[k] == c2[k - 1]);
                assert(utf8_len(c2[k - 1]) <= 75);
            }
        }
    }
}

proof fn lemma_segments_no_crlf(s: Seq<char>, limit: int)
    requires
        no_crlf(s),
    ensures
        forall|k: int| 0 <= k < fold_segments(s, limit).len() ==> no_crlf(#[trigger] fold_segments(s, limit)[k]),
    decreases s.len(),
{
    let k = prefix_fit(s, limit);
    lemma_prefix_fit(s, limit);
    if !(k >= s.len() || k <= 0) {
        let b = s.skip(k);
        assert(no_crlf(b)) by {
            assert forall|q: int| 0 <= q < b.len() - 1 implies !(#[trigger] b[q] == '\r' && b[q + 1] == '\n') by {
                assert(b[q] == s[q + k] && b[q + 1] == s[q + k + 1]);
            }
        }
        let a = s.take(k);
        assert(no_crlf(a)) by {
            assert forall|q: int| 0 <= q < a.len() - 1 implies !(#[trigger] a[q] == '\r' && a[q + 1] == '\n') by {
                assert(a[q] == s[q] && a[q + 1] == s[q + 1]);
            }
        }
        lemma_segments_no_crlf(b, 74);
        let all = fold_segments(s, limit);
        assert forall|q: int| 0 <= q < all.len() implies no_crlf(#[trigger] all[q]) by {
            if q > 0 {
                assert(all[q] == fold_segments(b, 74)[q - 1]);
            }
        }
    }
}

/// Folding a line without `\r\n` is undone by taking out every `\r\n `;
/// every line of the folded text takes at most 75 octets; and a line that
/// fits in 75 octets is left as it is.
pub proof fn lemma_fold_line_text(line: Seq<char>)
    requires
        no_crlf(line),
    ensures
        unfold_text(folded(line)) == line,
        forall|k: int| 0 <= k < crlf_lines(folded(line)).len() ==> utf8_len(#[trigger] crlf_lines(folded(line))[k]) <= 75,
        utf8_len(line) <= 75 ==> folded(line) == line,
{
    reveal_strlit("\r\n ");
    let segs = fold_segments(line, 75);
    lemma_fold_segments(line, 75);
    lemma_segments_no_crlf(line, 75);
    let a = segs[0];
    let rest = segs.drop_first();
    assert(segs =~= seq![a] + rest);
    if line.len() == 0 {
        assert(utf8_len(a) == 0) by {
            assert(a =~= Seq::<char>::empty());
            assert(encode_utf8(Seq::<char>::empty()) =~= Seq::<u8>::empty());
        }
    }
    assert forall|k: int| 0 <= k < rest.len() implies no_crlf(#[trigger] rest[k]) && utf8_len(rest[k]) <= 74 by {
        assert(rest[k] == segs[k + 1]);
    }
    lemma_fold_text_pieces(a, rest);
    if rest.len() > 0 {
        lemma_join_cons(a, rest, "\r\n "@);
        lemma_join_cons(a, rest, Seq::empty());
        assert(join_with(segs, Seq::empty()) =~= a + join_with(rest, Seq::empty()));
    } else {
        assert(join_with(rest, Seq::<char>::empty()) =~= Seq::<char>::empty());
        assert(a + Seq::<char>::empty() =~= a);
    }
    if utf8_len(line) <= 75 {
        let k = prefix_fit(line, 75);
        lemma_prefix_fit(line, 75);
        if k < line.len() {
            lemma_utf8_len_monotone(line, k + 1);
        }
    }
}

// ---- dates and times in content lines -------------------------------------------------

/// `to_ics_utc(s).unwrap_or_default()`.
pub open spec fn ics_utc_or_empty(s: Seq<char>) -> Seq<char> {
    match rfc3339_millis(s) {
        Some(ms) => ics_utc_text(ms),
        None => Seq::empty(),
    }
}

/// `to_ics_date(s).unwrap_or_default()`.
pub open spec fn ics_date_or_empty(s: Seq<char>) -> Seq<char> {
    match ymd_of(s) {
        Some((y, m, d)) => ymd_compact_text(y, m, d),
        None => Seq::empty(),
    }
}

/// A DTSTAMP-style UTC stamp of a stored instant; `now` stands in for one
/// that does not parse.
pub open spec fn stamp_text(iso: Seq<char>, now: int) -> Seq<char> {
    match rfc3339_millis(iso) {
        Some(ms) => ics_utc_text(ms),
        None => ics_utc_text(now),
    }
}

fn utc_or_empty(s: &str) -> (out: String)
    ensures
        out@ == ics_utc_or_empty(s@),
{
    match to_ics_utc(s) {
        Ok(t) => t,
        Err(_) => String::new(),
    }
}

fn date_or_empty(s: &str) -> (out: String)
    ensures
        out@ == ics_date_or_empty(s@),
{
    match to_ics_date(s) {
        Ok(t) => t,
        Err(_) => String::new(),
    }
}

fn stamp(iso: &str, now: i64) -> (out: String)
    ensures
        out@ == stamp_text(iso@, now as int),
{
    match to_ics_utc(iso) {
        Ok(t) => t,
        Err(_) => format_ics_utc(now),
    }
}

/// The ASCII digits of `s`, in order.
pub open spec fn digits_of(s: Seq<char>) -> Seq<char>
    decreases s.len(),
{
    if s.len() == 0 {
        Seq::empty()
    } else if is_digit(s.last()) {
        digits_of(s.drop_last()).push(s.last())
    } else {
        digits_of(s.drop_last())
    }
}

/// A wall-clock or instant text as `YYYYMMDDTHHMMSS`: the digits of the
/// date, then, when the time has digits, `T` and the first six of them.
pub open spec fn compact_wall_text(v: Seq<char>) -> Seq<char> {
    let i = find_char(v, 'T');
    let date = v.take(i);
    let time = if i < v.len() {
        v.skip(i + 1)
    } else {
        Seq::empty()
    };
    let td = digits_of(time);
    let t6 = if td.len() > 6 {
        td.take(6)
    } else {
        td
    };
    if t6.len() == 0 {
        digits_of(date)
    } else {
        digits_of(date) + seq!['T'] + t6
    }
}

fn push_digits(out: &mut String, s: &[char], lo: usize, hi: usize, max: usize)
    requires
        lo <= hi <= s@.len(),
    ensures
        final(out)@ == old(out)@ + (if digits_of(s@.subrange(lo as int, hi as int)).len() > max {
            digits_of(s@.subrange(lo as int, hi as int)).take(max as int)
        } else {
            digits_of(s@.subrange(lo as int, hi as int))
        }),
{
    let mut k = lo;
    let mut n: usize = 0;
    while k < hi
        invariant
            lo <= k <= hi <= s@.len(),
            n == (if digits_of(s@.subrange(lo as int, k as int)).len() > max {
                max as int
            } else {
                digits_of(s@.subrange(lo as int, k as int)).len() as int
            }),
            out@ == old(out)@ + digits_of(s@.subrange(lo as int, k as int)).take(n as int),
        decreases hi - k,
    {
        let ghost before = digits_of(s@.subrange(lo as int, k as int));
        assert(s@.subrange(lo as int, k + 1).drop_last() =~= s@.subrange(lo as int, k as int));
        if is_digit_exec(s[k]) {
            if n < max {
                out.push(s[k]);
                n = n + 1;
            }
        }
        k = k + 1;
        assert(out@ =~= old(out)@ + digits_of(s@.subrange(lo as int, k as int)).take(n as int));
    }
    assert(digits_of(s@.subrange(lo as int, hi as int)).len() <= max ==> digits_of(
        s@.subrange(lo as int, hi as int),
    ).take(n as int) =~= digits_of(s@.subrange(lo as int, hi as int)));
}

fn compact_wall(value: &str) -> (out: String)
    ensures
        out@ == compact_wall_text(value@),
{
    let v = chars_of(value);
    let i = find_char_exec(v.as_slice(), 0, v.len(), 'T');
    assert(v@.subrange(0, v@.len() as int) =~= v@);
    let mut date = String::new();
    push_digits(&mut date, v.as_slice(), 0, i, v.len());
    let mut time = String::new();
    let start = if i < v.len() {
        i + 1
    } else {
        v.len()
    };
    push_digits(&mut time, v.as_slice(), start, v.len(), 6);
    proof {
        lemma_digits_of_len(v@.subrange(0, i as int));
        assert(v@.subrange(0, i as int) =~= v@.take(i as int));
        if i < v.len() {
            assert(v@.subrange(i + 1, v@.len() as int) =~= v@.skip(i + 1));
        } else {
            assert(v@.subrange(start as int, v@.len() as int) =~= Seq::<char>::empty());
        }
    }
    if time.as_str().unicode_len() == 0 {
        date
    } else {
        date.push('T');
        date.push_str(time.as_str());
        date
    }
}

pub proof fn lemma_digits_of_len(s: Seq<char>)
    ensures
        digits_of(s).len() <= s.len(),
    decreases s.len(),
{
    if s.len() > 0 {
        lemma_digits_of_len(s.drop_last());
    }
}

/// A DTSTART-style property: a DATE for all-day, UTC (`Z`) with no zone or
/// `UTC`, otherwise wall-clock time with `TZID`.
pub open spec fn when_text(name: Seq<char>, value: Seq<char>, all_day: bool, tzid: Seq<char>) -> Seq<
    char,
> {
    if all_day {
        name + ";VALUE=DATE:"@ + ics_date_or_empty(value)
    } else if tzid.len() == 0 || tzid == "UTC"@ {
        name + ":"@ + compact_wall_text(value) + "Z"@
    } else {
        name + ";TZID="@ + tzid + ":"@ + compact_wall_text(value)
    }
}

fn ics_when(name: &str, value: &str, all_day: bool, tzid: &str) -> (out: String)
    ensures
        out@ == when_text(name@, value@, all_day, tzid@),
{
    if all_day {
        let mut out = concat(name, ";VALUE=DATE:");
        out.push_str(date_or_empty(value).as_str());
        return out;
    }
    if tzid.is_empty() || str_eq(tzid, "UTC") {
        let mut out = concat(name, ":");
        out.push_str(compact_wall(value).as_str());
        out.push_str("Z");
        out
    } else {
        let mut out = concat(name, ";TZID=");
        out.push_str(tzid);
        out.push_str(":");
        out.push_str(compact_wall(value).as_str());
        out
    }
}


// ---- events --------------------------------------------------------------------------

#[derive(Debug, Clone)]
pub struct IcsOverride {
    pub recurrence_id: String,
    pub summary: String,
    pub description: String,
    pub location: String,
    pub dtstart: String,
    pub dtend: String,
    pub all_day: bool,
    pub transparent: bool,
    pub sequence: i64,
    pub updated_at: String,
}

#[derive(Debug, Clone)]
pub struct IcsEvent {
    pub uid: String,
    pub summary: String,
    pub description: String,
    pub location: String,
    pub dtstart: String,
    pub dtend: String,
    pub all_day: bool,
    pub transparent: bool,
    pub sequence: i64,
    pub updated_at: String,
    pub rrule: String,
    pub tzid: String,
    pub exdates: Vec<String>,
    pub overrides: Vec<IcsOverride>,
}

/// One line, when `cond` holds.
pub open spec fn line_if(cond: bool, line: Seq<char>) -> Seq<Seq<char>> {
    if cond {
        seq![line]
    } else {
        Seq::empty()
    }
}

pub open spec fn is_utc_zone(zone: Seq<char>) -> bool {
    zone.len() == 0 || zone == "UTC"@
}

/// An EXDATE value in the form its event uses.
pub open spec fn exdate_text(d: Seq<char>, all_day: bool, zone: Seq<char>) -> Seq<char> {
    if all_day {
        ics_date_or_empty(d)
    } else if is_utc_zone(zone) {
        compact_wall_text(d) + "Z"@
    } else {
        compact_wall_text(d)
    }
}

pub open spec fn exdate_values(ds: Seq<Seq<char>>, all_day: bool, zone: Seq<char>) -> Seq<Seq<char>> {
    ds.map_values(|d: Seq<char>| exdate_text(d, all_day, zone))
}

pub open spec fn exdate_line(ds: Seq<Seq<char>>, all_day: bool, zone: Seq<char>) -> Seq<char> {
    let dates = join_with(exdate_values(ds, all_day, zone), ","@);
    if all_day {
        "EXDATE;VALUE=DATE:"@ + dates
    } else if is_utc_zone(zone) {
        "EXDATE:"@ + dates
    } else {
        "EXDATE;TZID="@ + zone + ":"@ + dates
    }
}

pub open spec fn vevent_head(
    uid: Seq<char>,
    summary: Seq<char>,
    sequence: int,
    updated_at: Seq<char>,
    now: int,
) -> Seq<Seq<char>> {
    seq![
        "BEGIN:VEVENT"@,
        "UID:"@ + uid,
        "DTSTAMP:"@ + stamp_text(updated_at, now),
        "LAST-MODIFIED:"@ + stamp_text(updated_at, now),
        "SEQUENCE:"@ + dec_int(sequence),
        "SUMMARY:"@ + escape_ics(summary),
    ]
}

pub open spec fn vevent_times(
    dtstart: Seq<char>,
    dtend: Seq<char>,
    all_day: bool,
    recurring: bool,
    zone: Seq<char>,
) -> Seq<Seq<char>> {
    if recurring {
        seq![when_text("DTSTART"@, dtstart, all_day, zone), when_text("DTEND"@, dtend, all_day, zone)]
    } else if all_day {
        seq![
            "DTSTART;VALUE=DATE:"@ + ics_date_or_empty(dtstart),
            "DTEND;VALUE=DATE:"@ + ics_date_or_empty(dtend),
        ]
    } else {
        seq!["DTSTART:"@ + ics_utc_or_empty(dtstart), "DTEND:"@ + ics_utc_or_empty(dtend)]
    }
}

pub open spec fn vevent_tail(
    description: Seq<char>,
    location: Seq<char>,
    all_day: bool,
    transparent: bool,
    rrule: Seq<char>,
    exdates: Seq<Seq<char>>,
    zone: Seq<char>,
) -> Seq<Seq<char>> {
    line_if(rrule.len() > 0, "RRULE:"@ + rrule) + line_if(
        exdates.len() > 0,
        exdate_line(exdates, all_day, zone),
    ) + line_if(location.len() > 0, "LOCATION:"@ + escape_ics(location)) + line_if(
        description.len() > 0,
        "DESCRIPTION:"@ + escape_ics(description),
    ) + seq![
        if transparent {
            "TRANSP:TRANSPARENT"@
        } else {
            "TRANSP:OPAQUE"@
        },
        "END:VEVENT"@,
    ]
}

/// The content lines of one VEVENT, before folding. A recurring event and
/// its overrides keep wall-clock times in the series' zone; a single event
/// is written in UTC or as dates.
pub open spec fn vevent_spec(
    uid: Seq<char>,
    summary: Seq<char>,
    description: Seq<char>,
    location: Seq<char>,
    dtstart: Seq<char>,
    dtend: Seq<char>,
    all_day: bool,
    transparent: bool,
    sequence: int,
    updated_at: Seq<char>,
    tzid: Seq<char>,
    recurrence_id: Option<Seq<char>>,
    rrule: Seq<char>,
    exdates: Seq<Seq<char>>,
    now: int,
) -> Seq<Seq<char>> {
    let recurring = rrule.len() > 0 || recurrence_id is Some;
    let zone = if recurring {
        tzid
    } else {
        Seq::empty()
    };
    vevent_head(uid, summary, sequence, updated_at, now) + (match recurrence_id {
        Some(rid) => seq![when_text("RECURRENCE-ID"@, rid, all_day, zone)],
        None => Seq::empty(),
    }) + vevent_times(dtstart, dtend, all_day, recurring, zone) + vevent_tail(
        description,
        location,
        all_day,
        transparent,
        rrule,
        exdates,
        zone,
    )
}

fn push_exdates(out: &mut String, exdates: &[String], all_day: bool, zone: &str)
    ensures
        final(out)@ == old(out)@ + join_with(exdate_values(texts(exdates@), all_day, zone@), ","@),
{
    let ghost ds = texts(exdates@);
    let mut i: usize = 0;
    let is_utc = zone.is_empty() || str_eq(zone, "UTC");
    while i < exdates.len()
        invariant
            i <= exdates@.len(),
            ds == texts(exdates@),
            is_utc == is_utc_zone(zone@),
            out@ == old(out)@ + join_with(exdate_values(ds.take(i as int), all_day, zone@), ","@),
        decreases exdates@.len() - i,
    {
        if i > 0 {
            out.push(',');
        }
        proof {
            reveal_strlit(",");
            reveal_strlit("Z");
        }
        let d = exdates[i].as_str();
        if all_day {
            out.push_str(date_or_empty(d).as_str());
        } else if is_utc {
            out.push_str(compact_wall(d).as_str());
            out.push('Z');
        } else {
            out.push_str(compact_wall(d).as_str());
        }
        proof {
            let t = exdate_values(ds.take(i + 1), all_day, zone@);
            assert(t.drop_last() =~= exdate_values(ds.take(i as int), all_day, zone@));
            assert(t.last() == exdate_text(exdates@[i as int]@, all_day, zone@));
            if i == 0 {
                assert(t.len() == 1);
            }
        }
        i = i + 1;
        assert(out@ =~= old(out)@ + join_with(exdate_values(ds.take(i as int), all_day, zone@), ","@));
    }
    assert(ds.take(i as int) =~= ds);
}

#[verifier::rlimit(40)]
fn push_head(lines: &mut Vec<String>, uid: &str, summary: &str, sequence: i64, updated_at: &str, now: i64)
    ensures
        texts(final(lines)@) == texts(old(lines)@) + vevent_head(
            uid@,
            summary@,
            sequence as int,
            updated_at@,
            now as int,
        ),
{
    push_line(lines, owned("BEGIN:VEVENT"));
    push_line(lines, concat("UID:", uid));
    push_line(lines, concat("DTSTAMP:", stamp(updated_at, now).as_str()));
    push_line(lines, concat("LAST-MODIFIED:", stamp(updated_at, now).as_str()));
    let mut seq_line = owned("SEQUENCE:");
    push_int(&mut seq_line, sequence);
    push_line(lines, seq_line);
    push_line(lines, concat("SUMMARY:", escape_text(summary).as_str()));
    assert(texts(lines@) =~= texts(old(lines)@) + vevent_head(
        uid@,
        summary@,
        sequence as int,
        updated_at@,
        now as int,
    ));
}

#[verifier::rlimit(40)]
fn push_times(lines: &mut Vec<String>, dtstart: &str, dtend: &str, all_day: bool, recurring: bool, zone: &str)
    ensures
        texts(final(lines)@) == texts(old(lines)@) + vevent_times(
            dtstart@,
            dtend@,
            all_day,
            recurring,
            zone@,
        ),
{
    if recurring {
        push_line(lines, ics_when("DTSTART", dtstart, all_day, zone));
        push_line(lines, ics_when("DTEND", dtend, all_day, zone));
    } else if all_day {
        push_line(lines, concat("DTSTART;VALUE=DATE:", date_or_empty(dtstart).as_str()));
        push_line(lines, concat("DTEND;VALUE=DATE:", date_or_empty(dtend).as_str()));
    } else {
        push_line(lines, concat("DTSTART:", utc_or_empty(dtstart).as_str()));
        push_line(lines, concat("DTEND:", utc_or_empty(dtend).as_str()));
    }
    assert(texts(lines@) =~= texts(old(lines)@) + vevent_times(
        dtstart@,
        dtend@,
        all_day,
        recurring,
        zone@,
    ));
}

fn push_exdate_line(lines: &mut Vec<String>, exdates: &[String], all_day: bool, zone: &str)
    ensures
        texts(final(lines)@) == texts(old(lines)@) + line_if(
            exdates@.len() > 0,
            exdate_line(texts(exdates@), all_day, zone@),
        ),
{
    if exdates.len() > 0 {
        let is_utc = zone.is_empty() || str_eq(zone, "UTC");
        let mut line = if all_day {
            owned("EXDATE;VALUE=DATE:")
        } else if is_utc {
            owned("EXDATE:")
        } else {
            let mut l = concat("EXDATE;TZID=", zone);
            l.push_str(":");
            l
        };
        push_exdates(&mut line, exdates, all_day, zone);
        push_line(lines, line);
    } else {
        assert(texts(lines@) =~= texts(old(lines)@) + Seq::<Seq<char>>::empty());
    }
}

#[verifier::rlimit(40)]
fn push_tail(
    lines: &mut Vec<String>,
    description: &str,
    location: &str,
    all_day: bool,
    transparent: bool,
    rrule: &str,
    exdates: &[String],
    zone: &str,
)
    ensures
        texts(final(lines)@) == texts(old(lines)@) + vevent_tail(
            description@,
            location@,
            all_day,
            transparent,
            rrule@,
            texts(exdates@),
            zone@,
        ),
{
    let ghost l0 = texts(lines@);
    if !rrule.is_empty() {
        push_line(lines, concat("RRULE:", rrule));
    }
    let ghost l1 = texts(lines@);
    push_exdate_line(lines, exdates, all_day, zone);
    let ghost l2 = texts(lines@);
    if !location.is_empty() {
        push_line(lines, concat("LOCATION:", escape_text(location).as_str()));
    }
    let ghost l3 = texts(lines@);
    if !description.is_empty() {
        push_line(lines, concat("DESCRIPTION:", escape_text(description).as_str()));
    }
    let ghost l4 = texts(lines@);
    if transparent {
        push_line(lines, owned("TRANSP:TRANSPARENT"));
    } else {
        push_line(lines, owned("TRANSP:OPAQUE"));
    }
    push_line(lines, owned("END:VEVENT"));
    proof {
        assert(l1 =~= l0 + line_if(rrule@.len() > 0, "RRULE:"@ + rrule@));
        assert(l2 =~= l1 + line_if(exdates@.len() > 0, exdate_line(texts(exdates@), all_day, zone@)));
        assert(l3 =~= l2 + line_if(location@.len() > 0, "LOCATION:"@ + escape_ics(location@)));
        assert(l4 =~= l3 + line_if(description@.len() > 0, "DESCRIPTION:"@ + escape_ics(description@)));
        assert(texts(lines@) =~= texts(old(lines)@) + vevent_tail(
            description@,
            location@,
            all_day,
            transparent,
            rrule@,
            texts(exdates@),
            zone@,
        ));
    }
}

pub open spec fn opt_text(o: Option<&str>) -> Option<Seq<char>> {
    match o {
        Some(r) => Some(r@),
        None => None,
    }
}

#[verifier::rlimit(40)]
fn vevent_lines(
    uid: &str,
    summary: &str,
    description: &str,
    location: &str,
    dtstart: &str,
    dtend: &str,
    all_day: bool,
    transparent: bool,
    sequence: i64,
    updated_at: &str,
    tzid: &str,
    recurrence_id: Option<&str>,
    rrule: &str,
    exdates: &[String],
    now: i64,
) -> (lines: Vec<String>)
    ensures
        texts(lines@) == vevent_spec(
            uid@,
            summary@,
            description@,
            location@,
            dtstart@,
            dtend@,
            all_day,
            transparent,
            sequence as int,
            updated_at@,
            tzid@,
            opt_text(recurrence_id),
            rrule@,
            texts(exdates@),
            now as int,
        ),
{
    let recurring = !rrule.is_empty() || recurrence_id.is_some();
    let zone = if recurring {
        tzid
    } else {
        ""
    };
    let mut lines: Vec<String> = Vec::new();
    assert(texts(lines@) =~= Seq::<Seq<char>>::empty());
    push_head(&mut lines, uid, summary, sequence, updated_at, now);
    let ghost l1 = texts(lines@);
    match recurrence_id {
        Some(rid) => {
            push_line(&mut lines, ics_when("RECURRENCE-ID", rid, all_day, zone));
        },
        None => {},
    }
    let ghost l2 = texts(lines@);
    proof {
        reveal_strlit("");
    }
    push_times(&mut lines, dtstart, dtend, all_day, recurring, zone);
    push_tail(&mut lines, description, location, all_day, transparent, rrule, exdates, zone);
    proof {
        let rid_lines = match recurrence_id {
            Some(rid) => seq![when_text("RECURRENCE-ID"@, rid@, all_day, zone@)],
            None => Seq::<Seq<char>>::empty(),
        };
        assert(l2 =~= l1 + rid_lines);
        let zv = if recurring { tzid@ } else { Seq::<char>::empty() };
        assert(zone@ == zv);
        assert(l1 =~= vevent_head(uid@, summary@, sequence as int, updated_at@, now as int));
        assert(texts(lines@) =~= l2 + vevent_times(dtstart@, dtend@, all_day, recurring, zv) + vevent_tail(
            description@,
            location@,
            all_day,
            transparent,
            rrule@,
            texts(exdates@),
            zv,
        ));
        assert(texts(lines@) =~= vevent_spec(
            uid@,
            summary@,
            description@,
            location@,
            dtstart@,
            dtend@,
            all_day,
            transparent,
            sequence as int,
            updated_at@,
            tzid@,
            opt_text(recurrence_id),
            rrule@,
            texts(exdates@),
            now as int,
        ));
    }
    lines
}


/// Each line folded.
pub open spec fn fold_all(ls: Seq<Seq<char>>) -> Seq<Seq<char>> {
    ls.map_values(|l: Seq<char>| folded(l))
}

/// The VEVENTs of each override, in order, in the zone of their series.
pub open spec fn override_lines(ev: IcsEvent, overs: Seq<IcsOverride>, now: int) -> Seq<Seq<char>>
    decreases overs.len(),
{
    if overs.len() == 0 {
        Seq::empty()
    } else {
        let o = overs.last();
        override_lines(ev, overs.drop_last(), now) + vevent_spec(
            ev.uid@,
            o.summary@,
            o.description@,
            o.location@,
            o.dtstart@,
            o.dtend@,
            o.all_day,
            o.transparent,
            o.sequence as int,
            o.updated_at@,
            ev.tzid@,
            Some(o.recurrence_id@),
            Seq::empty(),
            Seq::empty(),
            now,
        )
    }
}

/// An event and its overrides, each line folded, joined by CR LF.
#[verifier::opaque]
pub open spec fn vevent_text(ev: IcsEvent, now: int) -> Seq<char> {
    join_with(
        fold_all(
            vevent_spec(
                ev.uid@,
                ev.summary@,
                ev.description@,
                ev.location@,
                ev.dtstart@,
                ev.dtend@,
                ev.all_day,
                ev.transparent,
                ev.sequence as int,
                ev.updated_at@,
                ev.tzid@,
                None,
                ev.rrule@,
                texts(ev.exdates@),
                now,
            ) + override_lines(ev, ev.overrides@, now),
        ),
        "\r\n"@,
    )
}

fn extend_lines(lines: &mut Vec<String>, more: Vec<String>)
    ensures
        texts(final(lines)@) == texts(old(lines)@) + texts(more@),
{
    let mut i: usize = 0;
    while i < more.len()
        invariant
            i <= more@.len(),
            texts(lines@) == texts(old(lines)@) + texts(more@.take(i as int)),
        decreases more@.len() - i,
    {
        push_line(lines, more[i].clone());
        proof {
            assert(texts(more@.take(i + 1)) =~= texts(more@.take(i as int)).push(more@[i as int]@));
        }
        i = i + 1;
        assert(texts(lines@) =~= texts(old(lines)@) + texts(more@.take(i as int)));
    }
    assert(more@.take(i as int) =~= more@);
}

/// Fold each line and join them with CR LF.
fn fold_join(lines: &[String]) -> (out: String)
    ensures
        out@ == join_with(fold_all(texts(lines@)), "\r\n"@),
{
    let mut folded_lines: Vec<String> = Vec::new();
    let mut i: usize = 0;
    while i < lines.len()
        invariant
            i <= lines@.len(),
            texts(folded_lines@) == fold_all(texts(lines@.take(i as int))),
        decreases lines@.len() - i,
    {
        push_line(&mut folded_lines, fold_line(lines[i].as_str()));
        i = i + 1;
        assert(texts(folded_lines@) =~= fold_all(texts(lines@.take(i as int))));
    }
    assert(lines@.take(i as int) =~= lines@);
    join_strings(folded_lines.as_slice(), "\r\n")
}

fn vevent(ev: &IcsEvent, now: i64) -> (out: String)
    ensures
        out@ == vevent_text(*ev, now as int),
{
    let mut lines = vevent_lines(
        ev.uid.as_str(),
        ev.summary.as_str(),
        ev.description.as_str(),
        ev.location.as_str(),
        ev.dtstart.as_str(),
        ev.dtend.as_str(),
        ev.all_day,
        ev.transparent,
        ev.sequence,
        ev.updated_at.as_str(),
        ev.tzid.as_str(),
        None,
        ev.rrule.as_str(),
        ev.exdates.as_slice(),
        now,
    );
    let ghost master = texts(lines@);
    let no_dates: Vec<String> = Vec::new();
    let mut i: usize = 0;
    while i < ev.overrides.len()
        invariant
            i <= ev.overrides@.len(),
            no_dates@.len() == 0,
            texts(lines@) == master + override_lines(*ev, ev.overrides@.take(i as int), now as int),
        decreases ev.overrides@.len() - i,
    {
        let over = &ev.overrides[i];
        let more = vevent_lines(
            ev.uid.as_str(),
            over.summary.as_str(),
            over.description.as_str(),
            over.location.as_str(),
            over.dtstart.as_str(),
            over.dtend.as_str(),
            over.all_day,
            over.transparent,
            over.sequence,
            over.updated_at.as_str(),
            ev.tzid.as_str(),
            Some(over.recurrence_id.as_str()),
            "",
            no_dates.as_slice(),
            now,
        );
        extend_lines(&mut lines, more);
        proof {
            reveal_strlit("");
            assert(texts(no_dates@) =~= Seq::<Seq<char>>::empty());
            assert(ev.overrides@.take(i + 1).drop_last() =~= ev.overrides@.take(i as int));
        }
        i = i + 1;
        assert(texts(lines@) =~= master + override_lines(*ev, ev.overrides@.take(i as int), now as int));
    }
    assert(ev.overrides@.take(i as int) =~= ev.overrides@);
    let out = fold_join(lines.as_slice());
    proof {
        reveal(vevent_text);
    }
    out
}

// ---- calendars -----------------------------------------------------------------------

pub open spec fn calendar_head(name: Seq<char>) -> Seq<Seq<char>> {
    seq![
        "BEGIN:VCALENDAR"@,
        "VERSION:2.0"@,
        "PRODID:-//Steve//almanac//EN"@,
        "CALSCALE:GREGORIAN"@,
        "METHOD:PUBLISH"@,
        "X-WR-CALNAME:"@ + escape_ics(name),
    ]
}

/// The zones of the timed series, each once, in order of first use.
pub open spec fn series_zones(events: Seq<IcsEvent>) -> Seq<Seq<char>>
    decreases events.len(),
{
    if events.len() == 0 {
        Seq::empty()
    } else {
        let zs = series_zones(events.drop_last());
        let e = events.last();
        if e.rrule@.len() > 0 && e.tzid@.len() > 0 && !zs.contains(e.tzid@) {
            zs.push(e.tzid@)
        } else {
            zs
        }
    }
}

/// The folded VTIMEZONE blocks of the zones that have one.
pub open spec fn zone_lines(zones: Seq<Seq<char>>) -> Seq<Seq<char>>
    decreases zones.len(),
{
    if zones.len() == 0 {
        Seq::empty()
    } else {
        zone_lines(zones.drop_last()) + match zone_block(zones.last()) {
            Some(b) => fold_all(b),
            None => Seq::empty(),
        }
    }
}

pub open spec fn event_texts(events: Seq<IcsEvent>, now: int) -> Seq<Seq<char>> {
    events.map_values(|e: IcsEvent| vevent_text(e, now))
}

/// The whole PUBLISH calendar, ending with CR LF.
pub open spec fn calendar_text(name: Seq<char>, events: Seq<IcsEvent>, now: int) -> Seq<char> {
    join_with(
        fold_all(calendar_head(name)) + zone_lines(series_zones(events)) + event_texts(events, now)
            + seq!["END:VCALENDAR"@],
        "\r\n"@,
    ) + "\r\n"@
}

fn push_folded(lines: &mut Vec<String>, line: &str)
    ensures
        texts(final(lines)@) == texts(old(lines)@).push(folded(line@)),
{
    push_line(lines, fold_line(line));
}

fn push_head_lines(lines: &mut Vec<String>, name: &str)
    ensures
        texts(final(lines)@) == texts(old(lines)@) + fold_all(calendar_head(name@)),
{
    push_folded(lines, "BEGIN:VCALENDAR");
    push_folded(lines, "VERSION:2.0");
    push_folded(lines, "PRODID:-//Steve//almanac//EN");
    push_folded(lines, "CALSCALE:GREGORIAN");
    push_folded(lines, "METHOD:PUBLISH");
    let name_line = concat("X-WR-CALNAME:", escape_text(name).as_str());
    push_folded(lines, name_line.as_str());
    assert(texts(lines@) =~= texts(old(lines)@) + fold_all(calendar_head(name@)));
}

fn contains_str(v: &[&str], x: &str) -> (b: bool)
    ensures
        b == str_texts(v@).contains(x@),
{
    let mut i: usize = 0;
    while i < v.len()
        invariant
            i <= v@.len(),
            forall|q: int| 0 <= q < i ==> str_texts(v@)[q] != x@,
        decreases v@.len() - i,
    {
        if str_eq(v[i], x) {
            assert(str_texts(v@)[i as int] == x@);
            return true;
        }
        i = i + 1;
    }
    false
}

fn calendar_zones(events: &[IcsEvent]) -> (zones: Vec<&str>)
    ensures
        str_texts(zones@) == series_zones(events@),
{
    let mut zones: Vec<&str> = Vec::new();
    let mut i: usize = 0;
    assert(str_texts(zones@) =~= series_zones(events@.take(0)));
    while i < events.len()
        invariant
            i <= events@.len(),
            str_texts(zones@) == series_zones(events@.take(i as int)),
        decreases events@.len() - i,
    {
        let ev = &events[i];
        proof {
            assert(events@.take(i + 1).drop_last() =~= events@.take(i as int));
            assert(events@.take(i + 1).last() == *ev);
        }
        if !ev.rrule.as_str().is_empty() && !ev.tzid.as_str().is_empty() && !contains_str(zones.as_slice(), ev.tzid.as_str()) {
            zones.push(ev.tzid.as_str());
        }
        i = i + 1;
        assert(str_texts(zones@) =~= series_zones(events@.take(i as int)));
    }
    assert(events@.take(i as int) =~= events@);
    zones
}

/// Build a PUBLISH calendar. Stable UIDs; SEQUENCE tracks edits. `now`
/// (UTC milliseconds) stamps an event whose stored time does not parse.
pub fn render_calendar_at(cal_name: &str, events: &[IcsEvent], now: i64) -> (out: String)
    ensures
        out@ == calendar_text(cal_name@, events@, now as int),
{
    let mut lines: Vec<String> = Vec::new();
    assert(texts(lines@) =~= Seq::<Seq<char>>::empty());
    push_head_lines(&mut lines, cal_name);
    let ghost head = texts(lines@);
    let zones = calendar_zones(events);
    let mut z: usize = 0;
    assert(zone_lines(series_zones(events@).take(0)) =~= Seq::<Seq<char>>::empty());
    while z < zones.len()
        invariant
            z <= zones@.len(),
            str_texts(zones@) == series_zones(events@),
            texts(lines@) == head + zone_lines(series_zones(events@).take(z as int)),
        decreases zones@.len() - z,
    {
        let ghost before = texts(lines@);
        match crate::tz::vtimezone_lines(zones[z]) {
            Some(block) => {
                let mut k: usize = 0;
                while k < block.len()
                    invariant
                        k <= block@.len(),
                        texts(lines@) == before + fold_all(str_texts(block@).take(k as int)),
                    decreases block@.len() - k,
                {
                    push_folded(&mut lines, block[k]);
                    k = k + 1;
                    assert(texts(lines@) =~= before + fold_all(str_texts(block@).take(k as int)));
                }
                assert(str_texts(block@).take(k as int) =~= str_texts(block@));
            },
            None => {
                assert(texts(lines@) =~= before + Seq::<Seq<char>>::empty());
            },
        }
        proof {
            let zs = series_zones(events@);
            assert(zs.take(z + 1).drop_last() =~= zs.take(z as int));
            assert(zs.take(z + 1).last() == zones@[z as int]@);
        }
        z = z + 1;
    }
    assert(series_zones(events@).take(z as int) =~= series_zones(events@));
    let ghost with_zones = texts(lines@);
    let mut i: usize = 0;
    while i < events.len()
        invariant
            i <= events@.len(),
            texts(lines@) == with_zones + event_texts(events@.take(i as int), now as int),
        decreases events@.len() - i,
    {
        push_line(&mut lines, vevent(&events[i], now));
        i = i + 1;
        assert(texts(lines@) =~= with_zones + event_texts(events@.take(i as int), now as int));
    }
    assert(events@.take(i as int) =~= events@);
    push_line(&mut lines, owned("END:VCALENDAR"));
    let mut out = join_strings(lines.as_slice(), "\r\n");
    out.push_str("\r\n");
    assert(texts(lines@) =~= fold_all(calendar_head(cal_name@)) + zone_lines(series_zones(events@))
        + event_texts(events@, now as int) + seq!["END:VCALENDAR"@]);
    out
}

/// Build a PUBLISH calendar, stamping unparsable times with the current time.
pub fn render_calendar(cal_name: &str, events: &[IcsEvent]) -> (out: String)
    ensures
        exists|now: i64| out@ == calendar_text(cal_name@, events@, now as int),
{
    let now = unix_millis();
    render_calendar_at(cal_name, events, now)
}


// ---- todos ---------------------------------------------------------------------------

#[derive(Debug, Clone)]
pub struct IcsTodo {
    pub uid: String,
    pub title: String,
    pub description: String,
    /// `""`, `YYYY-MM-DD`, or a UTC instant.
    pub due: String,
    pub done: bool,
    pub completed_at: String,
    pub priority: i64,
    pub tags: Vec<String>,
    pub sequence: i64,
    pub created_at: String,
    pub updated_at: String,
}

pub open spec fn escaped_all(ts: Seq<Seq<char>>) -> Seq<Seq<char>> {
    ts.map_values(|t: Seq<char>| escape_ics(t))
}

pub open spec fn due_lines(due: Seq<char>) -> Seq<Seq<char>> {
    if ymd_of(due) is Some {
        seq!["DUE;VALUE=DATE:"@ + ics_date_or_empty(due)]
    } else if due.len() > 0 {
        seq!["DUE:"@ + ics_utc_or_empty(due)]
    } else {
        Seq::empty()
    }
}

/// The content lines of one VTODO, before folding.
pub open spec fn vtodo_spec(t: IcsTodo, now: int) -> Seq<Seq<char>> {
    seq![
        "BEGIN:VTODO"@,
        "UID:"@ + t.uid@,
        "DTSTAMP:"@ + stamp_text(t.updated_at@, now),
        "CREATED:"@ + stamp_text(t.created_at@, now),
        "LAST-MODIFIED:"@ + stamp_text(t.updated_at@, now),
        "SEQUENCE:"@ + dec_int(t.sequence as int),
        "SUMMARY:"@ + escape_ics(t.title@),
    ] + line_if(t.description@.len() > 0, "DESCRIPTION:"@ + escape_ics(t.description@)) + due_lines(
        t.due@,
    ) + line_if(t.priority > 0, "PRIORITY:"@ + dec_int(t.priority as int)) + line_if(
        t.tags@.len() > 0,
        "CATEGORIES:"@ + join_with(escaped_all(texts(t.tags@)), ","@),
    ) + (if t.done {
        seq![
            "STATUS:COMPLETED"@,
            "PERCENT-COMPLETE:100"@,
            "COMPLETED:"@ + stamp_text(t.completed_at@, now),
        ]
    } else {
        seq!["STATUS:NEEDS-ACTION"@]
    }) + seq!["END:VTODO"@]
}

#[verifier::opaque]
pub open spec fn vtodo_text(t: IcsTodo, now: int) -> Seq<char> {
    join_with(fold_all(vtodo_spec(t, now)), "\r\n"@)
}

fn push_todo_head(lines: &mut Vec<String>, todo: &IcsTodo, now: i64)
    ensures
        texts(final(lines)@) == texts(old(lines)@) + seq![
            "BEGIN:VTODO"@,
            "UID:"@ + todo.uid@,
            "DTSTAMP:"@ + stamp_text(todo.updated_at@, now as int),
            "CREATED:"@ + stamp_text(todo.created_at@, now as int),
            "LAST-MODIFIED:"@ + stamp_text(todo.updated_at@, now as int),
            "SEQUENCE:"@ + dec_int(todo.sequence as int),
            "SUMMARY:"@ + escape_ics(todo.title@),
        ],
{
    push_line(lines, owned("BEGIN:VTODO"));
    push_line(lines, concat("UID:", todo.uid.as_str()));
    push_line(lines, concat("DTSTAMP:", stamp(todo.updated_at.as_str(), now).as_str()));
    push_line(lines, concat("CREATED:", stamp(todo.created_at.as_str(), now).as_str()));
    push_line(lines, concat("LAST-MODIFIED:", stamp(todo.updated_at.as_str(), now).as_str()));
    let mut seq_line = owned("SEQUENCE:");
    push_int(&mut seq_line, todo.sequence);
    push_line(lines, seq_line);
    push_line(lines, concat("SUMMARY:", escape_text(todo.title.as_str()).as_str()));
    assert(texts(lines@) =~= texts(old(lines)@) + seq![
        "BEGIN:VTODO"@,
        "UID:"@ + todo.uid@,
        "DTSTAMP:"@ + stamp_text(todo.updated_at@, now as int),
        "CREATED:"@ + stamp_text(todo.created_at@, now as int),
        "LAST-MODIFIED:"@ + stamp_text(todo.updated_at@, now as int),
        "SEQUENCE:"@ + dec_int(todo.sequence as int),
        "SUMMARY:"@ + escape_ics(todo.title@),
    ]);
}

fn push_categories(out: &mut String, tags: &[String])
    ensures
        final(out)@ == old(out)@ + join_with(escaped_all(texts(tags@)), ","@),
{
    let mut escaped: Vec<String> = Vec::new();
    let mut i: usize = 0;
    while i < tags.len()
        invariant
            i <= tags@.len(),
            texts(escaped@) == escaped_all(texts(tags@.take(i as int))),
        decreases tags@.len() - i,
    {
        push_line(&mut escaped, escape_text(tags[i].as_str()));
        i = i + 1;
        assert(texts(escaped@) =~= escaped_all(texts(tags@.take(i as int))));
    }
    assert(tags@.take(i as int) =~= tags@);
    out.push_str(join_strings(escaped.as_slice(), ",").as_str());
}

#[verifier::rlimit(40)]
fn vtodo(todo: &IcsTodo, now: i64) -> (out: String)
    ensures
        out@ == vtodo_text(*todo, now as int),
{
    let mut lines: Vec<String> = Vec::new();
    assert(texts(lines@) =~= Seq::<Seq<char>>::empty());
    push_todo_head(&mut lines, todo, now);
    let ghost l0 = texts(lines@);
    if !todo.description.as_str().is_empty() {
        push_line(&mut lines, concat("DESCRIPTION:", escape_text(todo.description.as_str()).as_str()));
    }
    let ghost l1 = texts(lines@);
    if crate::time::is_ymd(todo.due.as_str()) {
        push_line(&mut lines, concat("DUE;VALUE=DATE:", date_or_empty(todo.due.as_str()).as_str()));
    } else if !todo.due.as_str().is_empty() {
        push_line(&mut lines, concat("DUE:", utc_or_empty(todo.due.as_str()).as_str()));
    }
    let ghost l2 = texts(lines@);
    if todo.priority > 0 {
        let mut p = owned("PRIORITY:");
        push_int(&mut p, todo.priority);
        push_line(&mut lines, p);
    }
    let ghost l3 = texts(lines@);
    if todo.tags.len() > 0 {
        let mut c = owned("CATEGORIES:");
        push_categories(&mut c, todo.tags.as_slice());
        push_line(&mut lines, c);
    }
    let ghost l4 = texts(lines@);
    if todo.done {
        push_line(&mut lines, owned("STATUS:COMPLETED"));
        push_line(&mut lines, owned("PERCENT-COMPLETE:100"));
        push_line(&mut lines, concat("COMPLETED:", stamp(todo.completed_at.as_str(), now).as_str()));
    } else {
        push_line(&mut lines, owned("STATUS:NEEDS-ACTION"));
    }
    push_line(&mut lines, owned("END:VTODO"));
    proof {
        assert(l1 =~= l0 + line_if(todo.description@.len() > 0, "DESCRIPTION:"@ + escape_ics(todo.description@)));
        assert(l2 =~= l1 + due_lines(todo.due@));
        assert(l3 =~= l2 + line_if(todo.priority > 0, "PRIORITY:"@ + dec_int(todo.priority as int)));
        assert(l4 =~= l3 + line_if(todo.tags@.len() > 0, "CATEGORIES:"@ + join_with(escaped_all(texts(todo.tags@)), ","@)));
        assert(texts(lines@) =~= vtodo_spec(*todo, now as int));
    }
    let out = fold_join(lines.as_slice());
    proof {
        reveal(vtodo_text);
    }
    out
}

pub open spec fn todo_texts(todos: Seq<IcsTodo>, now: int) -> Seq<Seq<char>> {
    todos.map_values(|t: IcsTodo| vtodo_text(t, now))
}

/// The whole todo calendar, ending with CR LF.
pub open spec fn todos_text(name: Seq<char>, todos: Seq<IcsTodo>, now: int) -> Seq<char> {
    join_with(
        fold_all(calendar_head(name + " Todos"@)) + todo_texts(todos, now) + seq!["END:VCALENDAR"@],
        "\r\n"@,
    ) + "\r\n"@
}

/// A subscribeable calendar holding only `VTODO`s. `now` (UTC milliseconds)
/// stamps a todo whose stored time does not parse.
pub fn render_todos_at(cal_name: &str, todos: &[IcsTodo], now: i64) -> (out: String)
    ensures
        out@ == todos_text(cal_name@, todos@, now as int),
{
    let mut lines: Vec<String> = Vec::new();
    assert(texts(lines@) =~= Seq::<Seq<char>>::empty());
    let full = concat(cal_name, " Todos");
    push_head_lines(&mut lines, full.as_str());
    let ghost head = texts(lines@);
    let mut i: usize = 0;
    while i < todos.len()
        invariant
            i <= todos@.len(),
            texts(lines@) == head + todo_texts(todos@.take(i as int), now as int),
        decreases todos@.len() - i,
    {
        push_line(&mut lines, vtodo(&todos[i], now));
        i = i + 1;
        assert(texts(lines@) =~= head + todo_texts(todos@.take(i as int), now as int));
    }
    assert(todos@.take(i as int) =~= todos@);
    push_line(&mut lines, owned("END:VCALENDAR"));
    let mut out = join_strings(lines.as_slice(), "\r\n");
    out.push_str("\r\n");
    assert(texts(lines@) =~= fold_all(calendar_head(cal_name@ + " Todos"@)) + todo_texts(todos@, now as int)
        + seq!["END:VCALENDAR"@]);
    out
}

/// A subscribeable calendar holding only `VTODO`s, stamping unparsable times
/// with the current time.
pub fn render_todos(cal_name: &str, todos: &[IcsTodo]) -> (out: String)
    ensures
        exists|now: i64| out@ == todos_text(cal_name@, todos@, now as int),
{
    let now = unix_millis();
    render_todos_at(cal_name, todos, now)
}


/// The line of an event time made with `name` (`DTSTART` or `DTEND`) from
/// the one value `v` it is given.
pub open spec fn time_line(name: Seq<char>, v: Seq<char>, all_day: bool, recurring: bool, zone: Seq<char>) -> Seq<char> {
    if recurring {
        when_text(name, v, all_day, zone)
    } else if all_day {
        name + ";VALUE=DATE:"@ + ics_date_or_empty(v)
    } else {
        name + ":"@ + ics_utc_or_empty(v)
    }
}

/// An event's time lines: the start line is made from the start alone and
/// the end line from the end alone. So two events that differ only in their
/// starts share their end line, and a one-off timed event ends on `DTEND:`
/// and the UTC form of its own end.
#[verifier::spinoff_prover]
#[verifier::rlimit(50)]
pub proof fn lemma_event_time_lines(dtstart: Seq<char>, dtend: Seq<char>, all_day: bool, recurring: bool, zone: Seq<char>)
    ensures
        vevent_times(dtstart, dtend, all_day, recurring, zone) == seq![
            time_line("DTSTART"@, dtstart, all_day, recurring, zone),
            time_line("DTEND"@, dtend, all_day, recurring, zone),
        ],
{
    reveal_strlit("DTSTART");
    reveal_strlit("DTEND");
    reveal_strlit("DTSTART:");
    reveal_strlit("DTEND:");
    reveal_strlit(":");
    reveal_strlit(";VALUE=DATE:");
    reveal_strlit("DTSTART;VALUE=DATE:");
    reveal_strlit("DTEND;VALUE=DATE:");
    if !recurring {
        if all_day {
            assert("DTSTART;VALUE=DATE:"@ =~= "DTSTART"@ + ";VALUE=DATE:"@);
            assert("DTEND;VALUE=DATE:"@ =~= "DTEND"@ + ";VALUE=DATE:"@);
        } else {
            assert("DTSTART:"@ =~= "DTSTART"@ + ":"@);
            assert("DTEND:"@ =~= "DTEND"@ + ":"@);
        }
    }
}


/// Events that differ only in their starts share their end line, and those
/// that differ only in their ends share their start line. A one-off timed
/// event's end line is `DTEND:` and the UTC form of its own end instant.
#[verifier::spinoff_prover]
pub proof fn lemma_event_end_line(
    dtstart: Seq<char>,
    other_start: Seq<char>,
    dtend: Seq<char>,
    other_end: Seq<char>,
    all_day: bool,
    recurring: bool,
    zone: Seq<char>,
)
    ensures
        vevent_times(dtstart, dtend, all_day, recurring, zone)[1] == vevent_times(other_start, dtend, all_day, recurring, zone)[1],
        vevent_times(dtstart, dtend, all_day, recurring, zone)[0] == vevent_times(dtstart, other_end, all_day, recurring, zone)[0],
        !recurring && !all_day ==> vevent_times(dtstart, dtend, all_day, recurring, zone)[1] == "DTEND:"@ + ics_utc_or_empty(dtend),
        !recurring && !all_day && rfc3339_millis(dtend) is Some ==> vevent_times(dtstart, dtend, all_day, recurring, zone)[1]
            == "DTEND:"@ + ics_utc_text(rfc3339_millis(dtend).unwrap()),
{
    lemma_event_time_lines(dtstart, dtend, all_day, recurring, zone);
    lemma_event_time_lines(other_start, dtend, all_day, recurring, zone);
    lemma_event_time_lines(dtstart, other_end, all_day, recurring, zone);
    reveal_strlit("DTEND");
    reveal_strlit("DTEND:");
    reveal_strlit(":");
    assert("DTEND:"@ =~= "DTEND"@ + ":"@);
}


/// The lines of one VEVENT name the event's own fields: it opens with
/// `BEGIN:VEVENT`, then its uid and its summary; its start and end lines
/// (after the `RECURRENCE-ID` line of an override) are made from its start
/// and end; it holds its location and description when they are not empty,
/// says whether it is transparent, and closes with `END:VEVENT`.
#[verifier::spinoff_prover]
#[verifier::rlimit(50)]
pub proof fn lemma_vevent_fields(
    uid: Seq<char>,
    summary: Seq<char>,
    description: Seq<char>,
    location: Seq<char>,
    dtstart: Seq<char>,
    dtend: Seq<char>,
    all_day: bool,
    transparent: bool,
    sequence: int,
    updated_at: Seq<char>,
    tzid: Seq<char>,
    recurrence_id: Option<Seq<char>>,
    rrule: Seq<char>,
    exdates: Seq<Seq<char>>,
    now: int,
)
    ensures
        ({
            let v = vevent_spec(uid, summary, description, location, dtstart, dtend, all_day, transparent,
                sequence, updated_at, tzid, recurrence_id, rrule, exdates, now);
            let recurring = rrule.len() > 0 || recurrence_id is Some;
            let zone = if recurring { tzid } else { Seq::empty() };
            let k: int = if recurrence_id is Some { 7 } else { 6 };
            &&& v.len() >= k + 4
            &&& v[0] == "BEGIN:VEVENT"@
            &&& v[1] == "UID:"@ + uid
            &&& v[5] == "SUMMARY:"@ + escape_ics(summary)
            &&& v[k] == time_line("DTSTART"@, dtstart, all_day, recurring, zone)
            &&& v[k + 1] == time_line("DTEND"@, dtend, all_day, recurring, zone)
            &&& v[v.len() - 1] == "END:VEVENT"@
            &&& v[v.len() - 2] == (if transparent { "TRANSP:TRANSPARENT"@ } else { "TRANSP:OPAQUE"@ })
            &&& location.len() > 0 ==> v.contains("LOCATION:"@ + escape_ics(location))
            &&& description.len() > 0 ==> v.contains("DESCRIPTION:"@ + escape_ics(description))
        }),
{
    let recurring = rrule.len() > 0 || recurrence_id is Some;
    let zone = if recurring { tzid } else { Seq::<char>::empty() };
    lemma_event_time_lines(dtstart, dtend, all_day, recurring, zone);
    let head = vevent_head(uid, summary, sequence, updated_at, now);
    let rid: Seq<Seq<char>> = match recurrence_id {
        Some(r) => seq![when_text("RECURRENCE-ID"@, r, all_day, zone)],
        None => Seq::empty(),
    };
    let times = vevent_times(dtstart, dtend, all_day, recurring, zone);
    let l1 = line_if(rrule.len() > 0, "RRULE:"@ + rrule);
    let l2 = line_if(exdates.len() > 0, exdate_line(exdates, all_day, zone));
    let l3 = line_if(location.len() > 0, "LOCATION:"@ + escape_ics(location));
    let l4 = line_if(description.len() > 0, "DESCRIPTION:"@ + escape_ics(description));
    let end = seq![if transparent { "TRANSP:TRANSPARENT"@ } else { "TRANSP:OPAQUE"@ }, "END:VEVENT"@];
    let tail = vevent_tail(description, location, all_day, transparent, rrule, exdates, zone);
    assert(tail == l1 + l2 + l3 + l4 + end);
    let v = vevent_spec(uid, summary, description, location, dtstart, dtend, all_day, transparent,
        sequence, updated_at, tzid, recurrence_id, rrule, exdates, now);
    assert(v == head + rid + times + tail);
    let k: int = if recurrence_id is Some { 7 } else { 6 };
    assert(v[0] == head[0] && v[1] == head[1] && v[5] == head[5]);
    assert(v[k] == times[0] && v[k + 1] == times[1]);
    let n = v.len();
    assert(v[n - 1] == end[1] && v[n - 2] == end[0]);
    let base: int = (head.len() + rid.len() + times.len() + l1.len() + l2.len()) as int;
    if location.len() > 0 {
        assert(v[base] == l3[0]);
    }
    if description.len() > 0 {
        assert(v[base + l3.len() as int] == l4[0]);
    }
}


/// The lines of one VTODO name the todo's own fields: its uid and title;
/// its description when it has one; a date due as `DUE;VALUE=DATE:` and an
/// instant due as `DUE:` with its UTC form; its priority when set; and a
/// done todo is `STATUS:COMPLETED`, an open one `STATUS:NEEDS-ACTION`.
#[verifier::spinoff_prover]
#[verifier::rlimit(50)]
pub proof fn lemma_vtodo_fields(t: IcsTodo, now: int)
    ensures
        ({
            let v = vtodo_spec(t, now);
            &&& v[0] == "BEGIN:VTODO"@
            &&& v[1] == "UID:"@ + t.uid@
            &&& v[6] == "SUMMARY:"@ + escape_ics(t.title@)
            &&& v[v.len() - 1] == "END:VTODO"@
            &&& t.description@.len() > 0 ==> v.contains("DESCRIPTION:"@ + escape_ics(t.description@))
            &&& ymd_of(t.due@) is Some ==> v.contains("DUE;VALUE=DATE:"@ + ics_date_or_empty(t.due@))
            &&& ymd_of(t.due@) is None && t.due@.len() > 0 ==> v.contains("DUE:"@ + ics_utc_or_empty(t.due@))
            &&& t.priority > 0 ==> v.contains("PRIORITY:"@ + dec_int(t.priority as int))
            &&& t.done ==> v.contains("STATUS:COMPLETED"@) && v.contains(
                "COMPLETED:"@ + stamp_text(t.completed_at@, now),
            )
            &&& !t.done ==> v.contains("STATUS:NEEDS-ACTION"@)
        }),
{
    let head = seq![
        "BEGIN:VTODO"@,
        "UID:"@ + t.uid@,
        "DTSTAMP:"@ + stamp_text(t.updated_at@, now),
        "CREATED:"@ + stamp_text(t.created_at@, now),
        "LAST-MODIFIED:"@ + stamp_text(t.updated_at@, now),
        "SEQUENCE:"@ + dec_int(t.sequence as int),
        "SUMMARY:"@ + escape_ics(t.title@),
    ];
    let d = line_if(t.description@.len() > 0, "DESCRIPTION:"@ + escape_ics(t.description@));
    let du = due_lines(t.due@);
    let p = line_if(t.priority > 0, "PRIORITY:"@ + dec_int(t.priority as int));
    let c = line_if(t.tags@.len() > 0, "CATEGORIES:"@ + join_with(escaped_all(texts(t.tags@)), ","@));
    let st = if t.done {
        seq!["STATUS:COMPLETED"@, "PERCENT-COMPLETE:100"@, "COMPLETED:"@ + stamp_text(t.completed_at@, now)]
    } else {
        seq!["STATUS:NEEDS-ACTION"@]
    };
    let v = vtodo_spec(t, now);
    assert(v == head + d + du + p + c + st + seq!["END:VTODO"@]);
    assert(v[0] == head[0] && v[1] == head[1] && v[6] == head[6]);
    let i1: int = 7;
    if t.description@.len() > 0 {
        assert(v[i1] == d[0]);
    }
    let i2: int = 7 + d.len() as int;
    if du.len() > 0 {
        assert(v[i2] == du[0]);
    }
    let i3: int = i2 + du.len() as int;
    if t.priority > 0 {
        assert(v[i3] == p[0]);
    }
    let i4: int = i3 + p.len() as int + c.len() as int;
    assert(v[i4] == st[0]);
    if t.done {
        assert(v[i4 + 2] == st[2]);
    }
}

} // verus!
