//! Durable snapshot of the cache: the link entries and the revision they
//! reflect, rendered to and from a text form. Writing the file itself is
//! the embedding program's job; the encoding, the parsing, and the
//! round-trip guarantee live here.
//!
//! The form is length-prefixed, so no character of an alias or URL needs
//! escaping: `<revision> '\n' <count> '\n'` followed, for each entry, by
//! `<len> ' ' <alias> <len> ' ' <url>`, all numbers in decimal.

use vstd::prelude::*;
use crate::rustlink::Rustlink;
use crate::state::{LinkTable, entry_views, map_of_entries, unique_aliases};
use crate::strings::push_char;

verus! {

/// Decimal digit.
pub open spec fn is_digit(c: char) -> bool {
    c == '0' || c == '1' || c == '2' || c == '3' || c == '4' || c == '5' || c == '6' || c == '7'
        || c == '8' || c == '9'
}

/// The digit character for `d` (meaningful for 0 through 9).
pub open spec fn digit_char(d: int) -> char {
    if d == 0 {
        '0'
    } else if d == 1 {
        '1'
    } else if d == 2 {
        '2'
    } else if d == 3 {
        '3'
    } else if d == 4 {
        '4'
    } else if d == 5 {
        '5'
    } else if d == 6 {
        '6'
    } else if d == 7 {
        '7'
    } else if d == 8 {
        '8'
    } else {
        '9'
    }
}

/// The value of a digit character (meaningful when `is_digit(c)`).
pub open spec fn digit_val(c: char) -> int {
    if c == '0' {
        0
    } else if c == '1' {
        1
    } else if c == '2' {
        2
    } else if c == '3' {
        3
    } else if c == '4' {
        4
    } else if c == '5' {
        5
    } else if c == '6' {
        6
    } else if c == '7' {
        7
    } else if c == '8' {
        8
    } else {
        9
    }
}

/// `n` written in decimal, most significant digit first.
pub open spec fn dec_digits(n: nat) -> Seq<char>
    decreases n,
{
    if n < 10 {
        seq![digit_char(n as int)]
    } else {
        dec_digits(n / 10).push(digit_char((n % 10) as int))
    }
}

/// Every character is a digit.
pub open spec fn all_digits(s: Seq<char>) -> bool {
    forall|i: int| 0 <= i < s.len() ==> is_digit(s[i])
}

/// The number a digit string denotes.
pub open spec fn dec_value(s: Seq<char>) -> nat
    decreases s.len(),
{
    if s.len() == 0 {
        0
    } else {
        dec_value(s.drop_last()) * 10 + digit_val(s.last()) as nat
    }
}

/// Writing a number in decimal yields at least one digit, only digits, and
/// a string that denotes the number again.
pub proof fn lemma_dec_digits(n: nat)
    ensures
        dec_digits(n).len() >= 1,
        all_digits(dec_digits(n)),
        dec_value(dec_digits(n)) == n,
    decreases n,
{
    if n < 10 {
        assert(dec_digits(n) == seq![digit_char(n as int)]);
        assert(dec_digits(n).drop_last() =~= Seq::<char>::empty());
        assert(dec_value(Seq::<char>::empty()) == 0);
        assert(dec_value(dec_digits(n)) == digit_val(digit_char(n as int)));
    } else {
        lemma_dec_digits(n / 10);
        let d = dec_digits(n / 10);
        assert(dec_digits(n) == d.push(digit_char((n % 10) as int)));
        assert(d.push(digit_char((n % 10) as int)).drop_last() =~= d);
        assert(digit_val(digit_char((n % 10) as int)) == n % 10);
        assert(dec_value(dec_digits(n)) == (n / 10) * 10 + n % 10);
        assert((n / 10) * 10 + n % 10 == n) by {
            vstd::arithmetic::div_mod::lemma_fundamental_div_mod(n as int, 10);
        }
        assert(forall|i: int|
            0 <= i < dec_digits(n).len() ==> is_digit(#[trigger] dec_digits(n)[i]));
    }
}

/// A longer digit string denotes at least as much as any of its prefixes.
pub proof fn lemma_dec_value_prefix(s: Seq<char>, k: int)
    requires
        0 <= k <= s.len(),
    ensures
        dec_value(s) >= dec_value(s.take(k)),
    decreases s.len() - k,
{
    if k < s.len() {
        assert(s.take(k + 1).drop_last() =~= s.take(k));
        assert(dec_value(s.take(k + 1)) == dec_value(s.take(k)) * 10 + digit_val(s.take(k + 1).last()));
        assert(dec_value(s.take(k)) * 10 >= dec_value(s.take(k)));
        lemma_dec_value_prefix(s, k + 1);
    } else {
        assert(s.take(k) =~= s);
    }
}

/// End of the run of digits that starts at `pos`.
pub open spec fn digits_end(s: Seq<char>, pos: int) -> int
    decreases s.len() - pos
{
    if 0 <= pos < s.len() && is_digit(s[pos]) {
        digits_end(s, pos + 1)
    } else {
        pos
    }
}

/// The digit run never starts before `pos`.
pub proof fn lemma_digits_end_ge(s: Seq<char>, pos: int)
    ensures
        digits_end(s, pos) >= pos,
    decreases s.len() - pos,
{
    if 0 <= pos < s.len() && is_digit(s[pos]) {
        lemma_digits_end_ge(s, pos + 1);
    }
}

/// A run of digits followed by a non-digit (or the end) stops exactly there.
pub proof fn lemma_digits_end(s: Seq<char>, pos: int, e: int)
    requires
        0 <= pos <= e <= s.len(),
        forall|i: int| pos <= i < e ==> is_digit(s[i]),
        e == s.len() || !is_digit(s[e]),
    ensures
        digits_end(s, pos) == e,
    decreases e - pos,
{
    if pos < e {
        lemma_digits_end(s, pos + 1, e);
    }
}

/// Reads the decimal number starting at `pos`: its value and the position
/// after its digits. Nothing to read (no digit at `pos`) is a failure.
pub open spec fn parse_num(s: Seq<char>, pos: int) -> Option<(nat, int)> {
    let e = digits_end(s, pos);
    if e == pos {
        Option::None
    } else {
        Option::Some((dec_value(s.subrange(pos, e)), e))
    }
}

/// One length-prefixed string at `pos`: `<len> ' ' <chars>`.
pub open spec fn decode_str(s: Seq<char>, pos: int) -> Option<(Seq<char>, int)> {
    match parse_num(s, pos) {
        Option::None => Option::None,
        Option::Some((l, p)) => {
            if !(p < s.len() && s[p] == ' ') {
                Option::None
            } else if p + 1 + l > s.len() {
                Option::None
            } else {
                Option::Some((s.subrange(p + 1, p + 1 + l), p + 1 + l))
            }
        },
    }
}

/// `cnt` consecutive (alias, url) pairs starting at `pos`.
pub open spec fn decode_entries(s: Seq<char>, pos: int, cnt: nat) -> Option<
    (Seq<(Seq<char>, Seq<char>)>, int),
>
    decreases cnt,
{
    if cnt == 0 {
        Option::Some((Seq::empty(), pos))
    } else {
        match decode_str(s, pos) {
            Option::None => Option::None,
            Option::Some((a, p)) => match decode_str(s, p) {
                Option::None => Option::None,
                Option::Some((u, p2)) => match decode_entries(s, p2, (cnt - 1) as nat) {
                    Option::None => Option::None,
                    Option::Some((rest, p3)) => Option::Some(
                        (seq![(a, u)] + rest, p3),
                    ),
                },
            },
        }
    }
}

/// A whole snapshot: revision, count, entries, nothing after. A revision
/// beyond `i64::MAX` or a count larger than the text itself is rejected.
pub open spec fn decode_snapshot(s: Seq<char>) -> Option<(Seq<(Seq<char>, Seq<char>)>, int)> {
    match parse_num(s, 0) {
        Option::None => Option::None,
        Option::Some((rev, p1)) => {
            if rev > i64::MAX {
                Option::None
            } else if !(p1 < s.len() && s[p1] == '\n') {
                Option::None
            } else {
                match parse_num(s, p1 + 1) {
                    Option::None => Option::None,
                    Option::Some((cnt, p2)) => {
                        if cnt > s.len() {
                            Option::None
                        } else if !(p2 < s.len() && s[p2] == '\n') {
                            Option::None
                        } else {
                            match decode_entries(s, p2 + 1, cnt) {
                                Option::None => Option::None,
                                Option::Some((es, p3)) => {
                                    if p3 == s.len() {
                                        Option::Some((es, rev as int))
                                    } else {
                                        Option::None
                                    }
                                },
                            }
                        }
                    },
                }
            }
        },
    }
}

/// One length-prefixed string.
pub open spec fn encode_str(t: Seq<char>) -> Seq<char> {
    dec_digits(t.len()) + seq![' '] + t
}

/// All entries, in order.
pub open spec fn encode_entries(es: Seq<(Seq<char>, Seq<char>)>) -> Seq<char>
    decreases es.len(),
{
    if es.len() == 0 {
        Seq::empty()
    } else {
        encode_entries(es.drop_last()) + encode_str(es.last().0) + encode_str(es.last().1)
    }
}

/// A whole snapshot.
pub open spec fn encode_snapshot(es: Seq<(Seq<char>, Seq<char>)>, rev: int) -> Seq<char> {
    dec_digits(rev as nat) + seq!['\n'] + dec_digits(es.len()) + seq!['\n'] + encode_entries(es)
}

/// A number written at `pos`, delimited by a non-digit (or the end), reads
/// back as itself.
proof fn lemma_parse_at(s: Seq<char>, pos: int, n: nat)
    requires
        0 <= pos,
        pos + dec_digits(n).len() <= s.len(),
        s.subrange(pos, pos + dec_digits(n).len()) == dec_digits(n),
        pos + dec_digits(n).len() == s.len() || !is_digit(s[pos + dec_digits(n).len()]),
    ensures
        parse_num(s, pos) == Option::Some((n, pos + dec_digits(n).len())),
{
    let d = dec_digits(n);
    lemma_dec_digits(n);
    assert(forall|i: int| pos <= i < pos + d.len() ==> is_digit(s[i])) by {
        assert(forall|i: int| pos <= i < pos + d.len() ==> s[i] == d[i - pos]);
        assert(forall|j: int| 0 <= j < d.len() ==> is_digit(#[trigger] d[j]));
    }
    lemma_digits_end(s, pos, pos + d.len());
}

/// A length-prefixed string written at `pos` reads back as itself.
proof fn lemma_decode_str_at(s: Seq<char>, pos: int, t: Seq<char>)
    requires
        0 <= pos,
        pos + encode_str(t).len() <= s.len(),
        s.subrange(pos, pos + encode_str(t).len()) == encode_str(t),
    ensures
        decode_str(s, pos) == Option::Some((t, pos + encode_str(t).len())),
{
    let d = dec_digits(t.len());
    let e = encode_str(t);
    assert(e == d + seq![' '] + t);
    assert(e.len() == d.len() + 1 + t.len());
    assert(forall|i: int| pos <= i < pos + e.len() ==> s[i] == e[i - pos]);
    assert(s.subrange(pos, pos + d.len()) =~= d);
    assert(e[d.len() as int] == ' ');
    assert(s[pos + d.len()] == ' ');
    lemma_parse_at(s, pos, t.len());
    let p = pos + d.len();
    assert(p < s.len() && s[p] == ' ');
    assert(p + 1 + t.len() == pos + e.len() <= s.len());
    assert(s.subrange(p + 1, p + 1 + t.len()) =~= t) by {
        assert(forall|j: int| 0 <= j < t.len() ==> e[d.len() + 1 + j] == t[j]);
    }
}

/// The entry list's text, seen from its first entry.
proof fn lemma_encode_entries_first(es: Seq<(Seq<char>, Seq<char>)>)
    requires
        es.len() > 0,
    ensures
        encode_entries(es) == encode_str(es[0].0) + encode_str(es[0].1) + encode_entries(
            es.drop_first(),
        ),
    decreases es.len(),
{
    if es.len() == 1 {
        assert(es.drop_last() =~= Seq::<(Seq<char>, Seq<char>)>::empty());
        assert(es.drop_first() =~= Seq::<(Seq<char>, Seq<char>)>::empty());
        assert(encode_entries(Seq::<(Seq<char>, Seq<char>)>::empty()) == Seq::<char>::empty());
        assert(es.last() == es[0]);
        assert(encode_entries(es) =~= encode_str(es[0].0) + encode_str(es[0].1) + encode_entries(
            es.drop_first(),
        ));
    } else {
        let head = es.drop_last();
        lemma_encode_entries_first(head);
        assert(head[0] == es[0]);
        assert(es.drop_first().drop_last() =~= head.drop_first());
        assert(es.drop_first().len() > 0);
        assert(es.drop_first().last() == es.last());
        assert(encode_entries(es.drop_first()) == encode_entries(es.drop_first().drop_last())
            + encode_str(es.drop_first().last().0) + encode_str(es.drop_first().last().1));
        assert(encode_entries(es) =~= encode_str(es[0].0) + encode_str(es[0].1) + encode_entries(
            es.drop_first(),
        ));
    }
}

/// The text of an entry list is at least as long as the list.
proof fn lemma_encode_entries_len(es: Seq<(Seq<char>, Seq<char>)>)
    ensures
        encode_entries(es).len() >= es.len(),
    decreases es.len(),
{
    if es.len() > 0 {
        lemma_encode_entries_len(es.drop_last());
        lemma_dec_digits(es.last().0.len());
        lemma_dec_digits(es.last().1.len());
    }
}

/// An entry list written at `pos`, reaching exactly to position
/// `pos + encode_entries(es).len()`, reads back as itself.
proof fn lemma_decode_entries_at(s: Seq<char>, pos: int, es: Seq<(Seq<char>, Seq<char>)>)
    requires
        0 <= pos,
        pos + encode_entries(es).len() <= s.len(),
        s.subrange(pos, pos + encode_entries(es).len()) == encode_entries(es),
    ensures
        decode_entries(s, pos, es.len()) == Option::Some(
            (es, pos + encode_entries(es).len()),
        ),
    decreases es.len(),
{
    if es.len() == 0 {
        assert(es =~= Seq::<(Seq<char>, Seq<char>)>::empty());
    } else {
        lemma_encode_entries_first(es);
        let e0 = encode_str(es[0].0);
        let e1 = encode_str(es[0].1);
        let rest = encode_entries(es.drop_first());
        let whole = encode_entries(es);
        assert(whole == e0 + e1 + rest);
        assert(forall|i: int| pos <= i < pos + whole.len() ==> s[i] == whole[i - pos]);
        assert(s.subrange(pos, pos + e0.len()) =~= e0) by {
            assert(forall|j: int| 0 <= j < e0.len() ==> whole[j] == e0[j]);
        }
        lemma_decode_str_at(s, pos, es[0].0);
        let p1 = pos + e0.len();
        assert(s.subrange(p1, p1 + e1.len()) =~= e1) by {
            assert(forall|j: int| 0 <= j < e1.len() ==> whole[e0.len() + j] == e1[j]);
        }
        lemma_decode_str_at(s, p1, es[0].1);
        let p2 = p1 + e1.len();
        assert(s.subrange(p2, p2 + rest.len()) =~= rest) by {
            assert(forall|j: int| 0 <= j < rest.len() ==> whole[e0.len() + e1.len() + j] == rest[j]);
        }
        lemma_decode_entries_at(s, p2, es.drop_first());
        assert(es.drop_first().len() == es.len() - 1);
        assert(seq![(es[0].0, es[0].1)] + es.drop_first() =~= es);
        assert(p2 + rest.len() == pos + whole.len());
    }
}

/// Round trip: a snapshot written by `encode_snapshot` is read back,
/// entry for entry and revision for revision, by `decode_snapshot`.
pub proof fn lemma_snapshot_round_trip(es: Seq<(Seq<char>, Seq<char>)>, rev: int)
    requires
        0 <= rev <= i64::MAX,
    ensures
        decode_snapshot(encode_snapshot(es, rev)) == Option::Some((es, rev)),
{
    let a = dec_digits(rev as nat);
    let b = dec_digits(es.len());
    let c = encode_entries(es);
    let s = encode_snapshot(es, rev);
    assert(s == a + seq!['\n'] + b + seq!['\n'] + c);
    assert(s.len() == a.len() + 1 + b.len() + 1 + c.len());
    lemma_dec_digits(rev as nat);
    lemma_dec_digits(es.len());
    lemma_encode_entries_len(es);

    assert(s.subrange(0, a.len() as int) =~= a);
    assert(s[a.len() as int] == '\n');
    assert(!is_digit('\n'));
    lemma_parse_at(s, 0, rev as nat);
    let p1 = a.len() as int;
    assert(parse_num(s, 0) == Option::Some((rev as nat, p1)));

    assert(s.subrange(p1 + 1, p1 + 1 + b.len()) =~= b);
    assert(s[p1 + 1 + b.len()] == '\n');
    lemma_parse_at(s, p1 + 1, es.len());
    let p2 = p1 + 1 + b.len();
    assert(parse_num(s, p1 + 1) == Option::Some((es.len(), p2)));
    assert(es.len() <= s.len());

    assert(s.subrange(p2 + 1, p2 + 1 + c.len()) =~= c);
    lemma_decode_entries_at(s, p2 + 1, es);
    assert(p2 + 1 + c.len() == s.len());
}

fn digit_to_char(d: u64) -> (c: char)
    requires
        d < 10,
    ensures
        c == digit_char(d as int),
{
    if d == 0 {
        '0'
    } else if d == 1 {
        '1'
    } else if d == 2 {
        '2'
    } else if d == 3 {
        '3'
    } else if d == 4 {
        '4'
    } else if d == 5 {
        '5'
    } else if d == 6 {
        '6'
    } else if d == 7 {
        '7'
    } else if d == 8 {
        '8'
    } else {
        '9'
    }
}

/// The value of a digit character, or `None` for any other character.
fn char_digit_val(c: char) -> (r: Option<u64>)
    ensures
        match r {
            Option::Some(v) => is_digit(c) && v == digit_val(c) && v < 10,
            Option::None => !is_digit(c),
        },
{
    match c {
        '0' => Option::Some(0),
        '1' => Option::Some(1),
        '2' => Option::Some(2),
        '3' => Option::Some(3),
        '4' => Option::Some(4),
        '5' => Option::Some(5),
        '6' => Option::Some(6),
        '7' => Option::Some(7),
        '8' => Option::Some(8),
        '9' => Option::Some(9),
        _ => Option::None,
    }
}

/// Appends `n` in decimal.
fn push_dec(out: &mut String, n: u64)
    ensures
        final(out)@ == old(out)@ + dec_digits(n as nat),
    decreases n,
{
    if n < 10 {
        let c = digit_to_char(n);
        push_char(out, c);
        proof {
            assert(old(out)@.push(c) =~= old(out)@ + dec_digits(n as nat));
        }
    } else {
        push_dec(out, n / 10);
        let c = digit_to_char(n % 10);
        push_char(out, c);
        proof {
            assert((old(out)@ + dec_digits((n / 10) as nat)).push(c) =~= old(out)@ + dec_digits(
                n as nat,
            ));
        }
    }
}

/// Appends one length-prefixed string.
fn push_field(out: &mut String, t: &str)
    ensures
        final(out)@ == old(out)@ + encode_str(t@),
{
    let l = t.unicode_len();
    push_dec(out, l as u64);
    push_char(out, ' ');
    out.append(t);
    proof {
        assert(((old(out)@ + dec_digits(t@.len())).push(' ')) + t@ =~= old(out)@ + encode_str(t@));
    }
}

/// End of the digit run starting at `pos`, computed by walking it.
fn scan_digits(s: &str, pos: usize, n: usize) -> (e: usize)
    requires
        n == s@.len(),
        pos <= n,
    ensures
        pos <= e <= n,
        e == digits_end(s@, pos as int),
        forall|i: int| pos <= i < e ==> is_digit(s@[i]),
{
    let mut e = pos;
    while e < n && matches!(char_digit_val(s.get_char(e)), Option::Some(_))
        invariant
            n == s@.len(),
            pos <= e <= n,
            forall|i: int| pos <= i < e ==> is_digit(s@[i]),
        decreases n - e,
    {
        e = e + 1;
    }
    proof {
        lemma_digits_end(s@, pos as int, e as int);
    }
    e
}

/// Reads the decimal number at `pos`. `None` means the text carries no
/// digit there, or a value too large for a `u64`.
fn parse_num_exec(s: &str, pos: usize, n: usize) -> (r: Option<(u64, usize)>)
    requires
        n == s@.len(),
        pos <= n,
    ensures
        match r {
            Option::Some(vp) => {
                &&& parse_num(s@, pos as int) == Option::Some((vp.0 as nat, vp.1 as int))
                &&& pos < vp.1 <= n
            },
            Option::None => parse_num(s@, pos as int) is None || (parse_num(s@, pos as int)
                matches Option::Some(x) && x.0 > u64::MAX),
        },
{
    let e = scan_digits(s, pos, n);
    if e == pos {
        return Option::None;
    }
    let ghost run = s@.subrange(pos as int, e as int);
    let mut acc: u64 = 0;
    let mut p = pos;
    while p < e
        invariant
            n == s@.len(),
            pos <= p <= e <= n,
            e == digits_end(s@, pos as int),
            forall|i: int| pos <= i < e ==> is_digit(s@[i]),
            run == s@.subrange(pos as int, e as int),
            acc as nat == dec_value(s@.subrange(pos as int, p as int)),
        decreases e - p,
    {
        let c = s.get_char(p);
        let d = match char_digit_val(c) {
            Option::Some(d) => d,
            Option::None => vstd::pervasive::unreached(),
        };
        if acc > u64::MAX / 10 || (acc == u64::MAX / 10 && d > u64::MAX % 10) {
            proof {
                assert(s@.subrange(pos as int, p + 1).drop_last() =~= s@.subrange(
                    pos as int,
                    p as int,
                ));
                assert(dec_value(s@.subrange(pos as int, p + 1)) == acc as nat * 10 + d);
                assert(acc as nat * 10 + d > u64::MAX);
                assert(run.take(p + 1 - pos) =~= s@.subrange(pos as int, p + 1));
                lemma_dec_value_prefix(run, p + 1 - pos);
                assert(dec_value(run) > u64::MAX);
            }
            return Option::None;
        }
        acc = acc * 10 + d;
        proof {
            assert(s@.subrange(pos as int, p + 1).drop_last() =~= s@.subrange(
                pos as int,
                p as int,
            ));
        }
        p = p + 1;
    }
    Option::Some((acc, e))
}

/// Reads one length-prefixed string at `pos`.
fn decode_str_exec(s: &str, pos: usize, n: usize) -> (r: Option<(String, usize)>)
    requires
        n == s@.len(),
        pos <= n,
    ensures
        match r {
            Option::Some(tp) => {
                &&& decode_str(s@, pos as int) == Option::Some((tp.0@, tp.1 as int))
                &&& pos < tp.1 <= n
            },
            Option::None => decode_str(s@, pos as int) is None,
        },
{
    match parse_num_exec(s, pos, n) {
        Option::None => {
            proof {
                match parse_num(s@, pos as int) {
                    Option::Some(x) => {
                        assert(x.0 > u64::MAX);
                        assert(s@.len() <= u64::MAX);
                        lemma_digits_end_ge(s@, pos as int);
                        assert(x.1 >= pos);
                        assert(decode_str(s@, pos as int) is None);
                    },
                    Option::None => {},
                }
            }
            Option::None
        },
        Option::Some((l, p)) => {
            if p >= n {
                return Option::None;
            }
            if s.get_char(p) != ' ' {
                return Option::None;
            }
            if l > (n - p - 1) as u64 {
                return Option::None;
            }
            let lu = l as usize;
            let t = s.substring_char(p + 1, p + 1 + lu).to_owned();
            proof {
                assert(p + 1 + l as nat <= s@.len());
                assert(decode_str(s@, pos as int) == Option::Some(
                    (s@.subrange(p + 1, p + 1 + lu as int), p + 1 + lu as int),
                ));
            }
            Option::Some((t, p + 1 + lu))
        },
    }
}

/// The persisted shape of the cache: the link table together with the
/// revision it reflects.
pub struct SerdeAppState {
    pub rustlinks: LinkTable,
    pub revision: i64,
}

impl SerdeAppState {
    /// Valid persisted state: a well-formed table and a non-negative
    /// revision.
    pub open spec fn wf(&self) -> bool {
        self.rustlinks.wf() && 0 <= self.revision
    }

    /// A snapshot value from its parts.
    pub fn new(rustlinks: LinkTable, revision: i64) -> (st: SerdeAppState)
        ensures
            st.rustlinks == rustlinks,
            st.revision == revision,
    {
        SerdeAppState { rustlinks, revision }
    }

    /// Renders the whole state as snapshot text. The embedding program
    /// writes the result to disk in one piece.
    pub fn save(&self) -> (out: String)
        requires
            self.wf(),
        ensures
            out@ == encode_snapshot(self.rustlinks.entries_view(), self.revision as int),
    {
        let ghost views = self.rustlinks.entries_view();
        let mut out = String::new();
        push_dec(&mut out, self.revision as u64);
        push_char(&mut out, '\n');
        let entries = self.rustlinks.snapshot_all();
        let n = entries.len();
        proof {
            assert(entry_views(entries@).len() == views.len());
        }
        push_dec(&mut out, n as u64);
        push_char(&mut out, '\n');
        let ghost header = dec_digits(self.revision as nat) + seq!['\n'] + dec_digits(views.len())
            + seq!['\n'];
        proof {
            assert(out@ =~= header);
        }
        let mut i: usize = 0;
        while i < n
            invariant
                n == entries@.len(),
                entry_views(entries@) == views,
                i <= n,
                out@ == header + encode_entries(views.take(i as int)),
            decreases n - i,
        {
            proof {
                assert(views[i as int] == (entries@[i as int].alias@, entries@[i as int].url@));
            }
            push_field(&mut out, entries[i].alias.as_str());
            push_field(&mut out, entries[i].url.as_str());
            proof {
                assert(views.take(i + 1).drop_last() =~= views.take(i as int));
                assert(views.take(i + 1).last() == views[i as int]);
                assert(out@ =~= header + encode_entries(views.take(i + 1)));
            }
            i = i + 1;
        }
        proof {
            assert(views.take(n as int) =~= views);
            assert(out@ =~= encode_snapshot(views, self.revision as int));
        }
        out
    }

    /// Reads snapshot text back. Text that `decode_snapshot` rejects, in
    /// any way, yields `None`; accepted text yields a well-formed state
    /// carrying exactly the decoded entries and revision.
    #[verifier::loop_isolation(false)]
    pub fn load(s: &str) -> (r: Option<SerdeAppState>)
        ensures
            decode_snapshot(s@) is None ==> r is None,
            decode_snapshot(s@) matches Option::Some(d) ==> (r matches Option::Some(st) && st.wf()
                && st.revision as int == d.1 && st.rustlinks@ == map_of_entries(d.0) && (
            unique_aliases(d.0) ==> st.rustlinks.entries_view() == d.0)),
    {
        let n = s.unicode_len();
        let (rev, p1) = match parse_num_exec(s, 0, n) {
            Option::None => {
                return Option::None;
            },
            Option::Some(vp) => vp,
        };
        if rev > i64::MAX as u64 {
            return Option::None;
        }
        if p1 >= n {
            return Option::None;
        }
        if s.get_char(p1) != '\n' {
            return Option::None;
        }
        let (cnt, p2) = match parse_num_exec(s, p1 + 1, n) {
            Option::None => {
                proof {
                    match parse_num(s@, p1 + 1) {
                        Option::Some(x) => {
                            assert(x.0 > u64::MAX);
                            assert(s@.len() <= u64::MAX);
                        },
                        Option::None => {},
                    }
                }
                return Option::None;
            },
            Option::Some(vp) => vp,
        };
        if cnt > n as u64 {
            return Option::None;
        }
        if p2 >= n {
            return Option::None;
        }
        if s.get_char(p2) != '\n' {
            return Option::None;
        }
        let cnt_us = cnt as usize;
        let ghost start: int = p2 as int + 1;
        let mut entries: Vec<Rustlink> = Vec::new();
        let mut pos = p2 + 1;
        let mut k: usize = 0;
        while k < cnt_us
            invariant
                n == s@.len(),
                k <= cnt_us,
                pos <= n,
                decode_entries(s@, start, cnt_us as nat) == (match decode_entries(
                    s@,
                    pos as int,
                    (cnt_us - k) as nat,
                ) {
                    Option::Some(rp) => Option::Some(
                        (entry_views(entries@) + rp.0, rp.1),
                    ),
                    Option::None => Option::None::<(Seq<(Seq<char>, Seq<char>)>, int)>,
                }),
            decreases cnt_us - k,
        {
            let (a, pa) = match decode_str_exec(s, pos, n) {
                Option::None => {
                    proof {
                        assert(decode_entries(s@, pos as int, (cnt_us - k) as nat) is None);
                        assert(decode_entries(s@, start, cnt_us as nat) is None);
                        assert(decode_snapshot(s@) is None);
                    }
                    return Option::None;
                },
                Option::Some(tp) => tp,
            };
            let (u, pu) = match decode_str_exec(s, pa, n) {
                Option::None => {
                    proof {
                        assert(decode_entries(s@, pos as int, (cnt_us - k) as nat) is None);
                        assert(decode_entries(s@, start, cnt_us as nat) is None);
                        assert(decode_snapshot(s@) is None);
                    }
                    return Option::None;
                },
                Option::Some(tp) => tp,
            };
            let ghost old_entries = entries@;
            entries.push(Rustlink { alias: a, url: u });
            pos = pu;
            k = k + 1;
            proof {
                let m = (cnt_us - k + 1) as nat;
                assert(entry_views(entries@) =~= entry_views(old_entries).push(
                    (entries@.last().alias@, entries@.last().url@),
                ));
                assert(decode_entries(s@, start, cnt_us as nat) == (match decode_entries(
                    s@,
                    pos as int,
                    (cnt_us - k) as nat,
                ) {
                    Option::Some(rp) => Option::Some(
                        (entry_views(entries@) + rp.0, rp.1),
                    ),
                    Option::None => Option::None::<(Seq<(Seq<char>, Seq<char>)>, int)>,
                })) by {
                    match decode_entries(s@, pos as int, (cnt_us - k) as nat) {
                        Option::Some(rp) => {
                            assert(entry_views(old_entries) + (seq![
                                (entries@.last().alias@, entries@.last().url@),
                            ] + rp.0) =~= entry_views(entries@) + rp.0);
                        },
                        Option::None => {},
                    }
                }
            }
        }
        if pos != n {
            return Option::None;
        }
        let ghost decoded = entry_views(entries@);
        proof {
            assert(decode_entries(s@, pos as int, 0) == Option::Some(
                (Seq::<(Seq<char>, Seq<char>)>::empty(), pos as int),
            ));
            assert(decoded + Seq::<(Seq<char>, Seq<char>)>::empty() =~= decoded);
            assert(decode_entries(s@, start, cnt_us as nat) == Option::Some(
                (decoded, pos as int),
            ));
            assert(decode_snapshot(s@) == Option::Some((decoded, rev as int)));
        }
        let table = LinkTable::from_entries(entries);
        Option::Some(SerdeAppState { rustlinks: table, revision: rev as i64 })
    }
}

} // verus!
