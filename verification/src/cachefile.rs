//! The fingerprint record as a file.
//!
//! One line per file: the absolute path, one space, and the fingerprint as a
//! signed decimal; no header and no trailing newline.  Reading accepts what
//! writing produces: each line must hold at least two blank-separated
//! fields, the second a decimal of at most twenty digits with an optional
//! leading minus that fits a signed 64-bit value; anything after the second
//! field is ignored.

use vstd::prelude::*;

use crate::changes::CacheMap;
use crate::strutil::chars_of;

verus! {

/// Relies on alloc's String::push: it appends exactly one character.
pub assume_specification[ String::push ](s: &mut String, c: char)
    ensures
        final(s)@ == old(s)@.push(c),
;

/// The glyph of one decimal digit.
pub open spec fn digit_char(d: int) -> char {
    if d == 0 {
        '0'
    } else if d == 1 {
        '1'
    } else if d == 2 {
        '2'
    } else if d == 3 {
        '3'
    } else if d == 4 {
        '4'
    } else if d == 5 {
        '5'
    } else if d == 6 {
        '6'
    } else if d == 7 {
        '7'
    } else if d == 8 {
        '8'
    } else {
        '9'
    }
}

/// The value of one glyph, or `-1` for a non-digit.
pub open spec fn digit_val(c: char) -> int {
    if c == '0' {
        0
    } else if c == '1' {
        1
    } else if c == '2' {
        2
    } else if c == '3' {
        3
    } else if c == '4' {
        4
    } else if c == '5' {
        5
    } else if c == '6' {
        6
    } else if c == '7' {
        7
    } else if c == '8' {
        8
    } else if c == '9' {
        9
    } else {
        -1
    }
}

/// The decimal text of a non-negative value.
pub open spec fn dec_str(n: nat) -> Seq<char>
    decreases n,
{
    if n < 10 {
        seq![digit_char(n as int)]
    } else {
        dec_str(n / 10).push(digit_char((n % 10) as int))
    }
}

/// The decimal text of a fingerprint.
pub open spec fn fp_str(v: int) -> Seq<char> {
    if v < 0 {
        seq!['-'] + dec_str((-v) as nat)
    } else {
        dec_str(v as nat)
    }
}

/// One record line.
pub open spec fn cache_line(p: Seq<char>, v: int) -> Seq<char> {
    p + seq![' '] + fp_str(v)
}

/// The whole record text, lines separated by single newlines.
pub open spec fn format_cache(items: Seq<(String, i64)>) -> Seq<char>
    decreases items.len(),
{
    if items.len() == 0 {
        Seq::empty()
    } else if items.len() == 1 {
        cache_line(items[0].0@, items[0].1 as int)
    } else {
        format_cache(items.drop_last()) + seq!['\n'] + cache_line(
            items.last().0@,
            items.last().1 as int,
        )
    }
}

/// The value of a digit string, or `-1` when it is empty or holds a
/// non-digit.
pub open spec fn dec_val(s: Seq<char>) -> int
    decreases s.len(),
{
    if s.len() == 0 {
        -1
    } else if s.len() == 1 {
        digit_val(s[0])
    } else {
        let hi = dec_val(s.drop_last());
        let lo = digit_val(s.last());
        if hi < 0 || lo < 0 {
            -1
        } else {
            hi * 10 + lo
        }
    }
}

/// The fingerprint a field spells: digits with an optional leading minus, at
/// most twenty digits, within the signed 64-bit range.
pub open spec fn field_val(s: Seq<char>) -> Option<int> {
    let digits = if s.len() > 0 && s[0] == '-' {
        s.skip(1)
    } else {
        s
    };
    let v = dec_val(digits);
    if digits.len() > 20 || v < 0 {
        None
    } else {
        let signed: int = if s.len() > 0 && s[0] == '-' {
            -v
        } else {
            v
        };
        if -0x8000_0000_0000_0000 <= signed < 0x8000_0000_0000_0000 {
            Some(signed)
        } else {
            None
        }
    }
}

/// The digit of a value below ten.
fn digit_of(d: u64) -> (r: char)
    requires
        d < 10,
    ensures
        r == digit_char(d as int),
{
    if d == 0 {
        '0'
    } else if d == 1 {
        '1'
    } else if d == 2 {
        '2'
    } else if d == 3 {
        '3'
    } else if d == 4 {
        '4'
    } else if d == 5 {
        '5'
    } else if d == 6 {
        '6'
    } else if d == 7 {
        '7'
    } else if d == 8 {
        '8'
    } else {
        '9'
    }
}

/// Appends the decimal text of `n`.
fn push_dec(out: &mut String, n: u64)
    ensures
        final(out)@ == old(out)@ + dec_str(n as nat),
    decreases n,
{
    if n >= 10 {
        push_dec(out, n / 10);
        out.push(digit_of(n % 10));
        proof {
            assert(final(out)@ =~= old(out)@ + dec_str(n as nat));
        }
    } else {
        out.push(digit_of(n));
        proof {
            assert(final(out)@ =~= old(out)@ + dec_str(n as nat));
        }
    }
}

/// Appends the decimal text of a fingerprint.
fn push_fp(out: &mut String, v: i64)
    ensures
        final(out)@ == old(out)@ + fp_str(v as int),
{
    if v < 0 {
        out.push('-');
        let m: u64 = (-(v as i128)) as u64;
        proof {
            assert(m as nat == (-(v as int)) as nat);
        }
        push_dec(out, m);
        proof {
            assert(final(out)@ =~= old(out)@ + fp_str(v as int));
        }
    } else {
        push_dec(out, v as u64);
    }
}

/// Writes a record out as lines of path and fingerprint.
pub fn format_checksums(c: &CacheMap) -> (r: String)
    ensures
        r@ == format_cache(c.items@),
{
    let mut out = String::new();
    let mut i: usize = 0;
    let n = c.items.len();
    while i < n
        invariant
            i <= n,
            n == c.items@.len(),
            out@ == format_cache(c.items@.take(i as int)),
        decreases n - i,
    {
        proof {
            assert(c.items@.take(i as int + 1).drop_last() =~= c.items@.take(i as int));
            assert(c.items@.take(i as int + 1).last() == c.items@[i as int]);
        }
        if i > 0 {
            out.push('\n');
        }
        out.append(c.items[i].0.as_str());
        out.push(' ');
        push_fp(&mut out, c.items[i].1);
        proof {
            if i == 0 {
                assert(out@ =~= format_cache(c.items@.take(1)));
            } else {
                assert(out@ =~= format_cache(c.items@.take(i as int + 1)));
            }
        }
        i = i + 1;
    }
    proof {
        assert(c.items@.take(n as int) =~= c.items@);
    }
    out
}

/// Reads one field as a fingerprint.
fn parse_field(chars: &Vec<char>, start: usize, end: usize) -> (r: Option<i64>)
    requires
        start <= end <= chars@.len(),
    ensures
        match r {
            Some(v) => field_val(chars@.subrange(start as int, end as int)) == Some(v as int),
            None => field_val(chars@.subrange(start as int, end as int)) is None,
        },
{
    let ghost s = chars@.subrange(start as int, end as int);
    proof {
        assert(s.len() == end - start);
    }
    let neg = start < end && chars[start] == '-';
    proof {
        if start < end {
            assert(s[0] == chars@[start as int]);
        }
        assert(neg == (s.len() > 0 && s[0] == '-'));
    }
    let dstart = if neg {
        start + 1
    } else {
        start
    };
    let ghost digits = if neg {
        s.skip(1)
    } else {
        s
    };
    proof {
        assert(digits =~= chars@.subrange(dstart as int, end as int));
    }
    if end - dstart > 20 {
        return None;
    }
    if end - dstart == 0 {
        proof {
            assert(dec_val(digits) == -1);
        }
        return None;
    }
    proof {
        reveal_with_fuel(pow10, 25);
        assert(pow10(21) == 1000_0000_0000_0000_0000_00);
    }
    let mut acc: u128 = 0;
    let mut k = dstart;
    while k < end
        invariant
            start <= dstart <= k <= end <= chars@.len(),
            end - dstart <= 20,
            s == chars@.subrange(start as int, end as int),
            neg == (s.len() > 0 && s[0] == '-'),
            digits == (if neg { s.skip(1) } else { s }),
            dstart == (if neg { start + 1 as int } else { start as int }),
            digits == chars@.subrange(dstart as int, end as int),
            k > dstart ==> acc as int == dec_val(chars@.subrange(dstart as int, k as int)),
            k > dstart ==> dec_val(chars@.subrange(dstart as int, k as int)) >= 0,
            k == dstart ==> acc == 0,
            acc < pow10(21),
            pow10(21) == 1000_0000_0000_0000_0000_00,
            (acc as int) < pow10((k - dstart) as nat) || k == dstart,
        decreases end - k,
    {
        let c = chars[k];
        let d: u128 = if c == '0' {
            0
        } else if c == '1' {
            1
        } else if c == '2' {
            2
        } else if c == '3' {
            3
        } else if c == '4' {
            4
        } else if c == '5' {
            5
        } else if c == '6' {
            6
        } else if c == '7' {
            7
        } else if c == '8' {
            8
        } else if c == '9' {
            9
        } else {
            proof {
                assert(digit_val(chars@[k as int]) < 0);
                lemma_dec_val_bad(digits, k - dstart);
            }
            return None;
        };
        proof {
            assert(d as int == digit_val(chars@[k as int]));
            assert(chars@.subrange(dstart as int, k as int + 1).drop_last() =~= chars@.subrange(
                dstart as int,
                k as int,
            ));
            assert(chars@.subrange(dstart as int, k as int + 1).last() == chars@[k as int]);
            if k == dstart {
                assert(chars@.subrange(dstart as int, k as int + 1).len() == 1);
            }
            lemma_pow10_step((k - dstart) as nat);
            assert(acc * 10 + d < pow10((k + 1 - dstart) as nat));
            lemma_pow10_mono((k + 1 - dstart) as nat, 21);
        }
        acc = acc * 10 + d;
        k = k + 1;
    }
    proof {
        assert(chars@.subrange(dstart as int, end as int) =~= digits);
        assert(acc as int == dec_val(digits));
    }
    if neg {
        if acc > 0x8000_0000_0000_0000u128 {
            return None;
        }
        let v: i64 = (-(acc as i128)) as i64;
        proof {
            assert(v as int == -(dec_val(digits)));
        }
        Some(v)
    } else {
        if acc > 0x7fff_ffff_ffff_ffffu128 {
            return None;
        }
        Some(acc as i64)
    }
}

/// Ten to the `b`.
pub open spec fn pow10(b: nat) -> int
    decreases b,
{
    if b == 0 {
        1
    } else {
        10 * pow10((b - 1) as nat)
    }
}

proof fn lemma_pow10_pos(b: nat)
    ensures
        pow10(b) >= 1,
    decreases b,
{
    if b > 0 {
        lemma_pow10_pos((b - 1) as nat);
    }
}

proof fn lemma_pow10_step(b: nat)
    ensures
        pow10(b + 1) == 10 * pow10(b),
        pow10(b) >= 1,
{
    lemma_pow10_pos(b);
    assert(pow10(b + 1) == 10 * pow10((b + 1 - 1) as nat));
}

proof fn lemma_pow10_mono(a: nat, b: nat)
    requires
        a <= b,
    ensures
        pow10(a) <= pow10(b),
    decreases b,
{
    if a < b {
        lemma_pow10_mono(a, (b - 1) as nat);
        lemma_pow10_pos((b - 1) as nat);
    }
}

/// A blank character inside a record line.
pub open spec fn is_blank(c: char) -> bool {
    c == ' ' || c == '\t' || c == '\r'
}

/// The first non-blank position in `[from, lim)`, or `lim`.
pub open spec fn skip_blank(s: Seq<char>, from: nat, lim: nat) -> nat
    decreases lim - from,
{
    if from >= lim || from >= s.len() {
        from
    } else if is_blank(s[from as int]) {
        skip_blank(s, from + 1, lim)
    } else {
        from
    }
}

/// The first blank position in `[from, lim)`, or `lim`.
pub open spec fn tok_end(s: Seq<char>, from: nat, lim: nat) -> nat
    decreases lim - from,
{
    if from >= lim || from >= s.len() {
        from
    } else if !is_blank(s[from as int]) {
        tok_end(s, from + 1, lim)
    } else {
        from
    }
}

/// The first newline at or after `pos`, or the end of the text.
pub open spec fn line_end(s: Seq<char>, pos: nat) -> nat
    decreases s.len() - pos,
{
    if pos >= s.len() {
        s.len()
    } else if s[pos as int] == '\n' {
        pos
    } else {
        line_end(s, pos + 1)
    }
}

/// What the line `[pos, lend)` records: its first blank-separated field as
/// the path and its second as the fingerprint; nothing when a field is
/// missing or the fingerprint does not read.
pub open spec fn line_entry_at(s: Seq<char>, pos: nat, lend: nat) -> Option<(Seq<char>, int)> {
    let t1s = skip_blank(s, pos, lend);
    if t1s >= lend {
        None
    } else {
        let t1e = tok_end(s, t1s, lend);
        let t2s = skip_blank(s, t1e, lend);
        if t2s >= lend {
            None
        } else {
            let t2e = tok_end(s, t2s, lend);
            match field_val(s.subrange(t2s as int, t2e as int)) {
                Some(v) => Some((s.subrange(t1s as int, t1e as int), v)),
                None => None,
            }
        }
    }
}

/// The records of the text from `pos` on, line by line; nothing when any
/// line does not read.  A final newline ends the last line; it does not
/// open an empty one.
pub open spec fn parse_from(s: Seq<char>, pos: nat) -> Option<Seq<(Seq<char>, int)>>
    decreases s.len() - pos,
{
    if pos >= s.len() {
        Some(Seq::empty())
    } else {
        let lend = line_end(s, pos);
        if lend < pos || lend > s.len() {
            None
        } else {
            match line_entry_at(s, pos, lend) {
                None => None,
                Some(e) => {
                    let rest = if lend >= s.len() {
                        Some(Seq::empty())
                    } else {
                        parse_from(s, lend + 1)
                    };
                    match rest {
                        None => None,
                        Some(tail) => Some(seq![e] + tail),
                    }
                },
            }
        }
    }
}

/// The records a whole text spells.
pub open spec fn parse_cache_spec(s: Seq<char>) -> Option<Seq<(Seq<char>, int)>> {
    parse_from(s, 0)
}

/// The path and fingerprint of each record line.
pub open spec fn cache_items_model(items: Seq<(String, i64)>) -> Seq<(Seq<char>, int)> {
    items.map_values(|p: (String, i64)| (p.0@, p.1 as int))
}

/// The first non-blank position in `[from, lim)`, or `lim`.
fn skip_blank_at(chars: &Vec<char>, from: usize, lim: usize) -> (r: usize)
    requires
        from <= lim <= chars@.len(),
    ensures
        r == skip_blank(chars@, from as nat, lim as nat),
        from <= r <= lim,
{
    let mut i = from;
    while i < lim && (chars[i] == ' ' || chars[i] == '\t' || chars[i] == '\r')
        invariant
            from <= i <= lim <= chars@.len(),
            skip_blank(chars@, from as nat, lim as nat) == skip_blank(chars@, i as nat, lim as nat),
        decreases lim - i,
    {
        i = i + 1;
    }
    i
}

/// The first blank position in `[from, lim)`, or `lim`.
fn tok_end_at(chars: &Vec<char>, from: usize, lim: usize) -> (r: usize)
    requires
        from <= lim <= chars@.len(),
    ensures
        r == tok_end(chars@, from as nat, lim as nat),
        from <= r <= lim,
{
    let mut i = from;
    while i < lim && !(chars[i] == ' ' || chars[i] == '\t' || chars[i] == '\r')
        invariant
            from <= i <= lim <= chars@.len(),
            tok_end(chars@, from as nat, lim as nat) == tok_end(chars@, i as nat, lim as nat),
        decreases lim - i,
    {
        i = i + 1;
    }
    i
}

/// The first newline at or after `pos`, or the end.
fn line_end_at(chars: &Vec<char>, pos: usize) -> (r: usize)
    requires
        pos <= chars@.len(),
    ensures
        r == line_end(chars@, pos as nat),
        pos <= r <= chars@.len(),
{
    let mut i = pos;
    while i < chars.len() && chars[i] != '\n'
        invariant
            pos <= i <= chars@.len(),
            line_end(chars@, pos as nat) == line_end(chars@, i as nat),
        decreases chars@.len() - i,
    {
        i = i + 1;
    }
    i
}

/// Reads a fingerprint record back from its file text.
pub fn parse_checksums(text: &str) -> (r: Option<CacheMap>)
    ensures
        match r {
            Some(c) => parse_cache_spec(text@) == Some(cache_items_model(c.items@)),
            None => parse_cache_spec(text@) is None,
        },
{
    let chars = chars_of(text);
    let n = chars.len();
    let mut items: Vec<(String, i64)> = Vec::new();
    let mut pos: usize = 0;
    proof {
        assert(cache_items_model(items@) =~= Seq::<(Seq<char>, int)>::empty());
    }
    while pos < n
        invariant
            chars@ == text@,
            pos <= n,
            n == chars@.len(),
            match parse_from(text@, pos as nat) {
                Some(rest) => parse_cache_spec(text@) == Some(cache_items_model(items@) + rest),
                None => parse_cache_spec(text@) is None,
            },
        decreases n - pos,
    {
        let lend = line_end_at(&chars, pos);
        let t1s = skip_blank_at(&chars, pos, lend);
        if t1s >= lend {
            return None;
        }
        let t1e = tok_end_at(&chars, t1s, lend);
        let t2s = skip_blank_at(&chars, t1e, lend);
        if t2s >= lend {
            return None;
        }
        let t2e = tok_end_at(&chars, t2s, lend);
        let v = match parse_field(&chars, t2s, t2e) {
            Some(v) => v,
            None => {
                return None;
            },
        };
        let path = text.substring_char(t1s, t1e).to_owned();
        let ghost prev = items@;
        items.push((path, v));
        proof {
            assert(line_entry_at(text@, pos as nat, lend as nat) == Some(
                (text@.subrange(t1s as int, t1e as int), v as int),
            ));
            assert forall|x: int| 0 <= x < cache_items_model(items@).len() implies
                cache_items_model(items@)[x] == cache_items_model(prev).push(
                (text@.subrange(t1s as int, t1e as int), v as int),
            )[x] by {
                if x < prev.len() {
                    assert(items@[x] == prev[x]);
                }
            }
            assert(cache_items_model(items@) =~= cache_items_model(prev).push(
                (text@.subrange(t1s as int, t1e as int), v as int),
            ));
            match parse_from(text@, lend as nat + 1) {
                Some(tail) => {
                    if (lend as nat) < text@.len() {
                        assert(cache_items_model(prev) + (seq![
                            (text@.subrange(t1s as int, t1e as int), v as int),
                        ] + tail) =~= cache_items_model(items@) + tail);
                    }
                },
                None => {},
            }
            if lend as nat >= text@.len() {
                assert(cache_items_model(prev) + (seq![
                    (text@.subrange(t1s as int, t1e as int), v as int),
                ] + Seq::<(Seq<char>, int)>::empty()) =~= cache_items_model(items@) + Seq::<
                    (Seq<char>, int),
                >::empty());
            }
        }
        if lend >= n {
            pos = n;
        } else {
            pos = lend + 1;
        }
    }
    proof {
        assert(parse_from(text@, n as nat) == Some(Seq::<(Seq<char>, int)>::empty()));
        assert(cache_items_model(items@) + Seq::<(Seq<char>, int)>::empty() =~= cache_items_model(
            items@,
        ));
    }
    Some(CacheMap { items })
}

/// A non-digit anywhere makes the whole string no decimal.
proof fn lemma_dec_val_bad(s: Seq<char>, k: int)
    requires
        0 <= k < s.len(),
        digit_val(s[k]) < 0,
    ensures
        dec_val(s) < 0,
    decreases s.len(),
{
    if s.len() > 1 {
        if k < s.len() - 1 {
            lemma_dec_val_bad(s.drop_last(), k);
        }
    }
}

} // verus!
