//! Textual forms of addresses: the dotted-quad IPv4 text the cache stores,
//! and the colon-grouped IPv6 text, with one `::` gap allowed.

use vstd::prelude::*;

use crate::records::{Ipv4Addr, Ipv6Addr};
use crate::text::push_char;

verus! {

/// The value of a decimal digit, if the character is one.
pub open spec fn dec_digit(c: char) -> Option<int> {
    if '0' <= c && c <= '9' {
        Some(c as int - '0' as int)
    } else {
        None
    }
}

/// The value of a hexadecimal digit, if the character is one.
pub open spec fn hex_digit(c: char) -> Option<int> {
    if '0' <= c && c <= '9' {
        Some(c as int - '0' as int)
    } else if 'a' <= c && c <= 'f' {
        Some(10 + c as int - 'a' as int)
    } else if 'A' <= c && c <= 'F' {
        Some(10 + c as int - 'A' as int)
    } else {
        None
    }
}

/// The index of the first `sep` in `[i, end)`, or `end` if none.
pub open spec fn first_sep_in(s: Seq<char>, i: int, end: int, sep: char) -> int
    decreases end - i,
{
    if i < 0 || i >= end || i >= s.len() {
        end
    } else if s[i] == sep {
        i
    } else {
        first_sep_in(s, i + 1, end, sep)
    }
}

/// The value of the decimal digits in `[start, end)`, read left to right;
/// meaningful only when every character is a digit.
pub open spec fn dec_val(s: Seq<char>, start: int, end: int) -> int
    decreases end - start,
{
    if start >= end {
        0
    } else {
        dec_val(s, start, end - 1) * 10 + dec_digit(s[end - 1]).unwrap_or(0)
    }
}

/// The value of the hexadecimal digits in `[start, end)`, read left to
/// right; meaningful only when every character is a hex digit.
pub open spec fn hex_val(s: Seq<char>, start: int, end: int) -> int
    decreases end - start,
{
    if start >= end {
        0
    } else {
        hex_val(s, start, end - 1) * 16 + hex_digit(s[end - 1]).unwrap_or(0)
    }
}

/// One dotted-quad octet in `[start, end)`: one to three decimal digits,
/// no leading zero unless the octet is exactly "0", value at most 255.
pub open spec fn spec_parse_octet(s: Seq<char>, start: int, end: int) -> Option<u8> {
    if 1 <= end - start <= 3 && end <= s.len()
        && (forall|j: int| start <= j < end ==> dec_digit(s[j]) is Some)
        && (s[start] != '0' || end - start == 1)
        && dec_val(s, start, end) <= 255 {
        Some(dec_val(s, start, end) as u8)
    } else {
        None
    }
}

/// One IPv6 group in `[start, end)`: one to four hexadecimal digits.
pub open spec fn spec_parse_group(s: Seq<char>, start: int, end: int) -> Option<u16> {
    if 1 <= end - start <= 4 && end <= s.len()
        && (forall|j: int| start <= j < end ==> hex_digit(s[j]) is Some) {
        Some(hex_val(s, start, end) as u16)
    } else {
        None
    }
}

/// An IPv4 address in dotted-quad text: exactly four octets separated by
/// single dots.
pub open spec fn spec_parse_ipv4(s: Seq<char>) -> Option<Ipv4Addr> {
    let n = s.len() as int;
    let d1 = first_sep_in(s, 0, n, '.');
    let d2 = first_sep_in(s, d1 + 1, n, '.');
    let d3 = first_sep_in(s, d2 + 1, n, '.');
    let d4 = first_sep_in(s, d3 + 1, n, '.');
    if d1 < n && d2 < n && d3 < n && d4 == n {
        match (
            spec_parse_octet(s, 0, d1),
            spec_parse_octet(s, d1 + 1, d2),
            spec_parse_octet(s, d2 + 1, d3),
            spec_parse_octet(s, d3 + 1, n),
        ) {
            (Some(o0), Some(o1), Some(o2), Some(o3)) => Some(Ipv4Addr { o0, o1, o2, o3 }),
            _ => None,
        }
    } else {
        None
    }
}

/// The groups in `[start, end)` separated by single colons, each one a
/// valid hexadecimal group; an empty range holds no groups.
pub open spec fn spec_hex_groups(s: Seq<char>, start: int, end: int) -> Option<Seq<u16>>
    decreases end - start,
{
    if start >= end {
        Some(Seq::empty())
    } else {
        let d = first_sep_in(s, start, end, ':');
        match spec_parse_group(s, start, d) {
            None => None,
            Some(v) => if d >= end {
                Some(seq![v])
            } else if d + 1 >= end {
                None
            } else {
                match spec_hex_groups(s, d + 1, end) {
                    None => None,
                    Some(rest) => Some(seq![v] + rest),
                }
            },
        }
    }
}

/// The index of the last `sep` strictly before `i`, or -1 if none.
pub open spec fn last_sep_before(s: Seq<char>, i: int, sep: char) -> int
    decreases i,
{
    if i <= 0 || i > s.len() {
        -1
    } else if s[i - 1] == sep {
        i - 1
    } else {
        last_sep_before(s, i - 1, sep)
    }
}

/// The two 16-bit groups an embedded dotted-quad tail stands for.
pub open spec fn v4_tail_groups(a: Ipv4Addr) -> Seq<u16> {
    seq![
        ((a.o0 as u16) * 256 + a.o1 as u16) as u16,
        ((a.o2 as u16) * 256 + a.o3 as u16) as u16,
    ]
}

/// The index of the first `::` in `s` at or after `i`, or the length if
/// none.
pub open spec fn first_dcolon_from(s: Seq<char>, i: int) -> int
    decreases s.len() - i,
{
    if i < 0 || i + 1 >= s.len() {
        s.len() as int
    } else if s[i] == ':' && s[i + 1] == ':' {
        i
    } else {
        first_dcolon_from(s, i + 1)
    }
}

/// The address made of eight groups, padded in the middle with zeros
/// where a `::` gap stood.
pub open spec fn ipv6_from_groups(g: Seq<u16>) -> Ipv6Addr {
    Ipv6Addr {
        g0: g[0],
        g1: g[1],
        g2: g[2],
        g3: g[3],
        g4: g[4],
        g5: g[5],
        g6: g[6],
        g7: g[7],
    }
}

/// An IPv6 address in colon-grouped text: eight hexadecimal groups, or
/// fewer with a single `::` standing for at least one zero group; the
/// last two groups may instead be written as an embedded dotted-quad
/// IPv4 address after the final colon.
pub open spec fn spec_parse_ipv6(s: Seq<char>) -> Option<Ipv6Addr> {
    let n = s.len() as int;
    if first_sep_in(s, 0, n, '.') < n {
        // A dot: the text after the last colon must be an IPv4 tail
        // standing for the final two groups.
        let lc = last_sep_before(s, n, ':');
        if lc < 0 {
            None
        } else {
            match spec_parse_ipv4(s.subrange(lc + 1, n)) {
                None => None,
                Some(a4) => {
                    let k = first_dcolon_from(s, 0);
                    if k >= n {
                        match spec_hex_groups(s, 0, lc) {
                            Some(g) => if g.len() == 6 {
                                Some(ipv6_from_groups(g + v4_tail_groups(a4)))
                            } else {
                                None
                            },
                            None => None,
                        }
                    } else if k + 1 == lc {
                        // The gap sits right before the address tail.
                        match spec_hex_groups(s, 0, k) {
                            Some(l) => if l.len() <= 5 {
                                Some(ipv6_from_groups(
                                    l + Seq::new((6 - l.len()) as nat, |j: int| 0u16)
                                        + v4_tail_groups(a4),
                                ))
                            } else {
                                None
                            },
                            None => None,
                        }
                    } else if k + 2 < lc {
                        match (spec_hex_groups(s, 0, k), spec_hex_groups(s, k + 2, lc)) {
                            (Some(l), Some(r)) => if l.len() + r.len() <= 5 {
                                Some(ipv6_from_groups(
                                    l + Seq::new(
                                        (6 - l.len() - r.len()) as nat,
                                        |j: int| 0u16,
                                    ) + r + v4_tail_groups(a4),
                                ))
                            } else {
                                None
                            },
                            _ => None,
                        }
                    } else {
                        None
                    }
                },
            }
        }
    } else {
        let k = first_dcolon_from(s, 0);
        if k >= n {
            match spec_hex_groups(s, 0, n) {
                Some(g) => if g.len() == 8 {
                    Some(ipv6_from_groups(g))
                } else {
                    None
                },
                None => None,
            }
        } else {
            match (spec_hex_groups(s, 0, k), spec_hex_groups(s, k + 2, n)) {
                (Some(l), Some(r)) => if l.len() + r.len() <= 7 {
                    Some(ipv6_from_groups(
                        l + Seq::new((8 - l.len() - r.len()) as nat, |j: int| 0u16) + r,
                    ))
                } else {
                    None
                },
                _ => None,
            }
        }
    }
}

/// The canonical dotted-decimal text of one octet.
pub open spec fn spec_octet_chars(v: u8) -> Seq<char> {
    if v >= 100 {
        seq![
            ('0' as u8 + v / 100) as char,
            ('0' as u8 + (v / 10) % 10) as char,
            ('0' as u8 + v % 10) as char,
        ]
    } else if v >= 10 {
        seq![('0' as u8 + v / 10) as char, ('0' as u8 + v % 10) as char]
    } else {
        seq![('0' as u8 + v) as char]
    }
}

/// The canonical dotted-quad text of an address.
pub open spec fn spec_format_ipv4(a: Ipv4Addr) -> Seq<char> {
    spec_octet_chars(a.o0) + seq!['.'] + spec_octet_chars(a.o1) + seq!['.'] + spec_octet_chars(a.o2)
        + seq!['.'] + spec_octet_chars(a.o3)
}

/// Where a scan that saw no separator up to `d`, and a separator or the
/// end at `d`, must land: exactly at `d`.
proof fn lemma_first_sep_scan(s: Seq<char>, i: int, end: int, sep: char, d: int)
    requires
        0 <= i <= d <= end <= s.len(),
        forall|j: int| i <= j < d ==> s[j] != sep,
        d == end || s[d] == sep,
    ensures
        first_sep_in(s, i, end, sep) == d,
    decreases d - i,
{
    if i < d {
        lemma_first_sep_scan(s, i + 1, end, sep, d);
    }
}

/// The canonical text of one octet is all digits — so it holds no dot —
/// and parses back to the octet.
proof fn lemma_octet_chars_parse(s: Seq<char>, start: int, v: u8)
    requires
        0 <= start,
        start + spec_octet_chars(v).len() <= s.len(),
        s.subrange(start, start + spec_octet_chars(v).len()) == spec_octet_chars(v),
    ensures
        spec_parse_octet(s, start, start + spec_octet_chars(v).len()) == Some(v),
        forall|j: int| start <= j < start + spec_octet_chars(v).len() ==> s[j] != '.',
{
    let t = spec_octet_chars(v);
    if v >= 100 {
        assert(s[start] == t[0] && s[start + 1] == t[1] && s[start + 2] == t[2]);
        assert(dec_digit(s[start]) == Some((v / 100) as int));
        assert(dec_digit(s[start + 1]) == Some(((v / 10) % 10) as int));
        assert(dec_digit(s[start + 2]) == Some((v % 10) as int));
        assert(dec_val(s, start, start) == 0);
        assert(dec_val(s, start, start + 1) == dec_val(s, start, start) * 10 + dec_digit(
            s[start],
        ).unwrap_or(0));
        assert(dec_val(s, start, start + 2) == dec_val(s, start, start + 1) * 10 + dec_digit(
            s[start + 1],
        ).unwrap_or(0));
        assert(dec_val(s, start, start + 3) == dec_val(s, start, start + 2) * 10 + dec_digit(
            s[start + 2],
        ).unwrap_or(0));
        assert(dec_val(s, start, start + 3) == ((v / 100) * 10 + (v / 10) % 10) * 10 + v % 10);
        assert(((v / 100) * 10 + (v / 10) % 10) * 10 + v % 10 == v) by {
            assert(v / 10 == (v / 100) * 10 + (v / 10) % 10);
            assert(v == (v / 10) * 10 + v % 10);
        }
        assert(s[start] != '0');
    } else if v >= 10 {
        assert(s[start] == t[0] && s[start + 1] == t[1]);
        assert(dec_digit(s[start]) == Some((v / 10) as int));
        assert(dec_digit(s[start + 1]) == Some((v % 10) as int));
        assert(dec_val(s, start, start) == 0);
        assert(dec_val(s, start, start + 1) == dec_val(s, start, start) * 10 + dec_digit(
            s[start],
        ).unwrap_or(0));
        assert(dec_val(s, start, start + 2) == dec_val(s, start, start + 1) * 10 + dec_digit(
            s[start + 1],
        ).unwrap_or(0));
        assert(dec_val(s, start, start + 2) == (v / 10) * 10 + v % 10);
        assert(s[start] != '0');
    } else {
        assert(s[start] == t[0]);
        assert(dec_digit(s[start]) == Some(v as int));
        assert(dec_val(s, start, start) == 0);
        assert(dec_val(s, start, start + 1) == dec_val(s, start, start) * 10 + dec_digit(
            s[start],
        ).unwrap_or(0));
        assert(dec_val(s, start, start + 1) == v);
    }
}

/// Formatting an address and parsing the text back yields the address, so
/// a row freshly written for an A record always reads back as the record
/// it was made from.
pub proof fn lemma_format_parse_ipv4(a: Ipv4Addr)
    ensures
        spec_parse_ipv4(spec_format_ipv4(a)) == Some(a),
{
    let s = spec_format_ipv4(a);
    let t0 = spec_octet_chars(a.o0);
    let t1 = spec_octet_chars(a.o1);
    let t2 = spec_octet_chars(a.o2);
    let t3 = spec_octet_chars(a.o3);
    let l0 = t0.len() as int;
    let l1 = t1.len() as int;
    let l2 = t2.len() as int;
    let l3 = t3.len() as int;
    let n = s.len() as int;
    let p1 = l0;
    let p2 = l0 + 1 + l1;
    let p3 = l0 + 1 + l1 + 1 + l2;
    assert(n == l0 + 1 + l1 + 1 + l2 + 1 + l3);

    assert(s.subrange(0, p1) =~= t0);
    assert(s[p1] == '.');
    assert(s.subrange(p1 + 1, p2) =~= t1);
    assert(s[p2] == '.');
    assert(s.subrange(p2 + 1, p3) =~= t2);
    assert(s[p3] == '.');
    assert(s.subrange(p3 + 1, n) =~= t3);

    lemma_octet_chars_parse(s, 0, a.o0);
    lemma_octet_chars_parse(s, p1 + 1, a.o1);
    lemma_octet_chars_parse(s, p2 + 1, a.o2);
    lemma_octet_chars_parse(s, p3 + 1, a.o3);

    lemma_first_sep_scan(s, 0, n, '.', p1);
    lemma_first_sep_scan(s, p1 + 1, n, '.', p2);
    lemma_first_sep_scan(s, p2 + 1, n, '.', p3);
    lemma_first_sep_scan(s, p3 + 1, n, '.', n);
}

/// Appends one octet's decimal digits to `out`.
fn push_octet(out: &mut String, v: u8)
    ensures
        final(out)@ == old(out)@ + spec_octet_chars(v),
{
    if v >= 100 {
        push_char(out, (48u8 + v / 100) as char);
        push_char(out, (48u8 + (v / 10) % 10) as char);
        push_char(out, (48u8 + v % 10) as char);
        proof {
            assert(out@ =~= old(out)@ + spec_octet_chars(v));
        }
    } else if v >= 10 {
        push_char(out, (48u8 + v / 10) as char);
        push_char(out, (48u8 + v % 10) as char);
        proof {
            assert(out@ =~= old(out)@ + spec_octet_chars(v));
        }
    } else {
        push_char(out, (48u8 + v) as char);
        proof {
            assert(out@ =~= old(out)@ + spec_octet_chars(v));
        }
    }
}

/// The canonical dotted-quad text of an address, octets separated by dots.
pub fn format_ipv4(a: Ipv4Addr) -> (r: String)
    ensures
        r@ == spec_format_ipv4(a),
{
    let mut out = String::new();
    push_octet(&mut out, a.o0);
    push_char(&mut out, '.');
    push_octet(&mut out, a.o1);
    push_char(&mut out, '.');
    push_octet(&mut out, a.o2);
    push_char(&mut out, '.');
    push_octet(&mut out, a.o3);
    proof {
        assert(out@ =~= spec_format_ipv4(a));
    }
    out
}

/// The decimal digit value of a character, matching `dec_digit`.
fn dec_digit_exec(c: char) -> (r: Option<u8>)
    ensures
        match r {
            Some(v) => dec_digit(c) == Some(v as int),
            None => dec_digit(c) is None,
        },
{
    let u = c as u32;
    if 48 <= u && u <= 57 {
        Some((u - 48) as u8)
    } else {
        None
    }
}

/// The hexadecimal digit value of a character, matching `hex_digit`.
fn hex_digit_exec(c: char) -> (r: Option<u8>)
    ensures
        match r {
            Some(v) => hex_digit(c) == Some(v as int),
            None => hex_digit(c) is None,
        },
{
    let u = c as u32;
    if 48 <= u && u <= 57 {
        Some((u - 48) as u8)
    } else if 97 <= u && u <= 102 {
        Some((u - 87) as u8)
    } else if 65 <= u && u <= 70 {
        Some((u - 55) as u8)
    } else {
        None
    }
}

/// The index of the first `sep` in `[from, end)`, or `end` if none.
fn find_sep(s: &str, from: usize, end: usize, sep: char) -> (r: usize)
    requires
        from <= end <= s@.len(),
    ensures
        r == first_sep_in(s@, from as int, end as int, sep),
        from <= r <= end,
{
    let mut i = from;
    if i >= end {
        return end;
    }
    while i < end
        invariant
            end <= s@.len(),
            from <= i <= end,
            first_sep_in(s@, from as int, end as int, sep) == first_sep_in(
                s@,
                i as int,
                end as int,
                sep,
            ),
        decreases end - i,
    {
        if s.get_char(i) == sep {
            return i;
        }
        i = i + 1;
    }
    end
}

/// One dotted-quad octet, matching `spec_parse_octet`.
fn parse_octet(s: &str, start: usize, end: usize) -> (r: Option<u8>)
    requires
        start <= end,
    ensures
        r == spec_parse_octet(s@, start as int, end as int),
{
    if start >= end || end - start > 3 || end > s.unicode_len() {
        return None;
    }
    let mut val: u32 = 0;
    let mut i = start;
    while i < end
        invariant
            start <= i <= end <= s@.len(),
            end - start <= 3,
            forall|j: int| start <= j < i ==> dec_digit(s@[j]) is Some,
            val == dec_val(s@, start as int, i as int),
            i - start == 0 ==> val == 0,
            i - start == 1 ==> val <= 9,
            i - start == 2 ==> val <= 99,
            i - start == 3 ==> val <= 999,
        decreases end - i,
    {
        match dec_digit_exec(s.get_char(i)) {
            Some(d) => {
                val = val * 10 + d as u32;
            },
            None => {
                return None;
            },
        }
        i = i + 1;
    }
    if s.get_char(start) == '0' && end - start > 1 {
        return None;
    }
    if val > 255 {
        return None;
    }
    Some(val as u8)
}

/// One IPv6 group, matching `spec_parse_group`.
fn parse_group(s: &str, start: usize, end: usize) -> (r: Option<u16>)
    requires
        start <= end,
    ensures
        r == spec_parse_group(s@, start as int, end as int),
{
    if start >= end || end - start > 4 || end > s.unicode_len() {
        return None;
    }
    let mut val: u32 = 0;
    let mut i = start;
    while i < end
        invariant
            start <= i <= end <= s@.len(),
            end - start <= 4,
            forall|j: int| start <= j < i ==> hex_digit(s@[j]) is Some,
            val == hex_val(s@, start as int, i as int),
            i - start == 0 ==> val == 0,
            i - start == 1 ==> val <= 0xF,
            i - start == 2 ==> val <= 0xFF,
            i - start == 3 ==> val <= 0xFFF,
            i - start == 4 ==> val <= 0xFFFF,
        decreases end - i,
    {
        match hex_digit_exec(s.get_char(i)) {
            Some(d) => {
                val = val * 16 + d as u32;
            },
            None => {
                return None;
            },
        }
        i = i + 1;
    }
    Some(val as u16)
}

/// The groups in `[from, end)` separated by single colons, matching
/// `spec_hex_groups`.
fn parse_hex_groups(s: &str, from: usize, end: usize) -> (r: Option<Vec<u16>>)
    requires
        end <= s@.len(),
    ensures
        match r {
            Some(v) => spec_hex_groups(s@, from as int, end as int) == Some(v@),
            None => spec_hex_groups(s@, from as int, end as int) is None,
        },
    decreases end - from,
{
    if from >= end {
        let v: Vec<u16> = Vec::new();
        proof {
            assert(v@ =~= Seq::<u16>::empty());
        }
        return Some(v);
    }
    let d = find_sep(s, from, end, ':');
    let v = match parse_group(s, from, d) {
        Some(v) => v,
        None => {
            return None;
        },
    };
    if d >= end {
        let mut out: Vec<u16> = Vec::new();
        out.push(v);
        proof {
            assert(out@ =~= seq![v]);
        }
        Some(out)
    } else if d + 1 >= end {
        None
    } else {
        match parse_hex_groups(s, d + 1, end) {
            None => None,
            Some(mut rest) => {
                rest.insert(0, v);
                proof {
                    assert(rest@ =~= seq![v]
                        + spec_hex_groups(s@, d + 1 as int, end as int)->Some_0);
                }
                Some(rest)
            },
        }
    }
}

/// The index of the first `::`, or the length if none.
fn find_dcolon(s: &str) -> (r: usize)
    ensures
        r == first_dcolon_from(s@, 0),
        r <= s@.len(),
        r < s@.len() ==> r + 2 <= s@.len(),
{
    let n = s.unicode_len();
    let mut i: usize = 0;
    if n < 2 {
        return n;
    }
    while i < n - 1
        invariant
            n == s@.len(),
            2 <= n,
            i <= n,
            first_dcolon_from(s@, 0) == first_dcolon_from(s@, i as int),
        decreases n - i,
    {
        if s.get_char(i) == ':' && s.get_char(i + 1) == ':' {
            return i;
        }
        i = i + 1;
    }
    n
}

/// Parses dotted-quad IPv4 text: four octets separated by single dots.
pub fn parse_ipv4(s: &str) -> (r: Option<Ipv4Addr>)
    ensures
        r == spec_parse_ipv4(s@),
{
    let n = s.unicode_len();
    let d1 = find_sep(s, 0, n, '.');
    let d2 = if d1 < n {
        find_sep(s, d1 + 1, n, '.')
    } else {
        n
    };
    let d3 = if d2 < n {
        find_sep(s, d2 + 1, n, '.')
    } else {
        n
    };
    let d4 = if d3 < n {
        find_sep(s, d3 + 1, n, '.')
    } else {
        n
    };
    proof {
        if d1 >= n {
            assert(first_sep_in(s@, d1 + 1 as int, n as int, '.') == n);
        }
        if d2 >= n {
            assert(first_sep_in(s@, d2 + 1 as int, n as int, '.') == n);
        }
        if d3 >= n {
            assert(first_sep_in(s@, d3 + 1 as int, n as int, '.') == n);
        }
    }
    if !(d1 < n && d2 < n && d3 < n && d4 == n) {
        return None;
    }
    let o0 = match parse_octet(s, 0, d1) {
        Some(v) => v,
        None => {
            return None;
        },
    };
    let o1 = match parse_octet(s, d1 + 1, d2) {
        Some(v) => v,
        None => {
            return None;
        },
    };
    let o2 = match parse_octet(s, d2 + 1, d3) {
        Some(v) => v,
        None => {
            return None;
        },
    };
    let o3 = match parse_octet(s, d3 + 1, n) {
        Some(v) => v,
        None => {
            return None;
        },
    };
    Some(Ipv4Addr::new(o0, o1, o2, o3))
}

/// Parses colon-grouped IPv6 text: eight hexadecimal groups, or fewer
/// with one `::` gap standing for the missing zero groups.
/// The index of the last `sep` in `s`, scanning from the end.
fn find_last_sep(s: &str, sep: char) -> (r: Option<usize>)
    ensures
        match r {
            Some(i) => last_sep_before(s@, s@.len() as int, sep) == i && i < s@.len(),
            None => last_sep_before(s@, s@.len() as int, sep) == -1,
        },
{
    let n = s.unicode_len();
    let mut i = n;
    while i > 0
        invariant
            n == s@.len(),
            i <= n,
            last_sep_before(s@, n as int, sep) == last_sep_before(s@, i as int, sep),
        decreases i,
    {
        if s.get_char(i - 1) == sep {
            return Some(i - 1);
        }
        i = i - 1;
    }
    None
}

/// Builds the eight groups of an address whose last two groups come from
/// an embedded IPv4 tail: the head groups, the gap's zero groups, the
/// groups after the gap, and the tail's two groups.
fn assemble_v6_with_tail(left: Vec<u16>, right: Vec<u16>, hi: u16, lo: u16) -> (r: Ipv6Addr)
    requires
        left@.len() + right@.len() <= 6,
    ensures
        r == ipv6_from_groups(
            left@ + Seq::new((6 - left@.len() - right@.len()) as nat, |j: int| 0u16) + right@
                + seq![hi, lo],
        ),
{
    let ghost lseq = left@;
    let ghost rseq = right@;
    let fill = 6 - left.len() - right.len();
    let mut g = left;
    let mut c: usize = 0;
    while c < fill
        invariant
            c <= fill,
            g@ == lseq + Seq::new(c as nat, |j: int| 0u16),
        decreases fill - c,
    {
        g.push(0);
        proof {
            assert(g@ =~= lseq + Seq::new((c + 1) as nat, |j: int| 0u16));
        }
        c = c + 1;
    }
    let mut c2: usize = 0;
    let rlen = right.len();
    while c2 < rlen
        invariant
            c2 <= rlen,
            rlen == rseq.len(),
            rseq == right@,
            g@ == lseq + Seq::new(fill as nat, |j: int| 0u16) + rseq.subrange(0, c2 as int),
        decreases rlen - c2,
    {
        g.push(right[c2]);
        proof {
            assert(g@ =~= lseq + Seq::new(fill as nat, |j: int| 0u16) + rseq.subrange(
                0,
                (c2 + 1) as int,
            ));
        }
        c2 = c2 + 1;
    }
    g.push(hi);
    g.push(lo);
    proof {
        assert(rseq.subrange(0, rlen as int) =~= rseq);
        assert(g@ =~= lseq + Seq::new(fill as nat, |j: int| 0u16) + rseq + seq![hi, lo]);
    }
    Ipv6Addr::new(g[0], g[1], g[2], g[3], g[4], g[5], g[6], g[7])
}

/// Parses text whose last colon is followed by a dotted-quad tail.
fn parse_ipv6_v4_tail(s: &str) -> (r: Option<Ipv6Addr>)
    requires
        first_sep_in(s@, 0, s@.len() as int, '.') < s@.len(),
    ensures
        r == spec_parse_ipv6(s@),
{
    let n = s.unicode_len();
    let lc = match find_last_sep(s, ':') {
        Some(i) => i,
        None => {
            return None;
        },
    };
    let tail = s.substring_char(lc + 1, n);
    let a4 = match parse_ipv4(tail) {
        Some(a) => a,
        None => {
            return None;
        },
    };
    let hi = (a4.o0 as u16) * 256 + (a4.o1 as u16);
    let lo = (a4.o2 as u16) * 256 + (a4.o3 as u16);
    let k = find_dcolon(s);
    if k >= n {
        match parse_hex_groups(s, 0, lc) {
            Some(g) => {
                if g.len() == 6 {
                    let ghost gs = g@;
                    let out = assemble_v6_with_tail(g, Vec::new(), hi, lo);
                    proof {
                        assert(gs + Seq::new(0nat, |j: int| 0u16) + Seq::<u16>::empty()
                            + seq![hi, lo] =~= gs + v4_tail_groups(a4));
                    }
                    Some(out)
                } else {
                    None
                }
            },
            None => None,
        }
    } else if k + 1 == lc {
        match parse_hex_groups(s, 0, k) {
            Some(l) => {
                if l.len() <= 5 {
                    let ghost lseq = l@;
                    let out = assemble_v6_with_tail(l, Vec::new(), hi, lo);
                    proof {
                        assert(lseq + Seq::new((6 - lseq.len()) as nat, |j: int| 0u16)
                            + Seq::<u16>::empty() + seq![hi, lo] =~= lseq + Seq::new(
                            (6 - lseq.len()) as nat,
                            |j: int| 0u16,
                        ) + v4_tail_groups(a4));
                    }
                    Some(out)
                } else {
                    None
                }
            },
            None => None,
        }
    } else if k + 2 < lc {
        let left = match parse_hex_groups(s, 0, k) {
            Some(l) => l,
            None => {
                return None;
            },
        };
        let right = match parse_hex_groups(s, k + 2, lc) {
            Some(x) => x,
            None => {
                return None;
            },
        };
        if left.len() > 5 || right.len() > 5 || left.len() + right.len() > 5 {
            return None;
        }
        let ghost lseq = left@;
        let ghost rseq = right@;
        let out = assemble_v6_with_tail(left, right, hi, lo);
        proof {
            assert(lseq + Seq::new((6 - lseq.len() - rseq.len()) as nat, |j: int| 0u16) + rseq
                + seq![hi, lo] =~= lseq + Seq::new(
                (6 - lseq.len() - rseq.len()) as nat,
                |j: int| 0u16,
            ) + rseq + v4_tail_groups(a4));
        }
        Some(out)
    } else {
        None
    }
}

pub fn parse_ipv6(s: &str) -> (r: Option<Ipv6Addr>)
    ensures
        r == spec_parse_ipv6(s@),
{
    let n = s.unicode_len();
    if find_sep(s, 0, n, '.') < n {
        return parse_ipv6_v4_tail(s);
    }
    let k = find_dcolon(s);
    if k >= n {
        match parse_hex_groups(s, 0, n) {
            Some(g) => {
                if g.len() == 8 {
                    Some(Ipv6Addr::new(g[0], g[1], g[2], g[3], g[4], g[5], g[6], g[7]))
                } else {
                    None
                }
            },
            None => None,
        }
    } else {
        let left = match parse_hex_groups(s, 0, k) {
            Some(l) => l,
            None => {
                return None;
            },
        };
        let right = match parse_hex_groups(s, k + 2, n) {
            Some(x) => x,
            None => {
                return None;
            },
        };
        if left.len() > 7 || right.len() > 7 || left.len() + right.len() > 7 {
            return None;
        }
        let ghost lseq = left@;
        let ghost rseq = right@;
        let fill = 8 - left.len() - right.len();
        let mut g = left;
        let mut c: usize = 0;
        while c < fill
            invariant
                c <= fill,
                g@ == lseq + Seq::new(c as nat, |j: int| 0u16),
            decreases fill - c,
        {
            g.push(0);
            proof {
                assert(g@ =~= lseq + Seq::new((c + 1) as nat, |j: int| 0u16));
            }
            c = c + 1;
        }
        let mut c2: usize = 0;
        let rlen = right.len();
        while c2 < rlen
            invariant
                c2 <= rlen,
                rlen == rseq.len(),
                rseq == right@,
                g@ == lseq + Seq::new(fill as nat, |j: int| 0u16) + rseq.subrange(0, c2 as int),
            decreases rlen - c2,
        {
            g.push(right[c2]);
            proof {
                assert(g@ =~= lseq + Seq::new(fill as nat, |j: int| 0u16) + rseq.subrange(
                    0,
                    (c2 + 1) as int,
                ));
            }
            c2 = c2 + 1;
        }
        proof {
            assert(rseq.subrange(0, rlen as int) =~= rseq);
            assert(g@ == lseq + Seq::new(fill as nat, |j: int| 0u16) + rseq);
        }
        Some(Ipv6Addr::new(g[0], g[1], g[2], g[3], g[4], g[5], g[6], g[7]))
    }
}

} // verus!
