//! Typed parsing of resolved template text.
//!
//! The grammars are the library's own: an IPv4 address is four decimal
//! octets without leading zeros, joined by dots; an IPv6 address is up to
//! eight groups of one to four hex digits joined by colons, with at most
//! one `::` standing for the elided zero groups; a port-like field is a
//! decimal number that fits in sixteen bits, leading zeros allowed.

use vstd::prelude::*;

use crate::record::{Ipv4, Ipv6};

verus! {

/// A decimal digit.
pub open spec fn is_digit(c: char) -> bool {
    '0' <= c && c <= '9'
}

/// The value of a decimal digit.
pub open spec fn digit_val(c: char) -> int {
    c as int - '0' as int
}

/// Whether every character is a decimal digit.
pub open spec fn all_digits(s: Seq<char>) -> bool {
    forall|i: int| 0 <= i < s.len() ==> is_digit(#[trigger] s[i])
}

/// The value of a decimal digit string.
pub open spec fn dec_val(s: Seq<char>) -> int
    decreases s.len(),
{
    if s.len() == 0 {
        0
    } else {
        dec_val(s.drop_last()) * 10 + digit_val(s.last())
    }
}

/// A hexadecimal digit.
pub open spec fn is_hex_digit(c: char) -> bool {
    ('0' <= c && c <= '9') || ('a' <= c && c <= 'f') || ('A' <= c && c <= 'F')
}

/// The value of a hexadecimal digit.
pub open spec fn hex_digit_val(c: char) -> int {
    if '0' <= c && c <= '9' {
        c as int - '0' as int
    } else if 'a' <= c && c <= 'f' {
        c as int - 'a' as int + 10
    } else {
        c as int - 'A' as int + 10
    }
}

/// The value of a hexadecimal digit string.
pub open spec fn hex_val(s: Seq<char>) -> int
    decreases s.len(),
{
    if s.len() == 0 {
        0
    } else {
        hex_val(s.drop_last()) * 16 + hex_digit_val(s.last())
    }
}

/// Sixteen to the `n`.
pub open spec fn pow16(n: nat) -> int
    decreases n,
{
    if n == 0 {
        1
    } else {
        16 * pow16((n - 1) as nat)
    }
}

/// The end of the run of decimal digits starting at `i`.
pub open spec fn digit_run_end(s: Seq<char>, i: int) -> int
    decreases s.len() - i,
{
    if 0 <= i < s.len() && is_digit(s[i]) {
        digit_run_end(s, i + 1)
    } else {
        i
    }
}

/// The end of the run of hexadecimal digits starting at `i`.
pub open spec fn hex_run_end(s: Seq<char>, i: int) -> int
    decreases s.len() - i,
{
    if 0 <= i < s.len() && is_hex_digit(s[i]) {
        hex_run_end(s, i + 1)
    } else {
        i
    }
}

/// A canonical decimal octet: digits, no leading zero, value at most 255.
pub open spec fn valid_octet_text(s: Seq<char>) -> bool {
    s.len() > 0 && all_digits(s) && (s[0] == '0' ==> s.len() == 1) && dec_val(s) <= 255
}

/// The digit value is never negative.
pub proof fn lemma_dec_val_nonneg(s: Seq<char>)
    requires
        all_digits(s),
    ensures
        dec_val(s) >= 0,
    decreases s.len(),
{
    if s.len() > 0 {
        assert(forall|i: int| 0 <= i < s.len() - 1 ==> is_digit(#[trigger] s.drop_last()[i]));
        lemma_dec_val_nonneg(s.drop_last());
    }
}

/// A digit string's value bounds the value of every prefix.
pub proof fn lemma_dec_val_prefix(s: Seq<char>, k: int)
    requires
        all_digits(s),
        0 <= k <= s.len(),
    ensures
        dec_val(s.take(k)) <= dec_val(s),
    decreases s.len(),
{
    if k == s.len() {
        assert(s.take(k) =~= s);
    } else {
        assert(forall|i: int| 0 <= i < s.len() - 1 ==> is_digit(#[trigger] s.drop_last()[i]));
        lemma_dec_val_prefix(s.drop_last(), k);
        assert(s.take(k) =~= s.drop_last().take(k));
        lemma_dec_val_nonneg(s.drop_last());
    }
}

/// The hex value is nonnegative and below sixteen to the length.
pub proof fn lemma_hex_val_bound(s: Seq<char>)
    requires
        forall|i: int| 0 <= i < s.len() ==> is_hex_digit(#[trigger] s[i]),
    ensures
        0 <= hex_val(s) < pow16(s.len()),
    decreases s.len(),
{
    if s.len() > 0 {
        assert(forall|i: int|
            0 <= i < s.len() - 1 ==> is_hex_digit(#[trigger] s.drop_last()[i]));
        lemma_hex_val_bound(s.drop_last());
    }
}

/// The digit run end lies between `i` and the length, covers digits only,
/// and stops at a non-digit.
pub proof fn lemma_digit_run_end(s: Seq<char>, i: int)
    requires
        0 <= i <= s.len(),
    ensures
        i <= digit_run_end(s, i) <= s.len(),
        forall|j: int| i <= j < digit_run_end(s, i) ==> is_digit(#[trigger] s[j]),
        digit_run_end(s, i) < s.len() ==> !is_digit(s[digit_run_end(s, i)]),
    decreases s.len() - i,
{
    if i < s.len() && is_digit(s[i]) {
        lemma_digit_run_end(s, i + 1);
    }
}

/// The hex run end lies between `i` and the length, covers hex digits only,
/// and stops at a non-hex character.
pub proof fn lemma_hex_run_end(s: Seq<char>, i: int)
    requires
        0 <= i <= s.len(),
    ensures
        i <= hex_run_end(s, i) <= s.len(),
        forall|j: int| i <= j < hex_run_end(s, i) ==> is_hex_digit(#[trigger] s[j]),
        hex_run_end(s, i) < s.len() ==> !is_hex_digit(s[hex_run_end(s, i)]),
    decreases s.len() - i,
{
    if i < s.len() && is_hex_digit(s[i]) {
        lemma_hex_run_end(s, i + 1);
    }
}

/// Parse an IPv4 address: four canonical decimal octets joined by dots.
pub open spec fn parse_ipv4_spec(s: Seq<char>) -> Option<Ipv4> {
    let e1 = digit_run_end(s, 0);
    let e2 = digit_run_end(s, e1 + 1);
    let e3 = digit_run_end(s, e2 + 1);
    let e4 = digit_run_end(s, e3 + 1);
    let p1 = s.take(e1);
    let p2 = s.subrange(e1 + 1, e2);
    let p3 = s.subrange(e2 + 1, e3);
    let p4 = s.subrange(e3 + 1, e4);
    if valid_octet_text(p1) && e1 < s.len() && s[e1] == '.' && valid_octet_text(p2) && e2
        < s.len() && s[e2] == '.' && valid_octet_text(p3) && e3 < s.len() && s[e3] == '.'
        && valid_octet_text(p4) && e4 == s.len() {
        Some(
            Ipv4 {
                o1: dec_val(p1) as u8,
                o2: dec_val(p2) as u8,
                o3: dec_val(p3) as u8,
                o4: dec_val(p4) as u8,
            },
        )
    } else {
        None
    }
}

/// Parse a colon-separated list of hex groups running to the end of `s`,
/// each of one to four digits.
pub open spec fn parse_groups(s: Seq<char>, i: int) -> Option<Seq<u16>>
    decreases s.len() - i,
{
    if i < 0 || i > s.len() {
        None
    } else {
        let e = hex_run_end(s, i);
        if !(1 <= e - i <= 4) {
            None
        } else {
            let g = (hex_val(s.subrange(i, e)) as u16);
            if e == s.len() {
                Some(seq![g])
            } else if e < s.len() && s[e] == ':' {
                match parse_groups(s, e + 1) {
                    Some(rest) => Some(seq![g] + rest),
                    None => None,
                }
            } else {
                None
            }
        }
    }
}

/// The first position where `::` begins, at or after `i`.
pub open spec fn find_dcolon(s: Seq<char>, i: int) -> Option<int>
    decreases s.len() - i,
{
    if i < 0 || i + 2 > s.len() {
        None
    } else if s[i] == ':' && s[i + 1] == ':' {
        Some(i)
    } else {
        find_dcolon(s, i + 1)
    }
}

/// The 128-bit value of eight groups, first group most significant.
pub open spec fn groups_val(gs: Seq<u16>) -> int
    decreases gs.len(),
{
    if gs.len() == 0 {
        0
    } else {
        groups_val(gs.drop_last()) * 0x10000 + gs.last()
    }
}

/// Parse an IPv6 address: eight hex groups joined by colons, or fewer with
/// one `::` standing for the elided zero groups.
pub open spec fn parse_ipv6_spec(s: Seq<char>) -> Option<Ipv6> {
    match find_dcolon(s, 0) {
        None => match parse_groups(s, 0) {
            Some(gs) => if gs.len() == 8 {
                Some(Ipv6 { bits: groups_val(gs) as u128 })
            } else {
                None
            },
            None => None,
        },
        Some(p) => {
            let left = s.take(p);
            let right = s.skip(p + 2);
            let lgs = if left.len() == 0 {
                Some(Seq::<u16>::empty())
            } else {
                parse_groups(left, 0)
            };
            let rgs = if right.len() == 0 {
                Some(Seq::<u16>::empty())
            } else {
                parse_groups(right, 0)
            };
            match (lgs, rgs) {
                (Some(l), Some(r)) => if l.len() + r.len() <= 7 {
                    let zeros = Seq::<u16>::new((8 - l.len() - r.len()) as nat, |k: int| 0u16);
                    Some(Ipv6 { bits: groups_val(l + zeros + r) as u128 })
                } else {
                    None
                },
                _ => None,
            }
        },
    }
}

/// Parse a sixteen-bit decimal number; leading zeros are allowed.
pub open spec fn parse_u16_spec(s: Seq<char>) -> Option<u16> {
    if s.len() > 0 && all_digits(s) && dec_val(s) <= 0xFFFF {
        Some(dec_val(s) as u16)
    } else {
        None
    }
}

/// The end of the decimal digit run starting at `i`, executably.
fn scan_digits(s: &Vec<char>, i: usize) -> (e: usize)
    requires
        i <= s.len(),
    ensures
        e == digit_run_end(s@, i as int),
        i <= e <= s.len(),
{
    let mut j = i;
    while j < s.len() && s[j] >= '0' && s[j] <= '9'
        invariant
            i <= j <= s.len(),
            digit_run_end(s@, i as int) == digit_run_end(s@, j as int),
        decreases s.len() - j,
    {
        j += 1;
    }
    proof {
        lemma_digit_run_end(s@, j as int);
    }
    j
}

/// The end of the hex digit run starting at `i`, executably.
fn scan_hex(s: &Vec<char>, i: usize) -> (e: usize)
    requires
        i <= s.len(),
    ensures
        e == hex_run_end(s@, i as int),
        i <= e <= s.len(),
{
    let mut j = i;
    while j < s.len() && (s[j] >= '0' && s[j] <= '9' || s[j] >= 'a' && s[j] <= 'f' || s[j] >= 'A'
        && s[j] <= 'F')
        invariant
            i <= j <= s.len(),
            hex_run_end(s@, i as int) == hex_run_end(s@, j as int),
        decreases s.len() - j,
    {
        j += 1;
    }
    proof {
        lemma_hex_run_end(s@, j as int);
    }
    j
}

/// The value of the decimal digits in `[start, end)`, or nothing when it
/// exceeds `max`.
fn dec_value_capped(s: &Vec<char>, start: usize, end: usize, max: u32) -> (r: Option<u32>)
    requires
        start <= end <= s.len(),
        max < 0x1000_0000,
        forall|j: int| start <= j < end ==> is_digit(#[trigger] s@[j]),
    ensures
        match r {
            Some(v) => v == dec_val(s@.subrange(start as int, end as int)) && v <= max,
            None => dec_val(s@.subrange(start as int, end as int)) > max,
        },
{
    let ghost sub = s@.subrange(start as int, end as int);
    proof {
        assert(forall|i: int| 0 <= i < sub.len() ==> is_digit(#[trigger] sub[i]));
    }
    let mut val: u32 = 0;
    let mut j = start;
    while j < end
        invariant
            start <= j <= end <= s.len(),
            sub == s@.subrange(start as int, end as int),
            forall|i: int| 0 <= i < sub.len() ==> is_digit(#[trigger] sub[i]),
            val == dec_val(sub.take(j - start)),
            val <= max,
            max < 0x1000_0000,
        decreases end - j,
    {
        let c = s[j];
        proof {
            assert(sub[j - start] == s@[j as int]);
            assert(is_digit(sub[j - start]));
            assert(sub.take(j - start + 1).drop_last() =~= sub.take(j - start));
            assert(sub.take(j - start + 1).last() == sub[j - start]);
        }
        let d: u32 = (c as u32) - ('0' as u32);
        proof {
            assert(d == digit_val(sub[j - start]));
        }
        let next: u32 = val * 10 + d;
        proof {
            assert(next == dec_val(sub.take(j - start + 1)));
        }
        if next > max {
            proof {
                assert(sub.take(sub.len() as int) =~= sub);
                lemma_dec_val_prefix(sub, j - start + 1);
                assert(dec_val(sub.take(j - start + 1)) <= dec_val(sub));
            }
            return None;
        }
        val = next;
        j += 1;
    }
    proof {
        assert(sub.take(j - start) =~= sub);
    }
    Some(val)
}

/// Parse an IPv4 address per `parse_ipv4_spec`.
pub fn parse_ipv4(s: &Vec<char>) -> (r: Option<Ipv4>)
    ensures
        r == parse_ipv4_spec(s@),
{
    proof {
        lemma_digit_run_end(s@, 0);
    }
    let e1 = scan_digits(s, 0);
    let o1 = match octet_at(s, 0, e1) {
        Some(v) => v,
        None => {
            return None;
        },
    };
    if e1 >= s.len() || s[e1] != '.' {
        return None;
    }
    proof {
        lemma_digit_run_end(s@, e1 + 1);
    }
    let e2 = scan_digits(s, e1 + 1);
    let o2 = match octet_at(s, e1 + 1, e2) {
        Some(v) => v,
        None => {
            return None;
        },
    };
    if e2 >= s.len() || s[e2] != '.' {
        return None;
    }
    proof {
        lemma_digit_run_end(s@, e2 + 1);
    }
    let e3 = scan_digits(s, e2 + 1);
    let o3 = match octet_at(s, e2 + 1, e3) {
        Some(v) => v,
        None => {
            return None;
        },
    };
    if e3 >= s.len() || s[e3] != '.' {
        return None;
    }
    proof {
        lemma_digit_run_end(s@, e3 + 1);
    }
    let e4 = scan_digits(s, e3 + 1);
    let o4 = match octet_at(s, e3 + 1, e4) {
        Some(v) => v,
        None => {
            return None;
        },
    };
    if e4 != s.len() {
        return None;
    }
    Some(Ipv4 { o1, o2, o3, o4 })
}

/// The canonical octet in `[start, end)`, where the run of digits from
/// `start` ends at `end`.
fn octet_at(s: &Vec<char>, start: usize, end: usize) -> (r: Option<u8>)
    requires
        start <= end <= s.len(),
        forall|j: int| start <= j < end ==> is_digit(#[trigger] s@[j]),
    ensures
        ({
            let sub = s@.subrange(start as int, end as int);
            match r {
                Some(v) => valid_octet_text(sub) && v == dec_val(sub),
                None => !valid_octet_text(sub),
            }
        }),
{
    let ghost sub = s@.subrange(start as int, end as int);
    if start == end {
        return None;
    }
    if s[start] == '0' && end - start > 1 {
        proof {
            assert(sub[0] == s@[start as int]);
        }
        return None;
    }
    match dec_value_capped(s, start, end, 255) {
        Some(v) => {
            proof {
                assert(forall|i: int| 0 <= i < sub.len() ==> is_digit(#[trigger] sub[i]));
                assert(sub[0] == s@[start as int]);
            }
            Some(v as u8)
        },
        None => None,
    }
}

/// Parse a sixteen-bit decimal number per `parse_u16_spec`.
pub fn parse_u16(s: &Vec<char>) -> (r: Option<u16>)
    ensures
        r == parse_u16_spec(s@),
{
    if s.len() == 0 {
        return None;
    }
    let e = scan_digits(s, 0);
    proof {
        lemma_digit_run_end(s@, 0);
    }
    if e != s.len() {
        proof {
            assert(!is_digit(s@[e as int]));
        }
        return None;
    }
    proof {
        assert(forall|j: int| 0 <= j < s.len() ==> is_digit(#[trigger] s@[j]));
    }
    match dec_value_capped(s, 0, s.len(), 0xFFFF) {
        Some(v) => {
            proof {
                assert(s@.subrange(0, s.len() as int) =~= s@);
            }
            Some(v as u16)
        },
        None => {
            proof {
                assert(s@.subrange(0, s.len() as int) =~= s@);
            }
            None
        },
    }
}

/// The 128-bit group value is nonnegative and below 2^16 per group.
pub proof fn lemma_groups_val_bound(gs: Seq<u16>)
    ensures
        0 <= groups_val(gs) < pow16((4 * gs.len()) as nat),
    decreases gs.len(),
{
    if gs.len() > 0 {
        lemma_groups_val_bound(gs.drop_last());
        assert(pow16((4 * gs.len()) as nat) == 0x10000 * pow16((4 * (gs.len() - 1)) as nat))
            by {
            let n = (4 * gs.len()) as nat;
            assert(pow16(n) == 16 * pow16((n - 1) as nat));
            assert(pow16((n - 1) as nat) == 16 * pow16((n - 2) as nat));
            assert(pow16((n - 2) as nat) == 16 * pow16((n - 3) as nat));
            assert(pow16((n - 3) as nat) == 16 * pow16((n - 4) as nat));
        }
    }
}

/// Find the first `::`, executably.
fn find_dcolon_exec(s: &Vec<char>) -> (r: Option<usize>)
    ensures
        match r {
            Some(p) => find_dcolon(s@, 0) == Some(p as int) && p + 2 <= s.len(),
            None => find_dcolon(s@, 0) is None,
        },
{
    let mut i: usize = 0;
    while s.len() >= 2 && i <= s.len() - 2
        invariant
            i <= s.len(),
            find_dcolon(s@, 0) == find_dcolon(s@, i as int),
        decreases s.len() - i,
    {
        if s[i] == ':' && s[i + 1] == ':' {
            return Some(i);
        }
        i += 1;
    }
    None
}

/// The value of the hex digit `c`.
fn hex_digit_value(c: char) -> (d: u32)
    requires
        is_hex_digit(c),
    ensures
        d == hex_digit_val(c),
        d < 16,
{
    if c >= '0' && c <= '9' {
        (c as u32) - ('0' as u32)
    } else if c >= 'a' && c <= 'f' {
        (c as u32) - ('a' as u32) + 10
    } else {
        (c as u32) - ('A' as u32) + 10
    }
}

/// The value of the hex digits in `[start, end)`, at most four of them.
fn hex_value(s: &Vec<char>, start: usize, end: usize) -> (v: u16)
    requires
        start <= end <= s.len(),
        end - start <= 4,
        forall|j: int| start <= j < end ==> is_hex_digit(#[trigger] s@[j]),
    ensures
        v == hex_val(s@.subrange(start as int, end as int)),
{
    let ghost sub = s@.subrange(start as int, end as int);
    proof {
        assert(forall|i: int| 0 <= i < sub.len() ==> is_hex_digit(#[trigger] sub[i]));
    }
    let mut val: u32 = 0;
    let mut j = start;
    while j < end
        invariant
            start <= j <= end <= s.len(),
            end - start <= 4,
            sub == s@.subrange(start as int, end as int),
            forall|i: int| 0 <= i < sub.len() ==> is_hex_digit(#[trigger] sub[i]),
            val == hex_val(sub.take(j - start)),
            val < pow16((j - start) as nat),
        decreases end - j,
    {
        let c = s[j];
        proof {
            assert(sub[j - start] == s@[j as int]);
            assert(is_hex_digit(sub[j - start]));
            assert(sub.take(j - start + 1).drop_last() =~= sub.take(j - start));
            assert(sub.take(j - start + 1).last() == sub[j - start]);
            assert(pow16(0) == 1);
            assert(pow16(1) == 16);
            assert(pow16(2) == 256);
            assert(pow16(3) == 4096);
            assert(pow16(4) == 65536);
        }
        let d = hex_digit_value(c);
        let next: u32 = val * 16 + d;
        proof {
            assert(next == hex_val(sub.take(j - start + 1)));
        }
        val = next;
        j += 1;
    }
    proof {
        assert(sub.take(j - start) =~= sub);
        assert(pow16(0) == 1);
        assert(pow16(1) == 16);
        assert(pow16(2) == 256);
        assert(pow16(3) == 4096);
        assert(pow16(4) == 65536);
    }
    val as u16
}

/// Parse colon-separated hex groups from `from` to the end of `s`,
/// executably.
fn parse_groups_exec(s: &Vec<char>, from: usize) -> (r: Option<Vec<u16>>)
    requires
        from <= s.len(),
    ensures
        match r {
            Some(gs) => parse_groups(s@, from as int) == Some(gs@),
            None => parse_groups(s@, from as int) is None,
        },
{
    let mut gs: Vec<u16> = Vec::new();
    let mut i = from;
    loop
        invariant
            from <= i <= s.len(),
            ({
                match parse_groups(s@, i as int) {
                    Some(rest) => parse_groups(s@, from as int) == Some(gs@ + rest),
                    None => parse_groups(s@, from as int) is None,
                }
            }),
        decreases s.len() - i,
    {
        let e = scan_hex(s, i);
        proof {
            lemma_hex_run_end(s@, i as int);
        }
        if e - i < 1 || e - i > 4 {
            return None;
        }
        let g = hex_value(s, i, e);
        if e == s.len() {
            gs.push(g);
            proof {
                assert(parse_groups(s@, i as int) == Some(seq![g]));
                assert(gs@ =~= gs@.drop_last() + seq![g]);
            }
            return Some(gs);
        }
        if s[e] != ':' {
            return None;
        }
        gs.push(g);
        proof {
            let ghost rest0 = parse_groups(s@, e + 1int);
            match rest0 {
                Some(rest) => {
                    assert(parse_groups(s@, i as int) == Some(seq![g] + rest));
                    assert(gs@.drop_last() + (seq![g] + rest) =~= gs@ + rest);
                },
                None => {
                    assert(parse_groups(s@, i as int) is None);
                },
            }
        }
        i = e + 1;
    }
}

/// The characters of `s` in `[a, b)`.
fn subvec(s: &Vec<char>, a: usize, b: usize) -> (r: Vec<char>)
    requires
        a <= b <= s.len(),
    ensures
        r@ == s@.subrange(a as int, b as int),
{
    let mut r: Vec<char> = Vec::new();
    let mut i = a;
    while i < b
        invariant
            a <= i <= b <= s.len(),
            r@ =~= s@.subrange(a as int, i as int),
        decreases b - i,
    {
        r.push(s[i]);
        proof {
            assert(r@ =~= s@.subrange(a as int, i + 1int));
        }
        i += 1;
    }
    proof {
        assert(r@ =~= s@.subrange(a as int, b as int));
    }
    r
}

/// The 128-bit value of exactly eight groups.
fn combine_groups(gs: &Vec<u16>) -> (b: u128)
    requires
        gs.len() == 8,
    ensures
        b == groups_val(gs@),
{
    let mut val: u128 = 0;
    let mut j: usize = 0;
    while j < 8
        invariant
            j <= 8,
            gs.len() == 8,
            val == groups_val(gs@.take(j as int)),
            val < pow16((4 * j) as nat),
        decreases 8 - j,
    {
        proof {
            assert(gs@.take(j + 1int).drop_last() =~= gs@.take(j as int));
            assert(gs@.take(j + 1int).last() == gs@[j as int]);
            lemma_pow16_step((4 * j) as nat);
            assert((4 * j + 4) as nat == (4 * (j + 1)) as nat);
            lemma_pow16_le((4 * (j + 1)) as nat, 32);
            lemma_pow16_32();
            lemma_groups_val_bound(gs@.take(j + 1int));
        }
        let g = gs[j];
        val = val * 0x10000 + (g as u128);
        j += 1;
    }
    proof {
        assert(gs@.take(8) =~= gs@);
    }
    val
}

/// One multiplication step of `pow16`.
proof fn lemma_pow16_step(n: nat)
    ensures
        pow16(n + 4) == pow16(n) * 0x10000,
{
    assert(pow16(n + 4) == 16 * pow16(n + 3));
    assert(pow16(n + 3) == 16 * pow16(n + 2));
    assert(pow16(n + 2) == 16 * pow16(n + 1));
    assert(pow16(n + 1) == 16 * pow16(n));
}

/// `pow16` is positive.
proof fn lemma_pow16_pos(n: nat)
    ensures
        pow16(n) > 0,
    decreases n,
{
    if n > 0 {
        lemma_pow16_pos((n - 1) as nat);
    }
}

/// `pow16` is monotone and positive.
proof fn lemma_pow16_le(a: nat, b: nat)
    requires
        a <= b,
    ensures
        0 < pow16(a) <= pow16(b),
    decreases b,
{
    lemma_pow16_pos(a);
    if a < b {
        lemma_pow16_le(a, (b - 1) as nat);
    }
}

/// `pow16` of 32 is 2^128.
proof fn lemma_pow16_32()
    ensures
        pow16(32) == 0x100000000000000000000000000000000,
{
    assert(pow16(0) == 1);
    assert(pow16(1) == 16);
    assert(pow16(2) == 256);
    assert(pow16(3) == 4096);
    assert(pow16(4) == 65536);
    lemma_pow16_step(4);
    lemma_pow16_step(8);
    lemma_pow16_step(12);
    lemma_pow16_step(16);
    lemma_pow16_step(20);
    lemma_pow16_step(24);
    lemma_pow16_step(28);
}

/// Parse an IPv6 address per `parse_ipv6_spec`.
pub fn parse_ipv6(s: &Vec<char>) -> (r: Option<Ipv6>)
    ensures
        r == parse_ipv6_spec(s@),
{
    match find_dcolon_exec(s) {
        None => {
            match parse_groups_exec(s, 0) {
                Some(gs) => {
                    if gs.len() == 8 {
                        proof {
                            lemma_groups_val_bound(gs@);
                            lemma_pow16_le(32, 32);
                        }
                        let b = combine_groups(&gs);
                        Some(Ipv6 { bits: b })
                    } else {
                        None
                    }
                },
                None => None,
            }
        },
        Some(p) => {
            let left = subvec(s, 0, p);
            let right = subvec(s, p + 2, s.len());
            proof {
                assert(left@ =~= s@.take(p as int));
                assert(right@ =~= s@.skip(p + 2int));
            }
            let lgs: Vec<u16> = if left.len() == 0 {
                Vec::new()
            } else {
                match parse_groups_exec(&left, 0) {
                    Some(gs) => gs,
                    None => {
                        return None;
                    },
                }
            };
            let rgs: Vec<u16> = if right.len() == 0 {
                Vec::new()
            } else {
                match parse_groups_exec(&right, 0) {
                    Some(gs) => gs,
                    None => {
                        return None;
                    },
                }
            };
            if lgs.len() > 7 || rgs.len() > 7 - lgs.len() {
                return None;
            }
            let mut full: Vec<u16> = Vec::new();
            let mut i: usize = 0;
            while i < lgs.len()
                invariant
                    i <= lgs.len(),
                    full@ =~= lgs@.take(i as int),
                decreases lgs.len() - i,
            {
                full.push(lgs[i]);
                proof {
                    assert(full@ =~= lgs@.take(i + 1int));
                }
                i += 1;
            }
            let zero_count = 8 - lgs.len() - rgs.len();
            let mut z: usize = 0;
            while z < zero_count
                invariant
                    z <= zero_count,
                    zero_count == 8 - lgs@.len() - rgs@.len(),
                    full@ =~= lgs@ + Seq::<u16>::new(z as nat, |k: int| 0u16),
                decreases zero_count - z,
            {
                full.push(0);
                proof {
                    assert(full@ =~= lgs@ + Seq::<u16>::new((z + 1) as nat, |k: int| 0u16));
                }
                z += 1;
            }
            let ghost zeros = Seq::<u16>::new((8 - lgs@.len() - rgs@.len()) as nat, |k: int| 0u16);
            let mut i: usize = 0;
            while i < rgs.len()
                invariant
                    i <= rgs.len(),
                    zeros == Seq::<u16>::new((8 - lgs@.len() - rgs@.len()) as nat, |k: int| 0u16),
                    full@ =~= lgs@ + zeros + rgs@.take(i as int),
                decreases rgs.len() - i,
            {
                full.push(rgs[i]);
                proof {
                    assert(full@ =~= lgs@ + zeros + rgs@.take(i + 1int));
                }
                i += 1;
            }
            proof {
                assert(full@ =~= lgs@ + zeros + rgs@);
            }
            let b = combine_groups(&full);
            Some(Ipv6 { bits: b })
        },
    }
}

} // verus!
