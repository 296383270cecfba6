//! The text form of a resource record: one line made of a name, a TTL, the
//! class `IN`, a type and the data that the type asks for.

use crate::constants::bytes_eq_ignore_ascii_case;
use crate::constants::eq_ignore_ascii_case;
use crate::constants::Class;
use crate::constants::Type;
use crate::errors::DSError;
use crate::synth::gen::be16_bytes;
use crate::synth::gen::ds_rdata;
use crate::synth::gen::raw_from_str;
use crate::synth::gen::rr_bytes_of;
use crate::synth::gen::soa_numbers;
use crate::synth::gen::txt_chunks;
use crate::synth::gen::RRHeader;
use crate::synth::gen::A;
use crate::synth::gen::AAAA;
use crate::synth::gen::CNAME;
use crate::synth::gen::DS;
use crate::synth::gen::MAX_TXT_LEN;
use crate::synth::gen::MX;
use crate::synth::gen::NS;
use crate::synth::gen::PTR;
use crate::synth::gen::RR;
use crate::synth::gen::SOA;
use crate::synth::gen::TXT;
use vstd::prelude::*;
use vstd::string::StringSliceAdditionalSpecFns;

verus! {

/// The classes of bytes that the grammar tells apart.
#[derive(Copy, Clone, Debug, PartialEq, Eq, Structural)]
pub enum CharClass {
    /// A space or a tab.
    Blank,
    /// A space, a tab, a line feed, a vertical tab, a form feed or a carriage return.
    Space,
    /// A decimal digit.
    Digit,
    /// A letter or a decimal digit.
    AlphaNum,
    /// A hexadecimal digit.
    Hex,
    /// A hexadecimal digit or a colon.
    HexColon,
}

/// Whether `c` is a decimal digit.
pub open spec fn is_digit(c: u8) -> bool {
    0x30 <= c <= 0x39
}

/// Whether `c` is a letter.
pub open spec fn is_alpha(c: u8) -> bool {
    0x41 <= c <= 0x5a || 0x61 <= c <= 0x7a
}

/// Whether `c` is a hexadecimal digit.
pub open spec fn is_hexdigit(c: u8) -> bool {
    is_digit(c) || 0x41 <= c <= 0x46 || 0x61 <= c <= 0x66
}

/// Whether `c` belongs to `class`.
pub open spec fn in_class(class: CharClass, c: u8) -> bool {
    match class {
        CharClass::Blank => c == 0x20 || c == 0x09,
        CharClass::Space => c == 0x20 || 0x09 <= c <= 0x0d,
        CharClass::Digit => is_digit(c),
        CharClass::AlphaNum => is_digit(c) || is_alpha(c),
        CharClass::Hex => is_hexdigit(c),
        CharClass::HexColon => is_hexdigit(c) || c == 0x3a,
    }
}

/// Where the run of bytes of `class` that starts at `i` ends.
pub open spec fn run_end(s: Seq<u8>, i: int, class: CharClass) -> int
    decreases s.len() - i,
{
    if 0 <= i < s.len() && in_class(class, s[i]) {
        run_end(s, i + 1, class)
    } else {
        i
    }
}

/// Says whether `c` belongs to `class`.
pub fn class_holds(class: CharClass, c: u8) -> (r: bool)
    ensures
        r == in_class(class, c),
{
    let digit: bool = 0x30 <= c && c <= 0x39;
    let alpha: bool = (0x41 <= c && c <= 0x5a) || (0x61 <= c && c <= 0x7a);
    let hex: bool = digit || (0x41 <= c && c <= 0x46) || (0x61 <= c && c <= 0x66);
    match class {
        CharClass::Blank => c == 0x20 || c == 0x09,
        CharClass::Space => c == 0x20 || (0x09 <= c && c <= 0x0d),
        CharClass::Digit => digit,
        CharClass::AlphaNum => digit || alpha,
        CharClass::Hex => hex,
        CharClass::HexColon => hex || c == 0x3a,
    }
}

/// Skips the bytes of `class` from `i` on.
pub fn skip_run(s: &[u8], i: usize, class: CharClass) -> (r: usize)
    requires
        i <= s@.len(),
    ensures
        r == run_end(s@, i as int, class),
        i <= r <= s@.len(),
{
    let mut pos: usize = i;
    while pos < s.len() && class_holds(class, s[pos])
        invariant
            i <= pos <= s@.len(),
            run_end(s@, i as int, class) == run_end(s@, pos as int, class),
        decreases s@.len() - pos,
    {
        pos += 1;
    }
    pos
}

/// The number that the decimal digits of `s` from `from` up to `to` spell.
pub open spec fn digits_value(s: Seq<u8>, from: int, to: int) -> int
    decreases to - from,
{
    if from >= to {
        0
    } else {
        digits_value(s, from, to - 1) * 10 + (s[to - 1] - 0x30)
    }
}

/// The number in decimal digits that starts at `i`, and where it ends.
/// `None` where no digit stands at `i`, and where the number is larger
/// than `max`.
pub open spec fn decimal_at(s: Seq<u8>, i: int, max: int) -> Option<(int, int)> {
    let end = run_end(s, i, CharClass::Digit);
    if end == i || digits_value(s, i, end) > max {
        None
    } else {
        Some((digits_value(s, i, end), end))
    }
}

/// A number in digits is at least the number that its first digits spell.
pub proof fn lemma_digits_grow(s: Seq<u8>, from: int, mid: int, to: int)
    requires
        from <= mid <= to,
        forall|k: int| from <= k < to ==> is_digit(#[trigger] s[k]),
    ensures
        0 <= digits_value(s, from, mid) <= digits_value(s, from, to),
    decreases to - mid,
{
    if mid < to {
        lemma_digits_grow(s, from, mid, to - 1);
        lemma_digits_nonneg(s, from, to - 1);
    } else {
        lemma_digits_nonneg(s, from, mid);
    }
}

/// A number in digits is not negative.
pub proof fn lemma_digits_nonneg(s: Seq<u8>, from: int, to: int)
    requires
        forall|k: int| from <= k < to ==> is_digit(#[trigger] s[k]),
    ensures
        0 <= digits_value(s, from, to),
    decreases to - from,
{
    if from < to {
        lemma_digits_nonneg(s, from, to - 1);
    }
}

/// Every byte of a run belongs to the class of the run.
pub proof fn lemma_run_members(s: Seq<u8>, i: int, class: CharClass)
    requires
        0 <= i <= s.len(),
    ensures
        forall|k: int| i <= k < run_end(s, i, class) ==> in_class(class, #[trigger] s[k]),
    decreases s.len() - i,
{
    if i < s.len() && in_class(class, s[i]) {
        lemma_run_members(s, i + 1, class);
    }
}

/// Reads a number in decimal digits that is at most `max`.
pub fn parse_decimal(s: &[u8], i: usize, max: u32) -> (r: Option<(u32, usize)>)
    requires
        i <= s@.len(),
    ensures
        match decimal_at(s@, i as int, max as int) {
            None => r is None,
            Some((v, end)) => r is Some && r->Some_0.0 == v && r->Some_0.1 == end && i < end
                <= s@.len() && v <= max,
        },
{
    let end: usize = skip_run(s, i, CharClass::Digit);
    if end == i {
        return None;
    }
    proof {
        lemma_run_members(s@, i as int, CharClass::Digit);
    }
    let mut value: u32 = 0;
    let mut pos: usize = i;
    while pos < end
        invariant
            i <= pos <= end <= s@.len(),
            end == run_end(s@, i as int, CharClass::Digit),
            forall|k: int| i <= k < end ==> is_digit(#[trigger] s@[k]),
            value == digits_value(s@, i as int, pos as int),
            value <= max,
        decreases end - pos,
    {
        let digit: u32 = (s[pos] - 0x30) as u32;
        proof {
            lemma_digits_grow(s@, i as int, pos + 1, end as int);
        }
        let next: u64 = value as u64 * 10 + digit as u64;
        if next > max as u64 {
            return None;
        }
        value = next as u32;
        pos += 1;
    }
    Some((value, end))
}

/// Where a scan over a host name has come: the length of the label that is
/// being read, and whether only digits and dots have been seen.
pub struct HostScan {
    pub end: int,
    pub label_len: int,
    pub only_numeric: bool,
}

/// The longest label of a host name in text.
pub const MAX_HOST_LABEL_LEN: usize = 63;

/// The scan over the host name that starts at `start`, from `i` on. The
/// scan ends at the first byte that cannot go on the name. `None` where a
/// label is empty or longer than 63 bytes.
///
/// A label is made of letters, digits, `_` at its start and `-` behind its
/// start. Labels are parted by dots, and a dot may stand at the very start.
pub open spec fn host_scan(
    s: Seq<u8>,
    i: int,
    start: int,
    label_len: int,
    only_numeric: bool,
) -> Option<HostScan>
    decreases s.len() - i,
{
    if i < 0 || i >= s.len() {
        Some(HostScan { end: i, label_len, only_numeric })
    } else if s[i] == 0x2e {
        if label_len == 0 {
            if i != start {
                None
            } else {
                host_scan(s, i + 1, start, 0, false)
            }
        } else {
            host_scan(s, i + 1, start, 0, only_numeric)
        }
    } else if (s[i] == 0x5f && label_len == 0) || (s[i] == 0x2d && label_len > 0) || is_alpha(
        s[i],
    ) {
        if label_len >= MAX_HOST_LABEL_LEN {
            None
        } else {
            host_scan(s, i + 1, start, label_len + 1, false)
        }
    } else if is_digit(s[i]) {
        if label_len >= MAX_HOST_LABEL_LEN {
            None
        } else {
            host_scan(s, i + 1, start, label_len + 1, only_numeric)
        }
    } else {
        Some(HostScan { end: i, label_len, only_numeric })
    }
}

/// The host name that starts at `i`, and where it ends. `None` where no
/// host name starts there, and for a name of digits and dots that ends
/// with a dot.
pub open spec fn hostname_at(s: Seq<u8>, i: int) -> Option<(Seq<u8>, int)> {
    match host_scan(s, i, i, 0, true) {
        None => None,
        Some(scan) => if scan.end == i || (scan.only_numeric && scan.label_len == 0) {
            None
        } else {
            Some((s.subrange(i, scan.end), scan.end))
        },
    }
}

/// Reads a host name.
pub fn parse_hostname(s: &[u8], i: usize) -> (r: Option<(Vec<u8>, usize)>)
    requires
        i <= s@.len(),
    ensures
        match hostname_at(s@, i as int) {
            None => r is None,
            Some((name, end)) => r is Some && r->Some_0.0@ == name && r->Some_0.1 == end && i < end
                <= s@.len(),
        },
{
    let mut label_len: usize = 0;
    let mut only_numeric: bool = true;
    let mut pos: usize = i;
    while pos < s.len()
        invariant_except_break
            host_scan(s@, i as int, i as int, 0, true) == host_scan(
                s@,
                pos as int,
                i as int,
                label_len as int,
                only_numeric,
            ),
        invariant
            i <= pos <= s@.len(),
            label_len <= MAX_HOST_LABEL_LEN,
        ensures
            i <= pos <= s@.len(),
            host_scan(s@, i as int, i as int, 0, true) == Some(
                HostScan { end: pos as int, label_len: label_len as int, only_numeric },
            ),
        decreases s@.len() - pos,
    {
        let c: u8 = s[pos];
        let alpha: bool = (0x41 <= c && c <= 0x5a) || (0x61 <= c && c <= 0x7a);
        if c == 0x2e {
            if label_len == 0 {
                if pos != i {
                    return None;
                }
                only_numeric = false;
            }
            label_len = 0;
        } else if (c == 0x5f && label_len == 0) || (c == 0x2d && label_len > 0) || alpha {
            if label_len >= MAX_HOST_LABEL_LEN {
                return None;
            }
            only_numeric = false;
            label_len += 1;
        } else if 0x30 <= c && c <= 0x39 {
            if label_len >= MAX_HOST_LABEL_LEN {
                return None;
            }
            label_len += 1;
        } else {
            break ;
        }
        pos += 1;
    }
    if pos == i || (only_numeric && label_len == 0) {
        return None;
    }
    let mut name: Vec<u8> = Vec::with_capacity(pos - i);
    crate::wire::extend_from_range(&mut name, s, i, pos);
    Some((name, pos))
}

/// The value of the hexadecimal digit `c`.
pub open spec fn hex_value(c: u8) -> int {
    if is_digit(c) {
        c - 0x30
    } else if 0x41 <= c <= 0x46 {
        c - 0x41 + 10
    } else {
        c - 0x61 + 10
    }
}

/// The value of a hexadecimal digit.
pub fn from_hexdigit(c: u8) -> (r: u8)
    requires
        is_hexdigit(c),
    ensures
        r == hex_value(c),
        r < 16,
{
    if 0x30 <= c && c <= 0x39 {
        c - 0x30
    } else if 0x41 <= c && c <= 0x46 {
        c - 0x41 + 10
    } else {
        c - 0x61 + 10
    }
}

/// The bytes that the pairs of hexadecimal digits of `s` from `from` up to `to` spell.
pub open spec fn hex_bytes(s: Seq<u8>, from: int, to: int) -> Seq<u8>
    decreases to - from,
{
    if to - from < 2 {
        Seq::<u8>::empty()
    } else {
        hex_bytes(s, from, to - 2).push((hex_value(s[to - 2]) * 16 + hex_value(s[to - 1])) as u8)
    }
}

/// The bytes in hexadecimal digits that start at `i`, and where they end.
/// `None` where no digit stands at `i`, and for an odd number of digits.
pub open spec fn hexstring_at(s: Seq<u8>, i: int) -> Option<(Seq<u8>, int)> {
    let end = run_end(s, i, CharClass::Hex);
    if end == i || (end - i) % 2 != 0 {
        None
    } else {
        Some((hex_bytes(s, i, end), end))
    }
}

/// Reads bytes in hexadecimal digits.
pub fn parse_hexstring(s: &[u8], i: usize) -> (r: Option<(Vec<u8>, usize)>)
    requires
        i <= s@.len(),
    ensures
        match hexstring_at(s@, i as int) {
            None => r is None,
            Some((bytes, end)) => r is Some && r->Some_0.0@ == bytes && r->Some_0.1 == end && i
                < end <= s@.len(),
        },
{
    let end: usize = skip_run(s, i, CharClass::Hex);
    if end == i || (end - i) % 2 != 0 {
        return None;
    }
    proof {
        lemma_run_members(s@, i as int, CharClass::Hex);
    }
    let mut bytes: Vec<u8> = Vec::new();
    let mut pos: usize = i;
    while pos < end
        invariant
            i <= pos <= end <= s@.len(),
            (end - pos) % 2 == 0,
            forall|k: int| i <= k < end ==> is_hexdigit(#[trigger] s@[k]),
            bytes@ == hex_bytes(s@, i as int, pos as int),
        decreases end - pos,
    {
        let hi: u8 = from_hexdigit(s[pos]);
        let lo: u8 = from_hexdigit(s[pos + 1]);
        bytes.push(hi * 16 + lo);
        pos += 2;
    }
    Some((bytes, end))
}

/// The byte that an escape of three decimal digits at `i` spells, if it is at most 255.
pub open spec fn escape_at(s: Seq<u8>, i: int) -> Option<u8> {
    if i + 3 <= s.len() && is_digit(s[i]) && is_digit(s[i + 1]) && is_digit(s[i + 2])
        && digits_value(s, i, i + 3) <= 255 {
        Some(digits_value(s, i, i + 3) as u8)
    } else {
        None
    }
}

/// The text of a quoted string from `i` on, up to the closing quote, and
/// where that quote stands. A byte stands for itself if it is printable
/// ASCII and no backslash; a backslash and three decimal digits stand for
/// the byte with that number. `None` where a byte is neither, and where
/// the string is not closed.
pub open spec fn quoted_text(s: Seq<u8>, i: int) -> Option<(Seq<u8>, int)>
    decreases s.len() - i,
{
    if i < 0 || i >= s.len() {
        None
    } else if s[i] == 0x22 {
        Some((Seq::<u8>::empty(), i))
    } else if s[i] == 0x5c {
        match escape_at(s, i + 1) {
            None => None,
            Some(c) => match quoted_text(s, i + 4) {
                None => None,
                Some((rest, end)) => Some((seq![c] + rest, end)),
            },
        }
    } else if 31 < s[i] < 128 {
        match quoted_text(s, i + 1) {
            None => None,
            Some((rest, end)) => Some((seq![s[i]] + rest, end)),
        }
    } else {
        None
    }
}

/// The quoted string that starts at `i`, and where it ends. `None` where
/// no quote stands at `i`, and for a string without text.
pub open spec fn quoted_at(s: Seq<u8>, i: int) -> Option<(Seq<u8>, int)> {
    if i < 0 || i >= s.len() || s[i] != 0x22 {
        None
    } else {
        match quoted_text(s, i + 1) {
            None => None,
            Some((text, end)) => if text.len() == 0 {
                None
            } else {
                Some((text, end + 1))
            },
        }
    }
}

/// Reads a quoted string.
pub fn parse_quoted(s: &[u8], i: usize) -> (r: Option<(Vec<u8>, usize)>)
    requires
        i <= s@.len(),
    ensures
        match quoted_at(s@, i as int) {
            None => r is None,
            Some((text, end)) => r is Some && r->Some_0.0@ == text && r->Some_0.1 == end && i < end
                <= s@.len(),
        },
{
    if i >= s.len() || s[i] != 0x22 {
        return None;
    }
    let mut text: Vec<u8> = Vec::new();
    let mut pos: usize = i + 1;
    loop
        invariant_except_break
            quoted_text(s@, i + 1) == match quoted_text(s@, pos as int) {
                None => None::<(Seq<u8>, int)>,
                Some((rest, end)) => Some((text@ + rest, end)),
            },
        invariant
            i < pos <= s@.len(),
        ensures
            i < pos < s@.len(),
            quoted_text(s@, i + 1) == Some((text@, pos as int)),
        decreases s@.len() - pos,
    {
        if pos >= s.len() {
            return None;
        }
        let c: u8 = s[pos];
        let ghost before = text@;
        if c == 0x22 {
            assert(text@ + Seq::<u8>::empty() =~= text@);
            break ;
        } else if c == 0x5c {
            if s.len() - pos < 4 {
                return None;
            }
            let a: u8 = s[pos + 1];
            let b: u8 = s[pos + 2];
            let d: u8 = s[pos + 3];
            if !(0x30 <= a && a <= 0x39 && 0x30 <= b && b <= 0x39 && 0x30 <= d && d <= 0x39) {
                return None;
            }
            let value: u16 = (a - 0x30) as u16 * 100 + (b - 0x30) as u16 * 10 + (d - 0x30) as u16;
            proof {
                assert(digits_value(s@, pos + 1, pos + 1) == 0);
                assert(digits_value(s@, pos + 1, pos + 2) == a - 0x30);
                assert(digits_value(s@, pos + 1, pos + 3) == (a - 0x30) * 10 + (b - 0x30));
                assert(digits_value(s@, pos + 1, pos + 4) == value);
            }
            if value > 255 {
                return None;
            }
            text.push(value as u8);
            pos += 4;
            proof {
                let rest = quoted_text(s@, pos as int);
                if rest is Some {
                    assert(before + (seq![value as u8] + rest->Some_0.0) =~= text@
                        + rest->Some_0.0);
                }
            }
        } else if 31 < c && c < 128 {
            text.push(c);
            pos += 1;
            proof {
                let rest = quoted_text(s@, pos as int);
                if rest is Some {
                    assert(before + (seq![c] + rest->Some_0.0) =~= text@ + rest->Some_0.0);
                }
            }
        } else {
            return None;
        }
    }
    if text.len() == 0 {
        return None;
    }
    Some((text, pos + 1))
}

/// The IPv4 address in dotted decimal form that starts at `i`, and where it ends.
pub open spec fn ipv4_at(s: Seq<u8>, i: int) -> Option<(Seq<u8>, int)> {
    match decimal_at(s, i, 255) {
        None => None,
        Some((a, e1)) => if e1 >= s.len() || s[e1] != 0x2e {
            None
        } else {
            match decimal_at(s, e1 + 1, 255) {
                None => None,
                Some((b, e2)) => if e2 >= s.len() || s[e2] != 0x2e {
                    None
                } else {
                    match decimal_at(s, e2 + 1, 255) {
                        None => None,
                        Some((c, e3)) => if e3 >= s.len() || s[e3] != 0x2e {
                            None
                        } else {
                            match decimal_at(s, e3 + 1, 255) {
                                None => None,
                                Some((d, e4)) => Some(
                                    (seq![a as u8, b as u8, c as u8, d as u8], e4),
                                ),
                            }
                        },
                    }
                },
            }
        },
    }
}

/// Reads an IPv4 address in dotted decimal form.
pub fn parse_ipv4(s: &[u8], i: usize) -> (r: Option<([u8; 4], usize)>)
    requires
        i <= s@.len(),
    ensures
        match ipv4_at(s@, i as int) {
            None => r is None,
            Some((ip, end)) => r is Some && r->Some_0.0@ == ip && r->Some_0.1 == end && i < end
                <= s@.len(),
        },
{
    let (a, e1) = match parse_decimal(s, i, 255) {
        Some(x) => x,
        None => return None,
    };
    if e1 >= s.len() || s[e1] != 0x2e {
        return None;
    }
    let (b, e2) = match parse_decimal(s, e1 + 1, 255) {
        Some(x) => x,
        None => return None,
    };
    if e2 >= s.len() || s[e2] != 0x2e {
        return None;
    }
    let (c, e3) = match parse_decimal(s, e2 + 1, 255) {
        Some(x) => x,
        None => return None,
    };
    if e3 >= s.len() || s[e3] != 0x2e {
        return None;
    }
    let (d, e4) = match parse_decimal(s, e3 + 1, 255) {
        Some(x) => x,
        None => return None,
    };
    let ip: [u8; 4] = [a as u8, b as u8, c as u8, d as u8];
    assert(ip@ =~= seq![a as u8, b as u8, c as u8, d as u8]);
    Some((ip, e4))
}


/// The number that the hexadecimal digits of `s` from `from` up to `to` spell.
pub open spec fn hex_number(s: Seq<u8>, from: int, to: int) -> int
    decreases to - from,
{
    if from >= to {
        0
    } else {
        hex_number(s, from, to - 1) * 16 + hex_value(s[to - 1])
    }
}

/// The group of one to four hexadecimal digits that starts at `i`, and
/// where it ends.
pub open spec fn group_at(s: Seq<u8>, i: int) -> Option<(int, int)> {
    let run = run_end(s, i, CharClass::Hex) - i;
    let n = if run > 4 {
        4
    } else {
        run
    };
    if n <= 0 {
        None
    } else {
        Some((hex_number(s, i, i + n), i + n))
    }
}

/// The groups of an IPv6 address from `i` on, at most `limit` of them with
/// `k` read before, and where they end. Behind the first group, each
/// group has a colon in front.
pub open spec fn groups_from(s: Seq<u8>, i: int, k: int, limit: int) -> (Seq<int>, int)
    decreases limit - k,
{
    if k >= limit {
        (Seq::<int>::empty(), i)
    } else {
        let start = if k == 0 {
            i
        } else if 0 <= i < s.len() && s[i] == 0x3a {
            i + 1
        } else {
            -1
        };
        if start < 0 {
            (Seq::<int>::empty(), i)
        } else {
            match group_at(s, start) {
                None => (Seq::<int>::empty(), i),
                Some((v, e)) => (
                    seq![v] + groups_from(s, e, k + 1, limit).0,
                    groups_from(s, e, k + 1, limit).1,
                ),
            }
        }
    }
}

/// The eight groups of the IPv6 address that `t` spells: eight groups with
/// colons between them, or fewer with `::` once in the place of the
/// groups that are zero. `None` where `t` is no such address.
pub open spec fn ipv6_groups(t: Seq<u8>) -> Option<Seq<int>> {
    let head = groups_from(t, 0, 0, 8);
    if head.0.len() == 8 {
        if head.1 == t.len() {
            Some(head.0)
        } else {
            None
        }
    } else if head.1 + 2 <= t.len() && t[head.1] == 0x3a && t[head.1 + 1] == 0x3a {
        let tail = groups_from(t, head.1 + 2, 0, 7 - head.0.len());
        if tail.1 == t.len() {
            Some(
                head.0 + Seq::new((8 - head.0.len() - tail.0.len()) as nat, |i: int| 0int)
                    + tail.0,
            )
        } else {
            None
        }
    } else {
        None
    }
}

/// The sixteen bytes of the address with the groups `g`.
pub open spec fn groups_bytes(g: Seq<int>) -> Seq<u8> {
    Seq::new(
        16,
        |i: int|
            if i % 2 == 0 {
                (g[i / 2] / 256) as u8
            } else {
                (g[i / 2] % 256) as u8
            },
    )
}

/// The IPv6 address that starts at `i`, and where it ends: the run of
/// hexadecimal digits and colons there has to spell an address.
pub open spec fn ipv6_at(s: Seq<u8>, i: int) -> Option<(Seq<u8>, int)> {
    let end = run_end(s, i, CharClass::HexColon);
    if end == i {
        None
    } else {
        match ipv6_groups(s.subrange(i, end)) {
            None => None,
            Some(g) => Some((groups_bytes(g), end)),
        }
    }
}

/// A number of at most four hexadecimal digits is less than 65536.
pub proof fn lemma_hex_number_bound(s: Seq<u8>, from: int, to: int)
    requires
        from <= to,
        forall|k: int| from <= k < to ==> is_hexdigit(#[trigger] s[k]),
    ensures
        0 <= hex_number(s, from, to),
        to - from <= 1 ==> hex_number(s, from, to) < 16,
        to - from <= 2 ==> hex_number(s, from, to) < 256,
        to - from <= 3 ==> hex_number(s, from, to) < 4096,
        to - from <= 4 ==> hex_number(s, from, to) < 65536,
    decreases to - from,
{
    if from < to {
        lemma_hex_number_bound(s, from, to - 1);
    }
}

/// Reads a group of one to four hexadecimal digits.
pub fn parse_group(t: &[u8], i: usize) -> (r: Option<(u16, usize)>)
    requires
        i <= t@.len(),
    ensures
        match group_at(t@, i as int) {
            None => r is None,
            Some((v, e)) => r is Some && r->Some_0.0 == v && r->Some_0.1 == e && i < e
                <= t@.len(),
        },
{
    let run_stop: usize = skip_run(t, i, CharClass::Hex);
    let stop: usize = if run_stop - i > 4 {
        i + 4
    } else {
        run_stop
    };
    if stop == i {
        return None;
    }
    proof {
        lemma_run_members(t@, i as int, CharClass::Hex);
        lemma_hex_number_bound(t@, i as int, stop as int);
    }
    let mut value: u16 = 0;
    let mut pos: usize = i;
    while pos < stop
        invariant
            i <= pos <= stop <= t@.len(),
            stop - i <= 4,
            forall|k: int| i <= k < stop ==> is_hexdigit(#[trigger] t@[k]),
            value == hex_number(t@, i as int, pos as int),
        decreases stop - pos,
    {
        proof {
            lemma_hex_number_bound(t@, i as int, pos as int);
            lemma_hex_number_bound(t@, i as int, pos + 1);
        }
        value = value * 16 + from_hexdigit(t[pos]) as u16;
        pos += 1;
    }
    Some((value, stop))
}

/// The numbers of `v` as mathematical integers.
pub open spec fn ints(v: Seq<u16>) -> Seq<int> {
    Seq::new(v.len(), |j: int| v[j] as int)
}

/// Reads groups of an IPv6 address, at most `limit` of them. Returns the
/// groups and where they end.
pub fn parse_groups(t: &[u8], i: usize, limit: usize) -> (r: (Vec<u16>, usize))
    requires
        i <= t@.len(),
        limit <= 8,
    ensures
        ints(r.0@) == groups_from(t@, i as int, 0, limit as int).0,
        r.1 == groups_from(t@, i as int, 0, limit as int).1,
        i <= r.1 <= t@.len(),
        r.0@.len() <= limit,
{
    let ghost whole = groups_from(t@, i as int, 0, limit as int);
    let mut groups: Vec<u16> = Vec::new();
    let mut pos: usize = i;
    let mut k: usize = 0;
    assert(ints(groups@) =~= Seq::<int>::empty());
    assert(Seq::<int>::empty() + whole.0 =~= whole.0);
    while k < limit
        invariant_except_break
            whole.0 == ints(groups@) + groups_from(t@, pos as int, k as int, limit as int).0,
            whole.1 == groups_from(t@, pos as int, k as int, limit as int).1,
        invariant
            k <= limit <= 8,
            i <= pos <= t@.len(),
            groups@.len() == k,
        ensures
            k <= limit,
            groups@.len() == k,
            i <= pos <= t@.len(),
            whole.0 == ints(groups@),
            whole.1 == pos,
        decreases limit - k,
    {
        let ghost here = groups_from(t@, pos as int, k as int, limit as int);
        let start: usize = if k == 0 {
            pos
        } else if pos < t.len() && t[pos] == 0x3a {
            pos + 1
        } else {
            assert(here.0 =~= Seq::<int>::empty());
            assert(ints(groups@) + Seq::<int>::empty() =~= ints(groups@));
            break ;
        };
        let (value, end) = match parse_group(t, start) {
            Some(x) => x,
            None => {
                assert(here.0 =~= Seq::<int>::empty());
                assert(ints(groups@) + Seq::<int>::empty() =~= ints(groups@));
                break ;
            },
        };
        let ghost before = groups@;
        groups.push(value);
        proof {
            let rest = groups_from(t@, end as int, k + 1, limit as int);
            assert(group_at(t@, start as int) is Some);
            assert(group_at(t@, start as int)->Some_0.0 == value as int);
            assert(group_at(t@, start as int)->Some_0.1 == end as int);
            assert(group_at(t@, start as int) == Some((value as int, end as int)));
            assert(k as int == 0 ==> start == pos);
            assert(k as int != 0 ==> start == pos + 1 && t@[pos as int] == 0x3a);
            assert(here == groups_from(t@, pos as int, k as int, limit as int));
            assert(here.0 == seq![value as int] + rest.0);
            assert(here.1 == rest.1);
            assert(ints(groups@) =~= ints(before) + seq![value as int]);
            assert(ints(before) + (seq![value as int] + rest.0) =~= ints(groups@) + rest.0);
        }
        pos = end;
        k += 1;
    }
    proof {
        if k >= limit {
            assert(groups_from(t@, pos as int, k as int, limit as int).0 =~= Seq::<int>::empty());
            assert(ints(groups@) + Seq::<int>::empty() =~= ints(groups@));
        }
    }
    (groups, pos)
}

/// Reads an IPv6 address: a run of hexadecimal digits and colons that spells one.
pub fn parse_ipv6(s: &[u8], i: usize) -> (r: Option<([u8; 16], usize)>)
    requires
        i <= s@.len(),
    ensures
        match ipv6_at(s@, i as int) {
            None => r is None,
            Some((ip, end)) => r is Some && r->Some_0.0@ == ip && r->Some_0.1 == end && i < end
                <= s@.len(),
        },
{
    let end: usize = skip_run(s, i, CharClass::HexColon);
    if end == i {
        return None;
    }
    let t = vstd::slice::slice_subrange(s, i, end);
    let (head, head_end) = parse_groups(t, 0, 8);
    let head_size: usize = head.len();
    let mut groups: Vec<u16> = head;
    let ghost head_groups = groups_from(t@, 0, 0, 8).0;
    assert(head_groups.len() == head_size) by {
        assert(ints(groups@).len() == groups@.len());
    }
    if head_size == 8 {
        if head_end != t.len() {
            return None;
        }
    } else {
        if t.len() - head_end < 2 || t[head_end] != 0x3a || t[head_end + 1] != 0x3a {
            return None;
        }
        let (tail, tail_end) = parse_groups(t, head_end + 2, 7 - head_size);
        if tail_end != t.len() {
            return None;
        }
        let ghost tail_groups = groups_from(t@, head_end + 2, 0, 7 - head_size).0;
        let tail_size: usize = tail.len();
        assert(tail_groups.len() == tail_size) by {
            assert(ints(tail@).len() == tail@.len());
        }
        let ghost head_seq = groups@;
        let mut z: usize = 0;
        while z < 8 - head_size - tail_size
            invariant
                z <= 8 - head_size - tail_size,
                head_size + tail_size <= 7,
                head_size == head_seq.len(),
                groups@ == head_seq + Seq::new(z as nat, |j: int| 0u16),
            decreases 8 - head_size - tail_size - z,
        {
            groups.push(0);
            z += 1;
            assert(groups@ =~= head_seq + Seq::new(z as nat, |j: int| 0u16));
        }
        let ghost zeros = Seq::new((8 - head_size - tail_size) as nat, |j: int| 0u16);
        let mut j: usize = 0;
        while j < tail_size
            invariant
                j <= tail_size,
                tail_size == tail@.len(),
                groups@ == head_seq + zeros + tail@.subrange(0, j as int),
            decreases tail_size - j,
        {
            groups.push(tail[j]);
            j += 1;
            assert(groups@ =~= head_seq + zeros + tail@.subrange(0, j as int));
        }
        assert(tail@.subrange(0, tail_size as int) =~= tail@);
        assert(ints(groups@) =~= ipv6_groups(t@)->Some_0) by {
            assert(ints(head_seq) == head_groups);
            assert(ints(tail@) == tail_groups);
            let expect = ipv6_groups(t@)->Some_0;
            assert(expect.len() == ints(groups@).len());
            assert forall|k: int| 0 <= k < expect.len() implies ints(groups@)[k] == expect[k] by {
                if k < head_size {
                    assert(ints(head_seq)[k] == head_seq[k] as int);
                } else if k >= 8 - tail_size {
                    assert(ints(tail@)[k - (8 - tail_size)] == tail@[k - (8 - tail_size)] as int);
                }
            }
        }
    }
    let ghost g = ipv6_groups(t@)->Some_0;
    assert(g == ints(groups@));
    let ip: [u8; 16] = [
        (groups[0] / 256) as u8,
        (groups[0] % 256) as u8,
        (groups[1] / 256) as u8,
        (groups[1] % 256) as u8,
        (groups[2] / 256) as u8,
        (groups[2] % 256) as u8,
        (groups[3] / 256) as u8,
        (groups[3] % 256) as u8,
        (groups[4] / 256) as u8,
        (groups[4] % 256) as u8,
        (groups[5] / 256) as u8,
        (groups[5] % 256) as u8,
        (groups[6] / 256) as u8,
        (groups[6] % 256) as u8,
        (groups[7] / 256) as u8,
        (groups[7] % 256) as u8,
    ];
    assert(ip@ =~= groups_bytes(g)) by {
        assert forall|k: int| 0 <= k < 16 implies ip@[k] == groups_bytes(g)[k] by {
            assert(g[k / 2] == groups@[k / 2] as int);
        }
    }
    Some((ip, end))
}


/// Whether only spaces and tabs stand between `i` and the end of `s`.
pub open spec fn at_end(s: Seq<u8>, i: int) -> bool {
    run_end(s, i, CharClass::Blank) == s.len()
}

/// Says whether only spaces and tabs stand between `i` and the end of `s`.
pub fn is_at_end(s: &[u8], i: usize) -> (r: bool)
    requires
        i <= s@.len(),
    ensures
        r == at_end(s@, i as int),
{
    skip_run(s, i, CharClass::Blank) == s.len()
}

/// The type that `text` is the mnemonic of, in any ASCII case, among the
/// types that have a text form.
pub open spec fn type_of_text(text: Seq<u8>) -> Option<Type> {
    if eq_ignore_ascii_case(text, Type::A.mnemonic().spec_bytes()) {
        Some(Type::A)
    } else if eq_ignore_ascii_case(text, Type::AAAA.mnemonic().spec_bytes()) {
        Some(Type::AAAA)
    } else if eq_ignore_ascii_case(text, Type::NS.mnemonic().spec_bytes()) {
        Some(Type::NS)
    } else if eq_ignore_ascii_case(text, Type::CNAME.mnemonic().spec_bytes()) {
        Some(Type::CNAME)
    } else if eq_ignore_ascii_case(text, Type::PTR.mnemonic().spec_bytes()) {
        Some(Type::PTR)
    } else if eq_ignore_ascii_case(text, Type::TXT.mnemonic().spec_bytes()) {
        Some(Type::TXT)
    } else if eq_ignore_ascii_case(text, Type::MX.mnemonic().spec_bytes()) {
        Some(Type::MX)
    } else if eq_ignore_ascii_case(text, Type::SOA.mnemonic().spec_bytes()) {
        Some(Type::SOA)
    } else if eq_ignore_ascii_case(text, Type::DS.mnemonic().spec_bytes()) {
        Some(Type::DS)
    } else {
        None
    }
}

/// Finds the type that `text` is the mnemonic of.
pub fn rr_type_from_str(text: &[u8]) -> (r: Option<Type>)
    ensures
        r == type_of_text(text@),
{
    if bytes_eq_ignore_ascii_case(text, "A".as_bytes()) {
        Some(Type::A)
    } else if bytes_eq_ignore_ascii_case(text, "AAAA".as_bytes()) {
        Some(Type::AAAA)
    } else if bytes_eq_ignore_ascii_case(text, "NS".as_bytes()) {
        Some(Type::NS)
    } else if bytes_eq_ignore_ascii_case(text, "CNAME".as_bytes()) {
        Some(Type::CNAME)
    } else if bytes_eq_ignore_ascii_case(text, "PTR".as_bytes()) {
        Some(Type::PTR)
    } else if bytes_eq_ignore_ascii_case(text, "TXT".as_bytes()) {
        Some(Type::TXT)
    } else if bytes_eq_ignore_ascii_case(text, "MX".as_bytes()) {
        Some(Type::MX)
    } else if bytes_eq_ignore_ascii_case(text, "SOA".as_bytes()) {
        Some(Type::SOA)
    } else if bytes_eq_ignore_ascii_case(text, "DS".as_bytes()) {
        Some(Type::DS)
    } else {
        None
    }
}

/// What the fixed header of a record in text is made from.
pub struct Start {
    pub name: Seq<u8>,
    pub ttl: u32,
    pub rr_type: Type,
}

/// What a record in text starts with.
pub struct Common {
    pub start: Start,
    /// Where the type ends.
    pub end: int,
}

/// What the header `h` is made from.
pub open spec fn start_of(h: RRHeader) -> Start {
    Start { name: h.name@, ttl: h.ttl, rr_type: h.rr_type }
}

/// Where `word` ends if it stands at `i` of `s`, in any ASCII case.
pub open spec fn word_at(s: Seq<u8>, i: int, word: Seq<u8>) -> Option<int> {
    if 0 <= i && i + word.len() <= s.len() && eq_ignore_ascii_case(
        s.subrange(i, i + word.len()),
        word,
    ) {
        Some(i + word.len())
    } else {
        None
    }
}

/// Reads `word` at `i` of `s`, in any ASCII case, and says where it ends.
pub fn string_nocase(s: &[u8], i: usize, word: &[u8]) -> (r: Option<usize>)
    ensures
        match word_at(s@, i as int, word@) {
            None => r is None,
            Some(end) => r == Some(end as usize) && end <= s@.len(),
        },
{
    if i > s.len() || s.len() - i < word.len() {
        return None;
    }
    if bytes_eq_ignore_ascii_case(vstd::slice::slice_subrange(s, i, i + word.len()), word) {
        Some(i + word.len())
    } else {
        None
    }
}

/// The class `IN`, in any ASCII case, at `i`.
pub open spec fn class_in_at(s: Seq<u8>, i: int) -> bool {
    word_at(s, i, seq![0x49u8, 0x4eu8]) is Some
}

/// The mnemonic of a type at `i`: letters and digits, as many as there are.
pub open spec fn type_word_at(s: Seq<u8>, i: int) -> Option<(Type, int)> {
    let end = run_end(s, i, CharClass::AlphaNum);
    if end == i {
        None
    } else {
        match type_of_text(s.subrange(i, end)) {
            None => None,
            Some(t) => Some((t, end)),
        }
    }
}

/// Reads the mnemonic of a type at `i` of `s`, and says where it ends.
pub fn rr_type_parser(s: &[u8], i: usize) -> (r: Option<(Type, usize)>)
    requires
        i <= s@.len(),
    ensures
        match type_word_at(s@, i as int) {
            None => r is None,
            Some((t, end)) => r == Some((t, end as usize)) && i < end <= s@.len(),
        },
{
    let end: usize = skip_run(s, i, CharClass::AlphaNum);
    if end == i {
        return None;
    }
    match rr_type_from_str(vstd::slice::slice_subrange(s, i, end)) {
        Some(t) => Some((t, end)),
        None => None,
    }
}

/// The type at `i` and what follows the class: at least one blank, then
/// the mnemonic of a type.
pub open spec fn type_at(s: Seq<u8>, i: int) -> Option<(Type, int)> {
    let start = run_end(s, i, CharClass::Blank);
    if start == i {
        None
    } else {
        type_word_at(s, start)
    }
}

/// What the record in text `s` starts with: blanks if any, a host name,
/// blanks if any, a TTL in decimal digits, at least one blank, the class
/// `IN`, at least one blank, and the mnemonic of a type.
pub open spec fn common_at(s: Seq<u8>) -> Option<Common> {
    match hostname_at(s, run_end(s, 0, CharClass::Blank)) {
        None => None,
        Some((name, at1)) => match decimal_at(s, run_end(s, at1, CharClass::Blank), 0xffff_ffff) {
            None => None,
            Some((ttl, at3)) => if at3 >= s.len() || !in_class(CharClass::Blank, s[at3]) {
                None
            } else if !class_in_at(s, run_end(s, at3 + 1, CharClass::Blank)) {
                None
            } else {
                match type_at(s, run_end(s, at3 + 1, CharClass::Blank) + 2) {
                    None => None,
                    Some((t, end)) => Some(
                        Common { start: Start { name, ttl: ttl as u32, rr_type: t }, end },
                    ),
                }
            },
        },
    }
}

/// Reads what a record in text starts with.
pub fn rr_common_parser(s: &[u8]) -> (r: Option<(RRHeader, usize)>)
    ensures
        match common_at(s@) {
            None => r is None,
            Some(c) => {
                &&& r is Some
                &&& start_of(r->Some_0.0) == c.start
                &&& r->Some_0.0.class == Class::IN
                &&& r->Some_0.1 == c.end
                &&& c.end <= s@.len()
            },
        },
{
    let at0: usize = skip_run(s, 0, CharClass::Blank);
    let (name, at1) = match parse_hostname(s, at0) {
        Some(x) => x,
        None => return None,
    };
    let at2: usize = skip_run(s, at1, CharClass::Blank);
    let (ttl, at3) = match parse_decimal(s, at2, 0xffff_ffff) {
        Some(x) => x,
        None => return None,
    };
    if at3 >= s.len() || !class_holds(CharClass::Blank, s[at3]) {
        return None;
    }
    let at4: usize = skip_run(s, at3 + 1, CharClass::Blank);
    let class_in: [u8; 2] = [0x49, 0x4e];
    assert(class_in@ =~= seq![0x49u8, 0x4eu8]);
    let at5: usize = match string_nocase(s, at4, class_in.as_slice()) {
        Some(end) => end,
        None => return None,
    };
    let at6: usize = skip_run(s, at5, CharClass::Blank);
    if at6 == at5 {
        return None;
    }
    match rr_type_parser(s, at6) {
        Some((rr_type, at7)) => Some((RRHeader { name, ttl, class: Class::IN, rr_type }, at7)),
        None => None,
    }
}

/// A record in wire format and the length of its data, or an error.
pub open spec fn built(bytes: Result<Seq<u8>, DSError>, rdata_len: int) -> Result<
    (Seq<u8>, int),
    DSError,
> {
    match bytes {
        Ok(b) => Ok((b, rdata_len)),
        Err(e) => Err(e),
    }
}

/// Whether `r` is the record `b`.
pub open spec fn is_built(r: Result<RR, DSError>, b: Result<(Seq<u8>, int), DSError>) -> bool {
    match b {
        Err(e) => r == Err::<RR, DSError>(e),
        Ok((bytes, rdata_len)) => r is Ok && r->Ok_0.packet@ == bytes && r->Ok_0.rdata_offset
            == bytes.len() - rdata_len,
    }
}

/// The length of the raw name for `name`, and zero where there is none.
pub open spec fn raw_name_len(name: Seq<u8>) -> int {
    match raw_from_str(name, None) {
        Err(e) => 0,
        Ok(raw) => raw.len() as int,
    }
}

/// The record whose data is the raw name for `host`.
pub open spec fn name_record(c: Start, host: Seq<u8>) -> Result<(Seq<u8>, int), DSError> {
    match raw_from_str(host, None) {
        Err(e) => Err(e),
        Ok(raw) => built(rr_bytes_of(c.name, c.rr_type, Class::IN, c.ttl, raw), raw.len() as int),
    }
}

/// The five numbers of an SOA record and the parentheses around them,
/// from `i` on: the numbers in decimal digits, with as much white space
/// as one likes around each. Returns the numbers and where the closing
/// parenthesis ends.
pub open spec fn soa_numbers_at(s: Seq<u8>, i: int) -> Option<(Seq<u8>, int)> {
    if i < 0 || i >= s.len() || s[i] != 0x28 {
        None
    } else {
        match decimal_at(s, run_end(s, i + 1, CharClass::Space), 0xffff_ffff) {
            None => None,
            Some((n1, e1)) => match decimal_at(s, run_end(s, e1, CharClass::Space), 0xffff_ffff) {
                None => None,
                Some((n2, e2)) => match decimal_at(
                    s,
                    run_end(s, e2, CharClass::Space),
                    0xffff_ffff,
                ) {
                    None => None,
                    Some((n3, e3)) => match decimal_at(
                        s,
                        run_end(s, e3, CharClass::Space),
                        0xffff_ffff,
                    ) {
                        None => None,
                        Some((n4, e4)) => match decimal_at(
                            s,
                            run_end(s, e4, CharClass::Space),
                            0xffff_ffff,
                        ) {
                            None => None,
                            Some((n5, e5)) => if run_end(s, e5, CharClass::Space) >= s.len()
                                || s[run_end(s, e5, CharClass::Space)] != 0x29 {
                                None
                            } else {
                                Some(
                                    (
                                        soa_numbers(
                                            n1 as u32,
                                            n2 as u32,
                                            n3 as u32,
                                            n4 as u32,
                                            n5 as u32,
                                        ),
                                        run_end(s, e5, CharClass::Space) + 1,
                                    ),
                                )
                            },
                        },
                    },
                },
            },
        }
    }
}

/// The SOA record whose data starts at `p`: two host names with blanks
/// between them, blanks if any, and the five numbers in parentheses.
pub open spec fn soa_record(s: Seq<u8>, p: int, c: Start) -> Result<(Seq<u8>, int), DSError> {
    match hostname_at(s, p) {
        None => Err(DSError::ParseError),
        Some((primary_ns, e1)) => if run_end(s, e1, CharClass::Blank) == e1 {
            Err(DSError::ParseError)
        } else {
            match hostname_at(s, run_end(s, e1, CharClass::Blank)) {
                None => Err(DSError::ParseError),
                Some((contact, e2)) => match soa_numbers_at(s, run_end(s, e2, CharClass::Blank)) {
                    None => Err(DSError::ParseError),
                    Some((numbers, e3)) => if !at_end(s, e3) {
                        Err(DSError::ParseError)
                    } else {
                        match raw_from_str(primary_ns, None) {
                            Err(e) => Err(e),
                            Ok(raw1) => match raw_from_str(contact, None) {
                                Err(e) => Err(e),
                                Ok(raw2) => built(
                                    rr_bytes_of(
                                        c.name,
                                        c.rr_type,
                                        Class::IN,
                                        c.ttl,
                                        raw1 + raw2 + numbers,
                                    ),
                                    (raw1.len() + raw2.len() + 20) as int,
                                ),
                            },
                        }
                    },
                },
            }
        },
    }
}

/// The MX record whose data starts at `p`: a preference in decimal digits,
/// blanks, and a host name.
pub open spec fn mx_record(s: Seq<u8>, p: int, c: Start) -> Result<(Seq<u8>, int), DSError> {
    match decimal_at(s, p, 0xffff) {
        None => Err(DSError::ParseError),
        Some((preference, e1)) => if run_end(s, e1, CharClass::Blank) == e1 {
            Err(DSError::ParseError)
        } else {
            match hostname_at(s, run_end(s, e1, CharClass::Blank)) {
                None => Err(DSError::ParseError),
                Some((host, e2)) => if !at_end(s, e2) {
                    Err(DSError::ParseError)
                } else {
                    match raw_from_str(host, None) {
                        Err(e) => Err(e),
                        Ok(raw) => built(
                            rr_bytes_of(
                                c.name,
                                c.rr_type,
                                Class::IN,
                                c.ttl,
                                be16_bytes(preference) + raw,
                            ),
                            (2 + raw.len()) as int,
                        ),
                    }
                },
            }
        },
    }
}

/// The DS record whose data starts at `p`: a key tag, an algorithm and a
/// digest type in decimal digits and a digest in hexadecimal digits, with
/// blanks between them.
pub open spec fn ds_record(s: Seq<u8>, p: int, c: Start) -> Result<(Seq<u8>, int), DSError> {
    match decimal_at(s, p, 0xffff) {
        None => Err(DSError::ParseError),
        Some((key_tag, e1)) => if run_end(s, e1, CharClass::Blank) == e1 {
            Err(DSError::ParseError)
        } else {
            match decimal_at(s, run_end(s, e1, CharClass::Blank), 0xff) {
                None => Err(DSError::ParseError),
                Some((algorithm, e2)) => if run_end(s, e2, CharClass::Blank) == e2 {
                    Err(DSError::ParseError)
                } else {
                    match decimal_at(s, run_end(s, e2, CharClass::Blank), 0xff) {
                        None => Err(DSError::ParseError),
                        Some((digest_type, e3)) => if run_end(s, e3, CharClass::Blank) == e3 {
                            Err(DSError::ParseError)
                        } else {
                            match hexstring_at(s, run_end(s, e3, CharClass::Blank)) {
                                None => Err(DSError::ParseError),
                                Some((digest, e4)) => if !at_end(s, e4) {
                                    Err(DSError::ParseError)
                                } else {
                                    built(
                                        rr_bytes_of(
                                            c.name,
                                            c.rr_type,
                                            Class::IN,
                                            c.ttl,
                                            ds_rdata(
                                                key_tag as u16,
                                                algorithm as u8,
                                                digest_type as u8,
                                                digest,
                                            ),
                                        ),
                                        (4 + digest.len()) as int,
                                    )
                                },
                            }
                        },
                    }
                },
            }
        },
    }
}

/// The record with the start `c` whose data, in the form that the type
/// asks for, starts at `p` and goes up to the end of the line.
pub open spec fn rdata_record(s: Seq<u8>, p: int, c: Start) -> Result<(Seq<u8>, int), DSError> {
    match c.rr_type {
        Type::A => match ipv4_at(s, p) {
            Some((ip, e)) if at_end(s, e) => built(
                rr_bytes_of(c.name, c.rr_type, Class::IN, c.ttl, ip),
                4,
            ),
            _ => Err(DSError::ParseError),
        },
        Type::AAAA => match ipv6_at(s, p) {
            Some((ip, e)) if at_end(s, e) => built(
                rr_bytes_of(c.name, c.rr_type, Class::IN, c.ttl, ip),
                16,
            ),
            _ => Err(DSError::ParseError),
        },
        Type::NS | Type::CNAME | Type::PTR => match hostname_at(s, p) {
            Some((host, e)) if at_end(s, e) => name_record(c, host),
            _ => Err(DSError::ParseError),
        },
        Type::TXT => match quoted_at(s, p) {
            Some((text, e)) if at_end(s, e) => if text.len() > MAX_TXT_LEN {
                Err(DSError::InvalidPacket("Text too long"))
            } else {
                built(
                    rr_bytes_of(c.name, c.rr_type, Class::IN, c.ttl, txt_chunks(text)),
                    txt_chunks(text).len() as int,
                )
            },
            _ => Err(DSError::ParseError),
        },
        Type::MX => mx_record(s, p, c),
        Type::SOA => soa_record(s, p, c),
        Type::DS => ds_record(s, p, c),
        _ => Err(DSError::ParseError),
    }
}

/// The record that the line `s` spells, in wire format, and the length of
/// its data: what `common_at` says it starts with, at least one blank,
/// and the data in the form that the type asks for. A line that is no
/// record is a `ParseError`; a record that cannot be built is the error
/// that its builder answers with.
pub open spec fn rr_from_text(s: Seq<u8>) -> Result<(Seq<u8>, int), DSError> {
    match common_at(s) {
        None => Err(DSError::ParseError),
        Some(c) => if run_end(s, c.end, CharClass::Blank) == c.end {
            Err(DSError::ParseError)
        } else {
            rdata_record(s, run_end(s, c.end, CharClass::Blank), c.start)
        },
    }
}

/// Reads the five numbers of an SOA record and the parentheses around them.
pub fn parse_soa_numbers(s: &[u8], i: usize) -> (r: Option<((u32, u32, u32, u32, u32), usize)>)
    requires
        i <= s@.len(),
    ensures
        match soa_numbers_at(s@, i as int) {
            None => r is None,
            Some((numbers, end)) => {
                &&& r is Some
                &&& soa_numbers(
                    r->Some_0.0.0,
                    r->Some_0.0.1,
                    r->Some_0.0.2,
                    r->Some_0.0.3,
                    r->Some_0.0.4,
                ) == numbers
                &&& r->Some_0.1 == end
                &&& end <= s@.len()
            },
        },
{
    if i >= s.len() || s[i] != 0x28 {
        return None;
    }
    let at1: usize = skip_run(s, i + 1, CharClass::Space);
    let (n1, e1) = match parse_decimal(s, at1, 0xffff_ffff) {
        Some(x) => x,
        None => return None,
    };
    let at2: usize = skip_run(s, e1, CharClass::Space);
    let (n2, e2) = match parse_decimal(s, at2, 0xffff_ffff) {
        Some(x) => x,
        None => return None,
    };
    let at3: usize = skip_run(s, e2, CharClass::Space);
    let (n3, e3) = match parse_decimal(s, at3, 0xffff_ffff) {
        Some(x) => x,
        None => return None,
    };
    let at4: usize = skip_run(s, e3, CharClass::Space);
    let (n4, e4) = match parse_decimal(s, at4, 0xffff_ffff) {
        Some(x) => x,
        None => return None,
    };
    let at5: usize = skip_run(s, e4, CharClass::Space);
    let (n5, e5) = match parse_decimal(s, at5, 0xffff_ffff) {
        Some(x) => x,
        None => return None,
    };
    let at6: usize = skip_run(s, e5, CharClass::Space);
    if at6 >= s.len() || s[at6] != 0x29 {
        return None;
    }
    Some(((n1, n2, n3, n4, n5), at6 + 1))
}

/// Reads the data of an SOA record and builds the record.
pub fn parse_soa(s: &[u8], p: usize, rr_common: RRHeader) -> (r: Result<RR, DSError>)
    requires
        p <= s@.len(),
        rr_common.class == Class::IN,
    ensures
        is_built(r, soa_record(s@, p as int, start_of(rr_common))),
{
    let (primary_ns, e1) = match parse_hostname(s, p) {
        Some(x) => x,
        None => return Err(DSError::ParseError),
    };
    let at2: usize = skip_run(s, e1, CharClass::Blank);
    if at2 == e1 {
        return Err(DSError::ParseError);
    }
    let (contact, e2) = match parse_hostname(s, at2) {
        Some(x) => x,
        None => return Err(DSError::ParseError),
    };
    let at3: usize = skip_run(s, e2, CharClass::Blank);
    let (numbers, e3) = match parse_soa_numbers(s, at3) {
        Some(x) => x,
        None => return Err(DSError::ParseError),
    };
    if !is_at_end(s, e3) {
        return Err(DSError::ParseError);
    }
    SOA::build(
        rr_common,
        primary_ns,
        contact,
        numbers.0,
        numbers.1,
        numbers.2,
        numbers.3,
        numbers.4,
    )
}

/// Reads the data of an MX record and builds the record.
pub fn parse_mx(s: &[u8], p: usize, rr_common: RRHeader) -> (r: Result<RR, DSError>)
    requires
        p <= s@.len(),
        rr_common.class == Class::IN,
    ensures
        is_built(r, mx_record(s@, p as int, start_of(rr_common))),
{
    let (preference, e1) = match parse_decimal(s, p, 0xffff) {
        Some(x) => x,
        None => return Err(DSError::ParseError),
    };
    let at2: usize = skip_run(s, e1, CharClass::Blank);
    if at2 == e1 {
        return Err(DSError::ParseError);
    }
    let (host, e2) = match parse_hostname(s, at2) {
        Some(x) => x,
        None => return Err(DSError::ParseError),
    };
    if !is_at_end(s, e2) {
        return Err(DSError::ParseError);
    }
    MX::build(rr_common, preference as u16, host)
}

/// Reads the data of a DS record and builds the record.
pub fn parse_ds(s: &[u8], p: usize, rr_common: RRHeader) -> (r: Result<RR, DSError>)
    requires
        p <= s@.len(),
        rr_common.class == Class::IN,
    ensures
        is_built(r, ds_record(s@, p as int, start_of(rr_common))),
{
    let (key_tag, e1) = match parse_decimal(s, p, 0xffff) {
        Some(x) => x,
        None => return Err(DSError::ParseError),
    };
    let at2: usize = skip_run(s, e1, CharClass::Blank);
    if at2 == e1 {
        return Err(DSError::ParseError);
    }
    let (algorithm, e2) = match parse_decimal(s, at2, 0xff) {
        Some(x) => x,
        None => return Err(DSError::ParseError),
    };
    let at3: usize = skip_run(s, e2, CharClass::Blank);
    if at3 == e2 {
        return Err(DSError::ParseError);
    }
    let (digest_type, e3) = match parse_decimal(s, at3, 0xff) {
        Some(x) => x,
        None => return Err(DSError::ParseError),
    };
    let at4: usize = skip_run(s, e3, CharClass::Blank);
    if at4 == e3 {
        return Err(DSError::ParseError);
    }
    let (digest, e4) = match parse_hexstring(s, at4) {
        Some(x) => x,
        None => return Err(DSError::ParseError),
    };
    if !is_at_end(s, e4) {
        return Err(DSError::ParseError);
    }
    DS::build(rr_common, key_tag as u16, algorithm as u8, digest_type as u8, digest)
}

/// Reads the data of a record in the form that its type asks for, and
/// builds the record.
pub fn parse_rdata(s: &[u8], p: usize, rr_common: RRHeader) -> (r: Result<RR, DSError>)
    requires
        p <= s@.len(),
        rr_common.class == Class::IN,
    ensures
        is_built(r, rdata_record(s@, p as int, start_of(rr_common))),
{
    match rr_common.rr_type {
        Type::A => match parse_ipv4(s, p) {
            Some((ip, e)) => {
                if !is_at_end(s, e) {
                    return Err(DSError::ParseError);
                }
                A::build(rr_common, ip)
            },
            None => Err(DSError::ParseError),
        },
        Type::AAAA => match parse_ipv6(s, p) {
            Some((ip, e)) => {
                if !is_at_end(s, e) {
                    return Err(DSError::ParseError);
                }
                AAAA::build(rr_common, ip)
            },
            None => Err(DSError::ParseError),
        },
        Type::NS => match parse_hostname(s, p) {
            Some((host, e)) => {
                if !is_at_end(s, e) {
                    return Err(DSError::ParseError);
                }
                NS::build(rr_common, host)
            },
            None => Err(DSError::ParseError),
        },
        Type::CNAME => match parse_hostname(s, p) {
            Some((host, e)) => {
                if !is_at_end(s, e) {
                    return Err(DSError::ParseError);
                }
                CNAME::build(rr_common, host)
            },
            None => Err(DSError::ParseError),
        },
        Type::PTR => match parse_hostname(s, p) {
            Some((host, e)) => {
                if !is_at_end(s, e) {
                    return Err(DSError::ParseError);
                }
                PTR::build(rr_common, host)
            },
            None => Err(DSError::ParseError),
        },
        Type::TXT => match parse_quoted(s, p) {
            Some((text, e)) => {
                if !is_at_end(s, e) {
                    return Err(DSError::ParseError);
                }
                TXT::build(rr_common, text)
            },
            None => Err(DSError::ParseError),
        },
        Type::MX => parse_mx(s, p, rr_common),
        Type::SOA => parse_soa(s, p, rr_common),
        Type::DS => parse_ds(s, p, rr_common),
        _ => Err(DSError::ParseError),
    }
}

/// Reads one record in text and builds it.
pub fn rr_parser(s: &[u8]) -> (r: Result<RR, DSError>)
    ensures
        is_built(r, rr_from_text(s@)),
{
    let (rr_common, end) = match rr_common_parser(s) {
        Some(x) => x,
        None => return Err(DSError::ParseError),
    };
    let p: usize = skip_run(s, end, CharClass::Blank);
    if p == end {
        return Err(DSError::ParseError);
    }
    parse_rdata(s, p, rr_common)
}

} // verus!
