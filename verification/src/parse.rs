//! Record parser: turns lines of the vendor-prefix data format into
//! `((prefix, prefix_length), (name, description))` records.
//!
//! Each line holds up to three tab-separated fields: a prefix
//! specification `XX:XX:XX[/len]`, a vendor name, and a description.
//! Blank lines, comment lines and malformed lines yield no record.

use vstd::prelude::*;

use crate::bits::{be48, bytes48, mask_of, lemma_be48_bound};
use crate::bits::{read_be48, mask_for_len, value_to_bytes};

verus! {

/// The number of bytes in an ethernet (MAC) address.
pub const ETHER_ADDR_LEN: usize = 6;

/// A 48-bit Ethernet address.
pub type EtherAddr = [u8; 6];

/// A parsed record, as the spec-level parser states it: the masked prefix
/// bytes with the prefix length, and the name with the description.
pub type RecordModel = ((Seq<u8>, u32), (Seq<char>, Seq<char>));

/// A parsed record as executable data.
pub type Record = ((EtherAddr, u32), (String, String));

/// The spec-level reading of an executable record.
pub open spec fn record_model(rec: Record) -> RecordModel {
    ((rec.0.0@, rec.0.1), (rec.1.0@, rec.1.1@))
}

/// Whitespace, as line and field trimming understands it.
pub open spec fn is_space(c: char) -> bool {
    let u = c as u32;
    (9 <= u && u <= 13) || u == 32 || u == 0x85 || u == 0xA0 || u == 0x1680 || (0x2000 <= u && u
        <= 0x200A) || u == 0x2028 || u == 0x2029 || u == 0x202F || u == 0x205F || u == 0x3000
}

/// A hexadecimal digit.
pub open spec fn hex_digit(c: char) -> bool {
    let u = c as u32;
    (48 <= u && u <= 57) || (97 <= u && u <= 102) || (65 <= u && u <= 70)
}

/// The value of a hexadecimal digit.
pub open spec fn hex_val(c: char) -> u32 {
    let u = c as u32;
    if 48 <= u && u <= 57 {
        (u - 48) as u32
    } else if 97 <= u && u <= 102 {
        (u - 87) as u32
    } else {
        (u - 55) as u32
    }
}

/// A decimal digit.
pub open spec fn dec_digit(c: char) -> bool {
    let u = c as u32;
    48 <= u && u <= 57
}

/// The value of a decimal digit.
pub open spec fn dec_val(c: char) -> u32 {
    ((c as u32) - 48) as u32
}

/// The first position of `c` in `s[lo..hi]`, or `hi` if it does not occur.
pub open spec fn scan(s: Seq<char>, lo: int, hi: int, c: char) -> int
    decreases hi - lo,
{
    if lo < 0 || lo >= hi {
        hi
    } else if s[lo] == c {
        lo
    } else {
        scan(s, lo + 1, hi, c)
    }
}

/// The first position in `s[lo..hi]` holding a non-whitespace character,
/// or `hi`.
pub open spec fn skip_space(s: Seq<char>, lo: int, hi: int) -> int
    decreases hi - lo,
{
    if lo < 0 || lo >= hi {
        hi
    } else if is_space(s[lo]) {
        skip_space(s, lo + 1, hi)
    } else {
        lo
    }
}

/// The position after the last non-whitespace character of `s[lo..hi]`,
/// or `lo`.
pub open spec fn trim_end(s: Seq<char>, lo: int, hi: int) -> int
    decreases hi - lo,
{
    if hi <= lo {
        lo
    } else if is_space(s[hi - 1]) {
        trim_end(s, lo, hi - 1)
    } else {
        hi
    }
}

/// All characters of `s[lo..hi]` are hexadecimal digits.
pub open spec fn all_hex(s: Seq<char>, lo: int, hi: int) -> bool {
    forall|k: int| lo <= k < hi ==> hex_digit(#[trigger] s[k])
}

/// The value of `s[lo..hi]` read as a hexadecimal number.
pub open spec fn hex_value(s: Seq<char>, lo: int, hi: int) -> int
    decreases hi - lo,
{
    if hi <= lo {
        0
    } else {
        hex_value(s, lo, hi - 1) * 16 + hex_val(s[hi - 1])
    }
}

/// One colon-separated group read as a byte: nonempty, all hex digits,
/// value at most 255.
pub open spec fn octet_of(s: Seq<char>, lo: int, hi: int) -> Option<u8> {
    if lo < hi && all_hex(s, lo, hi) && hex_value(s, lo, hi) <= 255 {
        Some(hex_value(s, lo, hi) as u8)
    } else {
        None
    }
}

/// All characters of `s[lo..hi]` are decimal digits.
pub open spec fn all_dec(s: Seq<char>, lo: int, hi: int) -> bool {
    forall|k: int| lo <= k < hi ==> dec_digit(#[trigger] s[k])
}

/// The value of `s[lo..hi]` read as a decimal number.
pub open spec fn dec_value(s: Seq<char>, lo: int, hi: int) -> int
    decreases hi - lo,
{
    if hi <= lo {
        0
    } else {
        dec_value(s, lo, hi - 1) * 10 + dec_val(s[hi - 1])
    }
}

/// `s[lo..hi]` reads as a decimal number: nonempty and all digits.
pub open spec fn parses_dec(s: Seq<char>, lo: int, hi: int) -> bool {
    lo < hi && all_dec(s, lo, hi)
}

pub proof fn lemma_scan_bounds(s: Seq<char>, lo: int, hi: int, c: char)
    requires
        lo <= hi,
    ensures
        lo <= scan(s, lo, hi, c) <= hi,
    decreases hi - lo,
{
    if 0 <= lo && lo < hi && s[lo] != c {
        lemma_scan_bounds(s, lo + 1, hi, c);
    }
}

/// The colon-separated groups of `s[lo..hi]`, each read as a byte, or
/// nothing if any group is not a valid octet.
pub open spec fn groups_of(s: Seq<char>, lo: int, hi: int) -> Option<Seq<u8>>
    decreases hi - lo,
    when lo >= 0
    via groups_of_decreases
{
    let g = scan(s, lo, hi, ':');
    match octet_of(s, lo, g) {
        None => None,
        Some(b) => if g == hi {
            Some(seq![b])
        } else {
            match groups_of(s, g + 1, hi) {
                None => None,
                Some(rest) => Some(seq![b] + rest),
            }
        },
    }
}

#[via_fn]
proof fn groups_of_decreases(s: Seq<char>, lo: int, hi: int) {
    if lo <= hi {
        lemma_scan_bounds(s, lo, hi, ':');
    } else {
        assert(scan(s, lo, hi, ':') == hi);
    }
}

/// What one line of the data format yields: a record, or nothing for
/// blank, comment and malformed lines. The prefix is zero-padded to 6
/// bytes and masked to its prefix length; lines whose explicit prefix
/// length exceeds 48 are rejected.
pub open spec fn line_record(s: Seq<char>) -> Option<RecordModel> {
    let hi = s.len() as int;
    let a = skip_space(s, 0, hi);
    let b = trim_end(s, a, hi);
    if a == b || s[a] == '#' {
        None
    } else {
        let t1 = scan(s, a, b, '\t');
        if t1 == b {
            None
        } else {
            let t2 = scan(s, t1 + 1, b, '\t');
            let n0 = skip_space(s, t1 + 1, t2);
            let n1 = trim_end(s, n0, t2);
            if n0 == n1 {
                None
            } else {
                let name = s.subrange(n0, n1);
                let desc = if t2 == b {
                    Seq::<char>::empty()
                } else {
                    s.subrange(skip_space(s, t2 + 1, b), trim_end(s, skip_space(s, t2 + 1, b), b))
                };
                let sl = scan(s, a, t1, '/');
                match groups_of(s, a, sl) {
                    None => None,
                    Some(gs) => if gs.len() > 6 {
                        None
                    } else {
                        let deflen = 8 * gs.len() as int;
                        let plen_opt: Option<int> = if sl == t1 {
                            Some(deflen)
                        } else {
                            let sl2 = scan(s, sl + 1, t1, '/');
                            if parses_dec(s, sl + 1, sl2) {
                                if dec_value(s, sl + 1, sl2) <= 48 {
                                    Some(dec_value(s, sl + 1, sl2))
                                } else {
                                    None
                                }
                            } else {
                                Some(deflen)
                            }
                        };
                        match plen_opt {
                            None => None,
                            Some(plen) => {
                                let raw = gs + Seq::new((6 - gs.len()) as nat, |i: int| 0u8);
                                let key = be48(raw) & mask_of(plen as u64);
                                Some(((bytes48(key), plen as u32), (name, desc)))
                            },
                        }
                    },
                }
            }
        }
    }
}

/// The records of a sequence of lines, in order, bad lines skipped.
pub open spec fn spec_parse(ls: Seq<Seq<char>>) -> Seq<RecordModel>
    decreases ls.len(),
{
    if ls.len() == 0 {
        Seq::empty()
    } else {
        spec_parse(ls.drop_last()) + match line_record(ls.last()) {
            None => Seq::empty(),
            Some(m) => seq![m],
        }
    }
}

/// The character of one hexadecimal (or decimal) digit value.
pub open spec fn digit_char(v: u32) -> char {
    if v == 0 {
        '0'
    } else if v == 1 {
        '1'
    } else if v == 2 {
        '2'
    } else if v == 3 {
        '3'
    } else if v == 4 {
        '4'
    } else if v == 5 {
        '5'
    } else if v == 6 {
        '6'
    } else if v == 7 {
        '7'
    } else if v == 8 {
        '8'
    } else if v == 9 {
        '9'
    } else if v == 10 {
        'A'
    } else if v == 11 {
        'B'
    } else if v == 12 {
        'C'
    } else if v == 13 {
        'D'
    } else if v == 14 {
        'E'
    } else {
        'F'
    }
}

/// A byte serialized as two hexadecimal digits.
pub open spec fn hex2(b: u8) -> Seq<char> {
    seq![digit_char((b as u32) / 16), digit_char((b as u32) % 16)]
}

/// A prefix length serialized as one or two decimal digits.
pub open spec fn dec_str(v: u32) -> Seq<char>
    recommends
        v <= 48,
{
    if v < 10 {
        seq![digit_char(v)]
    } else {
        seq![digit_char(v / 10), digit_char(v % 10)]
    }
}

proof fn lemma_digit_char(v: u32)
    requires
        v <= 15,
    ensures
        hex_digit(digit_char(v)),
        hex_val(digit_char(v)) == v,
        v <= 9 ==> dec_digit(digit_char(v)) && dec_val(digit_char(v)) == v,
{
}

/// Round-trip of the serialized form, octet part: the two-digit
/// hexadecimal serialization of a byte reads back as that byte.
pub proof fn lemma_octet_roundtrip(b: u8)
    ensures
        octet_of(hex2(b), 0, 2) == Some(b),
{
    let s = hex2(b);
    lemma_digit_char((b as u32) / 16);
    lemma_digit_char((b as u32) % 16);
    assert(all_hex(s, 0, 2));
    assert(hex_value(s, 0, 0) == 0);
    assert(hex_value(s, 0, 1) == hex_val(s[0]));
    assert(hex_value(s, 0, 2) == hex_val(s[0]) * 16 + hex_val(s[1]));
    assert(hex_value(s, 0, 2) == b);
}

/// Round-trip of the serialized form, prefix-length part: the decimal
/// serialization of a prefix length reads back as that length.
pub proof fn lemma_length_roundtrip(v: u32)
    requires
        v <= 48,
    ensures
        parses_dec(dec_str(v), 0, dec_str(v).len() as int),
        dec_value(dec_str(v), 0, dec_str(v).len() as int) == v,
{
    let s = dec_str(v);
    if v < 10 {
        lemma_digit_char(v);
        assert(dec_value(s, 0, 0) == 0);
        assert(dec_value(s, 0, 1) == dec_value(s, 0, 0) * 10 + dec_val(s[0]));
    } else {
        lemma_digit_char(v / 10);
        lemma_digit_char(v % 10);
        assert(dec_value(s, 0, 0) == 0);
        assert(dec_value(s, 0, 2) == dec_value(s, 0, 1) * 10 + dec_val(s[1]));
        assert(dec_value(s, 0, 1) == dec_value(s, 0, 0) * 10 + dec_val(s[0]));
    }
}

/// Prefix bytes serialized as colon-separated two-digit groups.
pub open spec fn ser_groups(p: Seq<u8>) -> Seq<char>
    decreases p.len(),
{
    if p.len() == 0 {
        Seq::empty()
    } else if p.len() == 1 {
        hex2(p[0])
    } else {
        hex2(p[0]) + seq![':'] + ser_groups(p.skip(1))
    }
}

/// Round-trip of the serialized form, group part: a prefix written as
/// colon-separated two-digit hexadecimal groups reads back as the same
/// bytes, wherever the serialization stands in a line.
pub proof fn lemma_groups_roundtrip(s: Seq<char>, lo: int, hi: int, p: Seq<u8>)
    requires
        p.len() >= 1,
        0 <= lo <= hi <= s.len(),
        hi - lo == ser_groups(p).len(),
        s.subrange(lo, hi) == ser_groups(p),
    ensures
        groups_of(s, lo, hi) == Some(p),
    decreases p.len(),
{
    let g0 = ser_groups(p);
    let b = p[0];
    lemma_digit_char((b as u32) / 16);
    lemma_digit_char((b as u32) % 16);
    assert(s[lo] == g0[0] && s[lo + 1] == g0[1]);
    assert(s[lo] == digit_char((b as u32) / 16) && s[lo + 1] == digit_char((b as u32) % 16));
    assert(hex_value(s, lo, lo) == 0);
    assert(hex_value(s, lo, lo + 1) == hex_value(s, lo, lo) * 16 + hex_val(s[lo]));
    assert(hex_value(s, lo, lo + 2) == hex_value(s, lo, lo + 1) * 16 + hex_val(s[lo + 1]));
    assert(hex_value(s, lo, lo + 2) == b);
    assert(all_hex(s, lo, lo + 2));
    assert(octet_of(s, lo, lo + 2) == Some(b));
    if p.len() == 1 {
        assert(hi == lo + 2);
        assert(scan(s, lo + 2, hi, ':') == hi);
        assert(scan(s, lo + 1, hi, ':') == hi);
        assert(scan(s, lo, hi, ':') == hi);
        assert(seq![b] =~= p);
    } else {
        let rest = p.skip(1);
        assert(g0 == hex2(b) + seq![':'] + ser_groups(rest));
        assert(s[lo + 2] == g0[2] && g0[2] == ':');
        assert(scan(s, lo + 2, hi, ':') == lo + 2);
        assert(scan(s, lo + 1, hi, ':') == lo + 2);
        assert(scan(s, lo, hi, ':') == lo + 2);
        assert(forall|j: int| 0 <= j < hi - lo ==> s[lo + j] == #[trigger] g0[j]) by {
            assert(forall|j: int|
                0 <= j < hi - lo ==> #[trigger] g0[j] == s.subrange(lo, hi)[j]);
        }
        assert(forall|k: int|
            0 <= k < ser_groups(rest).len() ==> #[trigger] ser_groups(rest)[k] == g0[3 + k]);
        assert(s.subrange(lo + 3, hi) =~= ser_groups(rest));
        lemma_groups_roundtrip(s, lo + 3, hi, rest);
        assert(groups_of(s, lo + 3, hi) == Some(rest));
        assert(lo + 2 < hi);
        assert(seq![b] + rest =~= p);
    }
}

fn is_space_c(c: char) -> (r: bool)
    ensures
        r == is_space(c),
{
    let u = c as u32;
    (9 <= u && u <= 13) || u == 32 || u == 0x85 || u == 0xA0 || u == 0x1680 || (0x2000 <= u && u
        <= 0x200A) || u == 0x2028 || u == 0x2029 || u == 0x202F || u == 0x205F || u == 0x3000
}

fn is_hex_c(c: char) -> (r: bool)
    ensures
        r == hex_digit(c),
{
    let u = c as u32;
    (48 <= u && u <= 57) || (97 <= u && u <= 102) || (65 <= u && u <= 70)
}

fn hex_val_c(c: char) -> (r: u32)
    requires
        hex_digit(c),
    ensures
        r == hex_val(c),
        r <= 15,
{
    let u = c as u32;
    if 48 <= u && u <= 57 {
        u - 48
    } else if 97 <= u && u <= 102 {
        u - 87
    } else {
        u - 55
    }
}

fn find_char(cs: &Vec<char>, lo: usize, hi: usize, c: char) -> (r: usize)
    requires
        lo <= hi <= cs@.len(),
    ensures
        r == scan(cs@, lo as int, hi as int, c),
        lo <= r <= hi,
{
    let mut i = lo;
    while i < hi && cs[i] != c
        invariant
            lo <= i <= hi <= cs@.len(),
            scan(cs@, lo as int, hi as int, c) == scan(cs@, i as int, hi as int, c),
        decreases hi - i,
    {
        i += 1;
    }
    i
}

fn skip_space_x(cs: &Vec<char>, lo: usize, hi: usize) -> (r: usize)
    requires
        lo <= hi <= cs@.len(),
    ensures
        r == skip_space(cs@, lo as int, hi as int),
        lo <= r <= hi,
{
    let mut i = lo;
    while i < hi && is_space_c(cs[i])
        invariant
            lo <= i <= hi <= cs@.len(),
            skip_space(cs@, lo as int, hi as int) == skip_space(cs@, i as int, hi as int),
        decreases hi - i,
    {
        i += 1;
    }
    i
}

fn trim_end_x(cs: &Vec<char>, lo: usize, hi: usize) -> (r: usize)
    requires
        lo <= hi <= cs@.len(),
    ensures
        r == trim_end(cs@, lo as int, hi as int),
        lo <= r <= hi,
{
    let mut i = hi;
    while i > lo && is_space_c(cs[i - 1])
        invariant
            lo <= i <= hi <= cs@.len(),
            trim_end(cs@, lo as int, hi as int) == trim_end(cs@, lo as int, i as int),
        decreases i,
    {
        i -= 1;
    }
    i
}

fn parse_octet(cs: &Vec<char>, lo: usize, hi: usize) -> (r: Option<u8>)
    requires
        lo <= hi <= cs@.len(),
    ensures
        r == octet_of(cs@, lo as int, hi as int),
{
    if lo == hi {
        return None;
    }
    let mut i = lo;
    let mut acc: u32 = 0;
    while i < hi
        invariant
            lo <= i <= hi <= cs@.len(),
            all_hex(cs@, lo as int, i as int),
            hex_value(cs@, lo as int, i as int) <= 255 ==> acc == hex_value(
                cs@,
                lo as int,
                i as int,
            ),
            hex_value(cs@, lo as int, i as int) > 255 ==> acc == 256,
            acc <= 256,
        decreases hi - i,
    {
        let c = cs[i];
        if !is_hex_c(c) {
            assert(!all_hex(cs@, lo as int, hi as int));
            return None;
        }
        let d = hex_val_c(c);
        let next = acc * 16 + d;
        acc = if next > 255 {
            256
        } else {
            next
        };
        i += 1;
    }
    assert(all_hex(cs@, lo as int, hi as int));
    if acc > 255 {
        assert(hex_value(cs@, lo as int, hi as int) > 255);
        None
    } else {
        assert(acc == hex_value(cs@, lo as int, hi as int));
        Some(acc as u8)
    }
}

/// Decimal prefix length, capped: yields the exact value where it is at
/// most 48, any value above 48 where the number is larger, and nothing
/// where the range does not read as a decimal number.
fn parse_dec_capped(cs: &Vec<char>, lo: usize, hi: usize) -> (r: Option<u32>)
    requires
        lo <= hi <= cs@.len(),
    ensures
        r is Some <==> parses_dec(cs@, lo as int, hi as int),
        r matches Some(v) ==> (v <= 48 <==> dec_value(cs@, lo as int, hi as int) <= 48),
        r matches Some(v) ==> (v <= 48 ==> v == dec_value(cs@, lo as int, hi as int)),
{
    if lo == hi {
        return None;
    }
    let mut i = lo;
    let mut acc: u32 = 0;
    while i < hi
        invariant
            lo <= i <= hi <= cs@.len(),
            all_dec(cs@, lo as int, i as int),
            dec_value(cs@, lo as int, i as int) <= 48 ==> acc == dec_value(
                cs@,
                lo as int,
                i as int,
            ),
            dec_value(cs@, lo as int, i as int) > 48 ==> acc == 49,
            acc <= 49,
        decreases hi - i,
    {
        let c = cs[i];
        let u = c as u32;
        if !(48 <= u && u <= 57) {
            assert(!dec_digit(cs@[i as int]));
            assert(!all_dec(cs@, lo as int, hi as int));
            return None;
        }
        let d = u - 48;
        let next = acc * 10 + d;
        acc = if next > 48 {
            49
        } else {
            next
        };
        i += 1;
    }
    assert(all_dec(cs@, lo as int, hi as int));
    Some(acc)
}

fn parse_groups(cs: &Vec<char>, lo: usize, hi: usize) -> (r: Option<Vec<u8>>)
    requires
        lo <= hi <= cs@.len(),
    ensures
        r is None <==> groups_of(cs@, lo as int, hi as int) is None,
        r matches Some(g) ==> groups_of(cs@, lo as int, hi as int) == Some(g@),
    decreases hi - lo,
{
    let g = find_char(cs, lo, hi, ':');
    match parse_octet(cs, lo, g) {
        None => None,
        Some(b) => {
            if g == hi {
                let mut v: Vec<u8> = Vec::new();
                v.push(b);
                proof {
                    assert(v@ =~= seq![b]);
                }
                Some(v)
            } else {
                match parse_groups(cs, g + 1, hi) {
                    None => None,
                    Some(rest) => {
                        let ghost rest0 = rest@;
                        let mut rest = rest;
                        rest.insert(0, b);
                        proof {
                            assert(rest@ =~= seq![b] + rest0);
                        }
                        Some(rest)
                    },
                }
            }
        },
    }
}

/// The characters of one line.
fn line_chars(s: &str) -> (cs: Vec<char>)
    ensures
        cs@ == s@,
{
    let n = s.unicode_len();
    let mut cs: Vec<char> = Vec::new();
    let mut i: usize = 0;
    while i < n
        invariant
            i <= n,
            n == s@.len(),
            cs@ == s@.take(i as int),
        decreases n - i,
    {
        cs.push(s.get_char(i));
        proof {
            assert(cs@ =~= s@.take(i + 1 as int));
        }
        i += 1;
    }
    proof {
        assert(cs@ =~= s@);
    }
    cs
}

/// Parse one line; bad lines yield nothing.
fn parse_line(s: &str) -> (r: Option<Record>)
    ensures
        r is None <==> line_record(s@) is None,
        r matches Some(rec) ==> line_record(s@) == Some(record_model(rec)) && rec.0.1 <= 48,
{
    let cs = line_chars(s);
    let hi = cs.len();
    let a = skip_space_x(&cs, 0, hi);
    let b = trim_end_x(&cs, a, hi);
    if a == b || cs[a] == '#' {
        return None;
    }
    let t1 = find_char(&cs, a, b, '\t');
    if t1 == b {
        return None;
    }
    let t2 = find_char(&cs, t1 + 1, b, '\t');
    let n0 = skip_space_x(&cs, t1 + 1, t2);
    let n1 = trim_end_x(&cs, n0, t2);
    if n0 == n1 {
        return None;
    }
    let name = String::from_str(s.substring_char(n0, n1));
    let desc = if t2 == b {
        String::new()
    } else {
        let d0 = skip_space_x(&cs, t2 + 1, b);
        let d1 = trim_end_x(&cs, d0, b);
        String::from_str(s.substring_char(d0, d1))
    };
    let sl = find_char(&cs, a, t1, '/');
    let gs = match parse_groups(&cs, a, sl) {
        None => {
            return None;
        },
        Some(gs) => gs,
    };
    if gs.len() > 6 {
        return None;
    }
    let deflen: u32 = 8 * (gs.len() as u32);
    let plen: u32 = if sl == t1 {
        deflen
    } else {
        let sl2 = find_char(&cs, sl + 1, t1, '/');
        match parse_dec_capped(&cs, sl + 1, sl2) {
            Some(v) => {
                if v > 48 {
                    return None;
                }
                v
            },
            None => deflen,
        }
    };
    let mut padded = gs;
    while padded.len() < 6
        invariant
            padded@.len() <= 6,
            groups_of(cs@, a as int, sl as int) matches Some(g0) && padded@ == g0 + Seq::new(
                (padded@.len() - g0.len()) as nat,
                |i: int| 0u8,
            ),
        decreases 6 - padded.len(),
    {
        let ghost p0 = padded@;
        padded.push(0);
        proof {
            let g0 = groups_of(cs@, a as int, sl as int)->Some_0;
            assert(padded@ =~= g0 + Seq::new((padded@.len() - g0.len()) as nat, |i: int| 0u8));
        }
    }
    let raw: EtherAddr = [padded[0], padded[1], padded[2], padded[3], padded[4], padded[5]];
    proof {
        let g0 = groups_of(cs@, a as int, sl as int)->Some_0;
        assert(raw@ =~= g0 + Seq::new((6 - g0.len()) as nat, |i: int| 0u8));
        lemma_be48_bound(raw@);
    }
    let vraw = read_be48(&raw);
    let m = mask_for_len(plen);
    let key = vraw & m;
    proof {
        assert(vraw & m <= vraw) by (bit_vector);
    }
    let prefix = value_to_bytes(key);
    Some(((prefix, plen), (name, desc)))
}

/// Parse lines of the vendor-prefix data for
/// `((prefix, prefix_length), (name, description))` records.
///
/// Blank lines, comment lines starting with `#`, and malformed lines are
/// skipped; every other line yields one record whose prefix is zero-padded
/// to 6 bytes and masked to its prefix length.
pub fn parse(lines: &Vec<String>) -> (r: Vec<Record>)
    ensures
        r@.len() == spec_parse(lines@.map_values(|l: String| l@)).len(),
        forall|k: int|
            0 <= k < r@.len() ==> record_model(#[trigger] r@[k]) == spec_parse(
                lines@.map_values(|l: String| l@),
            )[k],
        forall|k: int| 0 <= k < r@.len() ==> (#[trigger] r@[k]).0.1 <= 48,
{
    let ghost full = lines@.map_values(|l: String| l@);
    let n = lines.len();
    let mut out: Vec<Record> = Vec::new();
    let mut i: usize = 0;
    while i < n
        invariant
            i <= n,
            n == lines@.len(),
            full == lines@.map_values(|l: String| l@),
            out@.len() == spec_parse(full.take(i as int)).len(),
            forall|k: int|
                0 <= k < out@.len() ==> record_model(#[trigger] out@[k]) == spec_parse(
                    full.take(i as int),
                )[k],
            forall|k: int| 0 <= k < out@.len() ==> (#[trigger] out@[k]).0.1 <= 48,
        decreases n - i,
    {
        proof {
            assert(full.take(i + 1 as int).drop_last() =~= full.take(i as int));
            assert(full.take(i + 1 as int).last() == full[i as int]);
            assert(full[i as int] == lines@[i as int]@);
        }
        match parse_line(lines[i].as_str()) {
            None => {
                proof {
                    assert(spec_parse(full.take(i + 1 as int)) =~= spec_parse(
                        full.take(i as int),
                    ));
                }
            },
            Some(rec) => {
                out.push(rec);
                proof {
                    assert(spec_parse(full.take(i + 1 as int)) =~= spec_parse(full.take(i as int))
                        + seq![record_model(rec)]);
                }
            },
        }
        i += 1;
    }
    proof {
        assert(full.take(n as int) =~= full);
    }
    out
}

} // verus!
