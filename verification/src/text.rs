//! Text helpers: UTF-16BE decoding, ASCII case folding, decimal digits.

use vstd::prelude::*;

verus! {

/// Replacement character that stands for an unpaired surrogate.
pub open spec fn replacement_char() -> char {
    '\u{FFFD}'
}

pub open spec fn is_high_surrogate(u: int) -> bool {
    0xD800 <= u <= 0xDBFF
}

pub open spec fn is_low_surrogate(u: int) -> bool {
    0xDC00 <= u <= 0xDFFF
}

/// The code point of a surrogate pair.
pub open spec fn pair_code_point(hi: int, lo: int) -> int {
    0x10000 + (hi - 0xD800) * 0x400 + (lo - 0xDC00)
}

/// UTF-16 decoding with every unpaired surrogate replaced by U+FFFD: a high
/// surrogate followed by a low one forms a pair; any other surrogate is
/// unpaired, and the unit after an unpaired high surrogate is decoded on
/// its own.
pub open spec fn decode_utf16(units: Seq<u16>) -> Seq<char>
    decreases units.len(),
{
    if units.len() == 0 {
        Seq::empty()
    } else {
        let u = units[0] as int;
        if !is_high_surrogate(u) && !is_low_surrogate(u) {
            seq![u as char] + decode_utf16(units.drop_first())
        } else if is_high_surrogate(u) && units.len() >= 2 && is_low_surrogate(units[1] as int) {
            seq![pair_code_point(u, units[1] as int) as char] + decode_utf16(
                units.subrange(2, units.len() as int),
            )
        } else {
            seq![replacement_char()] + decode_utf16(units.drop_first())
        }
    }
}

/// The big-endian 16-bit code units of a byte sequence of even length.
pub open spec fn be_units(bytes: Seq<u8>) -> Seq<u16> {
    Seq::new((bytes.len() / 2) as nat, |i: int| (bytes[2 * i] * 256 + bytes[2 * i + 1]) as u16)
}

/// `char::from_u32`: the character with scalar value `v`, if `v` is one.
#[verifier::external_body]
fn char_from_u32(v: u32) -> (r: Option<char>)
    ensures
        (v < 0xD800 || (0xE000 <= v <= 0x10FFFF)) ==> r == Some(v as char),
        !(v < 0xD800 || (0xE000 <= v <= 0x10FFFF)) ==> r is None,
{
    char::from_u32(v)
}

/// `String::push`: appends one character.
#[verifier::external_body]
pub(crate) fn push_char(s: &mut String, c: char)
    ensures
        final(s)@ == old(s)@.push(c),
{
    s.push(c)
}

/// The character for a scalar value known to be valid.
fn scalar(v: u32) -> (c: char)
    requires
        v < 0xD800 || (0xE000 <= v <= 0x10FFFF),
    ensures
        c == v as char,
{
    match char_from_u32(v) {
        Some(c) => c,
        None => '\u{FFFD}',
    }
}

/// Decode big-endian UTF-16 code units.
pub fn decode_utf16_be(bytes: &[u8]) -> (s: String)
    requires
        bytes@.len() % 2 == 0,
    ensures
        s@ == decode_utf16(be_units(bytes@)),
{
    let ghost units = be_units(bytes@);
    let n = bytes.len() / 2;
    let mut out = String::new();
    let mut i: usize = 0;
    assert(units.subrange(0, units.len() as int) == units);
    while i < n
        invariant
            n == units.len(),
            i <= n,
            units == be_units(bytes@),
            bytes@.len() == 2 * n,
            bytes@.len() <= usize::MAX,
            out@ + decode_utf16(units.subrange(i as int, n as int)) == decode_utf16(units),
        decreases n - i,
    {
        let ghost rest = units.subrange(i as int, n as int);
        let u: u32 = bytes[2 * i] as u32 * 256 + bytes[2 * i + 1] as u32;
        assert(rest[0] == units[i as int]);
        assert(u == units[i as int]);
        if u < 0xD800 || u > 0xDFFF {
            push_char(&mut out, scalar(u));
            assert(rest.drop_first() == units.subrange(i + 1, n as int));
            i = i + 1;
        } else if u <= 0xDBFF && i + 1 < n {
            let lo: u32 = bytes[2 * i + 2] as u32 * 256 + bytes[2 * i + 3] as u32;
            assert(lo == units[i + 1]);
            assert(rest[1] == units[i + 1]);
            if 0xDC00 <= lo && lo <= 0xDFFF {
                let c = 0x10000 + (u - 0xD800) * 0x400 + (lo - 0xDC00);
                push_char(&mut out, scalar(c));
                assert(rest.subrange(2, rest.len() as int) == units.subrange(i + 2, n as int));
                i = i + 2;
            } else {
                push_char(&mut out, '\u{FFFD}');
                assert(rest.drop_first() == units.subrange(i + 1, n as int));
                i = i + 1;
            }
        } else {
            push_char(&mut out, '\u{FFFD}');
            assert(rest.drop_first() == units.subrange(i + 1, n as int));
            i = i + 1;
        }
    }
    assert(units.subrange(n as int, n as int) == Seq::<u16>::empty());
    out
}

} // verus!

verus! {

/// The characters of a string slice.
pub fn chars_of(s: &str) -> (v: Vec<char>)
    ensures
        v@ == s@,
{
    let n = s.unicode_len();
    let mut v: Vec<char> = Vec::new();
    let mut i: usize = 0;
    while i < n
        invariant
            n == s@.len(),
            i <= n,
            v@ == s@.subrange(0, i as int),
        decreases n - i,
    {
        v.push(s.get_char(i));
        assert(s@.subrange(0, i + 1) =~= s@.subrange(0, i as int).push(s@[i as int]));
        i = i + 1;
    }
    assert(s@.subrange(0, n as int) =~= s@);
    v
}

/// ASCII lowercase of one character; other characters are unchanged.
pub open spec fn ascii_lower(c: char) -> char {
    if 'A' <= c <= 'Z' {
        ((c as u32) + 32) as char
    } else {
        c
    }
}

/// ASCII lowercase of a character sequence.
pub open spec fn ascii_lower_seq(s: Seq<char>) -> Seq<char> {
    s.map_values(|c: char| ascii_lower(c))
}

/// Equality up to ASCII case, as `str::eq_ignore_ascii_case` defines it.
pub open spec fn eq_ignore_ascii_case(a: Seq<char>, b: Seq<char>) -> bool {
    ascii_lower_seq(a) == ascii_lower_seq(b)
}

pub fn to_ascii_lower(c: char) -> (r: char)
    ensures
        r == ascii_lower(c),
{
    if 'A' <= c && c <= 'Z' {
        scalar(c as u32 + 32)
    } else {
        c
    }
}

/// Compare two character sequences ignoring ASCII case.
pub fn chars_eq_ignore_ascii_case(a: &[char], b: &[char]) -> (r: bool)
    ensures
        r == eq_ignore_ascii_case(a@, b@),
{
    if a.len() != b.len() {
        assert(ascii_lower_seq(a@).len() != ascii_lower_seq(b@).len());
        return false;
    }
    let mut i: usize = 0;
    while i < a.len()
        invariant
            a@.len() == b@.len(),
            i <= a@.len(),
            forall|j: int| 0 <= j < i ==> ascii_lower(#[trigger] a@[j]) == ascii_lower(b@[j]),
        decreases a@.len() - i,
    {
        if to_ascii_lower(a[i]) != to_ascii_lower(b[i]) {
            assert(ascii_lower_seq(a@)[i as int] != ascii_lower_seq(b@)[i as int]);
            return false;
        }
        i = i + 1;
    }
    assert(ascii_lower_seq(a@) =~= ascii_lower_seq(b@));
    true
}

/// Lowercase ASCII letters of a character sequence.
pub fn chars_to_ascii_lower(a: &[char]) -> (r: Vec<char>)
    ensures
        r@ == ascii_lower_seq(a@),
{
    let mut r: Vec<char> = Vec::new();
    let mut i: usize = 0;
    while i < a.len()
        invariant
            i <= a@.len(),
            r@ == ascii_lower_seq(a@.subrange(0, i as int)),
        decreases a@.len() - i,
    {
        r.push(to_ascii_lower(a[i]));
        assert(ascii_lower_seq(a@.subrange(0, i + 1)) =~= ascii_lower_seq(
            a@.subrange(0, i as int),
        ).push(ascii_lower(a@[i as int])));
        i = i + 1;
    }
    assert(a@.subrange(0, a@.len() as int) =~= a@);
    r
}

/// The decimal digit character for `d < 10`.
pub open spec fn digit_char(d: int) -> char {
    (48 + d) as char
}

/// Decimal representation of a natural number, most significant digit first.
pub open spec fn decimal(n: nat) -> Seq<char>
    decreases n,
{
    if n < 10 {
        seq![digit_char(n as int)]
    } else {
        decimal(n / 10) + seq![digit_char((n % 10) as int)]
    }
}

/// Append the decimal representation of `n`.
pub fn push_decimal(s: &mut String, n: u64)
    ensures
        final(s)@ == old(s)@ + decimal(n as nat),
    decreases n,
{
    if n >= 10 {
        push_decimal(s, n / 10);
    }
    let d = (n % 10) as u8;
    push_char(s, (48u8 + d) as char);
    proof {
        if n < 10 {
            assert(decimal(n as nat) == seq![digit_char(n as int)]);
        }
    }
    assert(final(s)@ =~= old(s)@ + decimal(n as nat));
}

} // verus!

verus! {

/// The Unicode lowercase mapping of a string, as `str::to_lowercase`
/// computes it.
pub uninterp spec fn lowercase(s: Seq<char>) -> Seq<char>;

/// `str::to_lowercase`: the Unicode lowercase of `s`.
#[verifier::external_body]
pub(crate) fn to_lowercase(s: &str) -> (r: String)
    ensures
        r@ == lowercase(s@),
{
    s.to_lowercase()
}

/// Whether `needle` occurs in `hay` as a contiguous run.
pub open spec fn contains_run(hay: Seq<char>, needle: Seq<char>) -> bool {
    exists|i: int|
        0 <= i && i + needle.len() <= hay.len() && #[trigger] hay.subrange(i, i + needle.len())
            == needle
}

/// Whether `hay` and `needle` agree on the run starting at `i`.
fn run_at(hay: &[char], needle: &[char], i: usize) -> (b: bool)
    requires
        i + needle@.len() <= hay@.len(),
    ensures
        b == (hay@.subrange(i as int, i + needle@.len()) == needle@),
{
    assert(hay@.len() == hay.len());
    let mut k: usize = 0;
    while k < needle.len()
        invariant
            hay@.len() <= usize::MAX,
            i + needle@.len() <= hay@.len(),
            k <= needle@.len(),
            forall|j: int| 0 <= j < k ==> hay@[i + j] == needle@[j],
        decreases needle@.len() - k,
    {
        if hay[i + k] != needle[k] {
            assert(hay@.subrange(i as int, i + needle@.len())[k as int] != needle@[k as int]);
            return false;
        }
        k = k + 1;
    }
    assert(hay@.subrange(i as int, i + needle@.len()) =~= needle@);
    true
}

/// `str::contains` over characters: whether `needle` occurs in `hay`.
pub fn chars_contain(hay: &[char], needle: &[char]) -> (b: bool)
    ensures
        b == contains_run(hay@, needle@),
{
    if needle.len() > hay.len() {
        return false;
    }
    let last = hay.len() - needle.len();
    let mut i: usize = 0;
    loop
        invariant
            last == hay@.len() - needle@.len(),
            i <= last,
            forall|j: int| 0 <= j < i ==> #[trigger] hay@.subrange(j, j + needle@.len()) != needle@,
        decreases last - i,
    {
        if run_at(hay, needle, i) {
            return true;
        }
        if i == last {
            return false;
        }
        i = i + 1;
    }
}

} // verus!

verus! {

/// UTF-16 code units of one character.
pub open spec fn utf16_units(c: char) -> Seq<u16> {
    let v = (c as u32) as int;
    if v < 0x10000 {
        seq![v as u16]
    } else {
        seq![(0xD800 + (v - 0x10000) / 0x400) as u16, (0xDC00 + (v - 0x10000) % 0x400) as u16]
    }
}

/// Big-endian bytes of one code unit.
pub open spec fn unit_bytes(u: u16) -> Seq<u8> {
    seq![(u / 0x100) as u8, (u % 0x100) as u8]
}

/// UTF-16BE bytes of one character.
pub open spec fn char_utf16be(c: char) -> Seq<u8> {
    let us = utf16_units(c);
    if us.len() == 1 {
        unit_bytes(us[0])
    } else {
        unit_bytes(us[0]) + unit_bytes(us[1])
    }
}

/// UTF-16BE bytes of a string, as `encode_utf16` and `to_be_bytes` give them.
pub open spec fn utf16be_bytes(s: Seq<char>) -> Seq<u8>
    decreases s.len(),
{
    if s.len() == 0 {
        Seq::empty()
    } else {
        utf16be_bytes(s.drop_last()) + char_utf16be(s.last())
    }
}

fn push_unit(out: &mut Vec<u8>, u: u32)
    requires
        u < 0x10000,
    ensures
        final(out)@ == old(out)@ + unit_bytes(u as u16),
{
    out.push((u / 0x100) as u8);
    out.push((u % 0x100) as u8);
    assert(final(out)@ =~= old(out)@ + unit_bytes(u as u16));
}

/// Encode a string as UTF-16BE bytes.
pub fn encode_utf16be(s: &str) -> (b: Vec<u8>)
    ensures
        b@ == utf16be_bytes(s@),
{
    let cs = chars_of(s);
    let mut out: Vec<u8> = Vec::new();
    let mut i: usize = 0;
    while i < cs.len()
        invariant
            cs@ == s@,
            i <= cs@.len(),
            out@ == utf16be_bytes(cs@.subrange(0, i as int)),
        decreases cs@.len() - i,
    {
        let c = cs[i];
        let v = c as u32;
        proof {
            vstd::utf8::char_is_scalar(c);
        }
        if v < 0x10000 {
            push_unit(&mut out, v);
        } else {
            assert(v <= 0x10FFFF);
            push_unit(&mut out, 0xD800 + (v - 0x10000) / 0x400);
            push_unit(&mut out, 0xDC00 + (v - 0x10000) % 0x400);
        }
        proof {
            let t = cs@.subrange(0, i + 1);
            assert(t.drop_last() =~= cs@.subrange(0, i as int));
            assert(t.last() == c);
            assert(out@ =~= utf16be_bytes(cs@.subrange(0, i as int)) + char_utf16be(c));
        }
        i = i + 1;
    }
    assert(cs@.subrange(0, cs@.len() as int) =~= cs@);
    out
}

} // verus!

verus! {

/// The uppercase hexadecimal digit character for `d < 16`.
pub open spec fn hex_char(d: int) -> char {
    if d < 10 {
        (48 + d) as char
    } else {
        (55 + d) as char
    }
}

/// Uppercase hexadecimal digits of a natural number, most significant first.
pub open spec fn hex_digits(n: nat) -> Seq<char>
    decreases n,
{
    if n < 16 {
        seq![hex_char(n as int)]
    } else {
        hex_digits(n / 16) + seq![hex_char((n % 16) as int)]
    }
}

/// `{:#X}`: `0x` and the uppercase hexadecimal digits.
pub open spec fn hex_text(n: nat) -> Seq<char> {
    "0x"@ + hex_digits(n)
}

fn push_hex_digits(s: &mut String, n: u64)
    ensures
        final(s)@ == old(s)@ + hex_digits(n as nat),
    decreases n,
{
    if n >= 16 {
        push_hex_digits(s, n / 16);
    }
    let d = (n % 16) as u8;
    let c = if d < 10 {
        (48u8 + d) as char
    } else {
        (55u8 + d) as char
    };
    push_char(s, c);
    assert(final(s)@ =~= old(s)@ + hex_digits(n as nat));
}

/// Append `n` as `0x` and uppercase hexadecimal digits.
pub fn push_hex(s: &mut String, n: u64)
    ensures
        final(s)@ == old(s)@ + hex_text(n as nat),
{
    s.append("0x");
    push_hex_digits(s, n);
    assert(final(s)@ =~= old(s)@ + hex_text(n as nat));
}

/// Decimal representation of an integer, with a leading `-` when negative.
pub open spec fn signed_decimal(v: int) -> Seq<char> {
    if v < 0 {
        "-"@ + decimal((-v) as nat)
    } else {
        decimal(v as nat)
    }
}

/// Append the decimal representation of `v`.
pub fn push_signed(s: &mut String, v: i64)
    ensures
        final(s)@ == old(s)@ + signed_decimal(v as int),
{
    if v < 0 {
        s.append("-");
        let magnitude: u64 = (-(v + 1)) as u64 + 1;
        push_decimal(s, magnitude);
        assert(final(s)@ =~= old(s)@ + signed_decimal(v as int));
    } else {
        push_decimal(s, v as u64);
    }
}

} // verus!
