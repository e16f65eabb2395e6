//! Character-level rendering of numbers and bytes: upper-case hexadecimal,
//! decimal, padding to a width, and the printable-ASCII view of a byte.

use vstd::prelude::*;

verus! {

/// The upper-case hexadecimal digit for `d` in `0..16`.
pub open spec fn hex_digit(d: int) -> char {
    if d < 10 {
        (48 + d) as char
    } else {
        (55 + d) as char
    }
}

/// The decimal digit for `d` in `0..10`.
pub open spec fn dec_digit(d: int) -> char {
    (48 + d) as char
}

/// Upper-case hexadecimal digits of `v`, without leading zeros (`"0"` for 0).
pub open spec fn hex_upper(v: nat) -> Seq<char>
    decreases v,
{
    if v < 16 {
        seq![hex_digit(v as int)]
    } else {
        hex_upper(v / 16) + seq![hex_digit((v % 16) as int)]
    }
}

/// Decimal digits of `v`, without leading zeros (`"0"` for 0).
pub open spec fn decimal(v: nat) -> Seq<char>
    decreases v,
{
    if v < 10 {
        seq![dec_digit(v as int)]
    } else {
        decimal(v / 10) + seq![dec_digit((v % 10) as int)]
    }
}

/// `n` copies of `c`.
pub open spec fn repeat(c: char, n: int) -> Seq<char> {
    Seq::new(if n > 0 { n as nat } else { 0 }, |_i: int| c)
}

/// `s` preceded by zeros up to width `w` (as `{:0w}` does).
pub open spec fn zero_pad(s: Seq<char>, w: int) -> Seq<char> {
    repeat('0', w - s.len()) + s
}

/// `s` followed by spaces up to width `w` (as `{:<w}` does).
pub open spec fn pad_right(s: Seq<char>, w: int) -> Seq<char> {
    s + repeat(' ', w - s.len())
}

/// `s` preceded by spaces up to width `w` (as `{:>w}` does).
pub open spec fn pad_left(s: Seq<char>, w: int) -> Seq<char> {
    repeat(' ', w - s.len()) + s
}

/// A byte as two upper-case hex digits (as `{:02X}` does).
pub open spec fn hex_byte(b: u8) -> Seq<char> {
    zero_pad(hex_upper(b as nat), 2)
}

/// The character shown for a byte in an ASCII column: itself when it is
/// printable ASCII, a dot otherwise.
pub open spec fn spec_ascii_or_dot(b: u8) -> char {
    if 0x20 <= b < 0x7F {
        b as char
    } else {
        '.'
    }
}

/// The ASCII column of a byte range.
pub open spec fn ascii_column(bytes: Seq<u8>) -> Seq<char> {
    bytes.map_values(|b: u8| spec_ascii_or_dot(b))
}

/// The character shown for a byte in an ASCII column.
pub fn ascii_or_dot(b: u8) -> (c: char)
    ensures
        c == spec_ascii_or_dot(b),
{
    if 0x20 <= b && b < 0x7F {
        b as char
    } else {
        '.'
    }
}

fn hex_digit_char(d: u64) -> (c: char)
    requires
        d < 16,
    ensures
        c == hex_digit(d as int),
{
    if d < 10 {
        ((48 + d) as u8) as char
    } else {
        ((55 + d) as u8) as char
    }
}

pub proof fn lemma_hex_upper_len(v: nat)
    ensures
        1 <= hex_upper(v).len(),
        v < 0x100 ==> hex_upper(v).len() <= 2,
    decreases v,
{
    if v >= 16 {
        lemma_hex_upper_len(v / 16);
        if v < 0x100 {
            assert(v / 16 < 16);
        }
    }
}

/// Appends the hexadecimal digits of `v` to `out`.
fn push_hex_digits(out: &mut Vec<char>, v: u64)
    ensures
        final(out)@ == old(out)@ + hex_upper(v as nat),
    decreases v,
{
    if v >= 16 {
        push_hex_digits(out, v / 16);
    }
    let c = hex_digit_char(v % 16);
    out.push(c);
}

/// Appends the decimal digits of `v` to `out`.
fn push_dec_digits(out: &mut Vec<char>, v: u64)
    ensures
        final(out)@ == old(out)@ + decimal(v as nat),
    decreases v,
{
    if v >= 10 {
        push_dec_digits(out, v / 10);
    }
    let d = v % 10;
    let c = ((48 + d) as u8) as char;
    out.push(c);
}

/// Appends `n` copies of `c` to `out`.
pub fn push_repeat(out: &mut Vec<char>, c: char, n: usize)
    ensures
        final(out)@ == old(out)@ + repeat(c, n as int),
{
    let ghost start = out@;
    let mut i: usize = 0;
    while i < n
        invariant
            i <= n,
            out@ == start + repeat(c, i as int),
        decreases n - i,
    {
        out.push(c);
        i = i + 1;
        assert(out@ =~= start + repeat(c, i as int));
    }
}

/// Appends the characters of `s` to `out`.
pub fn push_chars(out: &mut Vec<char>, s: &[char])
    ensures
        final(out)@ == old(out)@ + s@,
{
    let ghost start = out@;
    let mut i: usize = 0;
    while i < s.len()
        invariant
            i <= s@.len(),
            out@ == start + s@.subrange(0, i as int),
        decreases s@.len() - i,
    {
        out.push(s[i]);
        i = i + 1;
        assert(out@ =~= start + s@.subrange(0, i as int));
    }
    assert(s@.subrange(0, s@.len() as int) =~= s@);
}

/// Appends the characters of a string slice to `out`.
pub fn push_str(out: &mut Vec<char>, s: &str)
    ensures
        final(out)@ == old(out)@ + s@,
{
    let ghost start = out@;
    let n = s.unicode_len();
    let mut i: usize = 0;
    while i < n
        invariant
            i <= n,
            n == s@.len(),
            out@ == start + s@.subrange(0, i as int),
        decreases n - i,
    {
        let c = s.get_char(i);
        out.push(c);
        i = i + 1;
        assert(out@ =~= start + s@.subrange(0, i as int));
    }
    assert(s@.subrange(0, n as int) =~= s@);
}

/// Appends `v` in upper-case hexadecimal, zero-padded to `width` digits.
pub fn push_hex(out: &mut Vec<char>, v: u64, width: usize)
    ensures
        final(out)@ == old(out)@ + zero_pad(hex_upper(v as nat), width as int),
{
    let mut digits: Vec<char> = Vec::new();
    push_hex_digits(&mut digits, v);
    assert(digits@ =~= hex_upper(v as nat));
    proof {
        lemma_hex_upper_len(v as nat);
    }
    if digits.len() < width {
        push_repeat(out, '0', width - digits.len());
    } else {
        push_repeat(out, '0', 0);
    }
    push_chars(out, &digits);
    assert(final(out)@ =~= old(out)@ + zero_pad(hex_upper(v as nat), width as int)) by {
        assert(repeat('0', width - digits@.len()) =~= if digits.len() < width {
            repeat('0', (width - digits.len()) as int)
        } else {
            repeat('0', 0)
        });
    }
}

/// Appends `v` in decimal, right-aligned in `width` characters.
pub fn push_dec_right(out: &mut Vec<char>, v: u64, width: usize)
    ensures
        final(out)@ == old(out)@ + pad_left(decimal(v as nat), width as int),
{
    let mut digits: Vec<char> = Vec::new();
    push_dec_digits(&mut digits, v);
    assert(digits@ =~= decimal(v as nat));
    if digits.len() < width {
        push_repeat(out, ' ', width - digits.len());
    } else {
        push_repeat(out, ' ', 0);
    }
    push_chars(out, &digits);
    assert(final(out)@ =~= old(out)@ + pad_left(decimal(v as nat), width as int)) by {
        assert(repeat(' ', width - digits@.len()) =~= if digits.len() < width {
            repeat(' ', (width - digits.len()) as int)
        } else {
            repeat(' ', 0)
        });
    }
}

/// Appends `s` left-aligned in `width` characters.
pub fn push_padded_right(out: &mut Vec<char>, s: &[char], width: usize)
    ensures
        final(out)@ == old(out)@ + pad_right(s@, width as int),
{
    push_chars(out, s);
    if s.len() < width {
        push_repeat(out, ' ', width - s.len());
    } else {
        push_repeat(out, ' ', 0);
    }
    assert(final(out)@ =~= old(out)@ + pad_right(s@, width as int)) by {
        assert(repeat(' ', width - s@.len()) =~= if s.len() < width {
            repeat(' ', (width - s.len()) as int)
        } else {
            repeat(' ', 0)
        });
    }
}

/// Builds a `String` holding exactly the given characters.
///
/// Trusted: collects through `String`'s `FromIterator<&char>`; the contract
/// claims that the string's characters are those given, in order.
#[verifier::external_body]
pub(crate) fn string_from_chars(cs: &[char]) -> (s: String)
    ensures
        s@ == cs@,
{
    cs.iter().collect()
}

} // verus!
