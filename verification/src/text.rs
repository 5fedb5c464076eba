//! Character-level text building: hexadecimal and decimal renderings of numbers.
use vstd::prelude::*;
use vstd::string::StringExecFns;

verus! {

/// Appends one character to a `String`.
///
/// Trusted: `String::push` from std; the contract claims only what its documentation says,
/// that the character is added at the end of the string.
#[verifier::external_body]
pub(crate) fn push_char(s: &mut String, c: char)
    ensures
        final(s)@ == old(s)@.push(c),
{
    s.push(c);
}

/// Appends a string slice to a `String`.
pub(crate) fn push_str(s: &mut String, t: &str)
    ensures
        final(s)@ == old(s)@ + t@,
{
    s.append(t);
}

/// The upper-case hexadecimal digit for a value below 16.
pub open spec fn hex_digit(n: nat) -> char {
    if n < 10 {
        seq!['0', '1', '2', '3', '4', '5', '6', '7', '8', '9'][n as int]
    } else {
        seq!['A', 'B', 'C', 'D', 'E', 'F'][n - 10]
    }
}

/// The decimal digit for a value below 10.
pub open spec fn dec_digit(n: nat) -> char {
    seq!['0', '1', '2', '3', '4', '5', '6', '7', '8', '9'][n as int]
}

/// The lowest `width` hexadecimal digits of `v`, most significant first.
pub open spec fn hex_fixed(v: nat, width: nat) -> Seq<char>
    decreases width,
{
    if width == 0 {
        Seq::empty()
    } else {
        hex_fixed(v / 16, (width - 1) as nat).push(hex_digit(v % 16))
    }
}

/// The number of hexadecimal digits needed to write `v` (at least one).
pub open spec fn hex_len(v: nat) -> nat
    decreases v,
{
    if v < 16 {
        1
    } else {
        1 + hex_len(v / 16)
    }
}

/// `v` in upper-case hexadecimal, padded with zeros to at least `width` digits.
pub open spec fn hex_min(v: nat, width: nat) -> Seq<char> {
    if hex_len(v) <= width {
        hex_fixed(v, width)
    } else {
        hex_fixed(v, hex_len(v))
    }
}

/// `v` in decimal, with no leading zeros.
pub open spec fn dec(v: nat) -> Seq<char>
    decreases v,
{
    if v < 10 {
        seq![dec_digit(v)]
    } else {
        dec(v / 10).push(dec_digit(v % 10))
    }
}

/// A byte read as a two's complement signed value, in decimal.
pub open spec fn dec_signed8(b: u8) -> Seq<char> {
    if b < 128 {
        dec(b as nat)
    } else {
        seq!['-'] + dec((256 - b) as nat)
    }
}

fn hex_digit_char(n: u64) -> (c: char)
    requires
        n < 16,
    ensures
        c == hex_digit(n as nat),
{
    match n {
        0 => '0',
        1 => '1',
        2 => '2',
        3 => '3',
        4 => '4',
        5 => '5',
        6 => '6',
        7 => '7',
        8 => '8',
        9 => '9',
        10 => 'A',
        11 => 'B',
        12 => 'C',
        13 => 'D',
        14 => 'E',
        _ => 'F',
    }
}

fn dec_digit_char(n: u64) -> (c: char)
    requires
        n < 10,
    ensures
        c == dec_digit(n as nat),
{
    match n {
        0 => '0',
        1 => '1',
        2 => '2',
        3 => '3',
        4 => '4',
        5 => '5',
        6 => '6',
        7 => '7',
        8 => '8',
        _ => '9',
    }
}

/// Appends the lowest `width` hexadecimal digits of `v`.
pub fn push_hex_fixed(s: &mut String, v: u64, width: u32)
    ensures
        final(s)@ == old(s)@ + hex_fixed(v as nat, width as nat),
    decreases width,
{
    if width > 0 {
        push_hex_fixed(s, v / 16, width - 1);
        push_char(s, hex_digit_char(v % 16));
    } else {
        assert(old(s)@ + hex_fixed(v as nat, 0) == old(s)@);
    }
    proof {
        if width > 0 {
            let h = hex_fixed((v / 16) as nat, (width - 1) as nat);
            assert(old(s)@ + h.push(hex_digit((v % 16) as nat)) == (old(s)@ + h).push(
                hex_digit((v % 16) as nat),
            ));
        }
    }
}

spec fn pow16(k: nat) -> nat
    decreases k,
{
    if k == 0 {
        1
    } else {
        16 * pow16((k - 1) as nat)
    }
}

proof fn lemma_hex_len_bound(v: nat, k: nat)
    requires
        v < pow16(k),
        k >= 1,
    ensures
        hex_len(v) <= k,
    decreases k,
{
    if v >= 16 {
        if k == 1 {
            assert(pow16(1) == 16 * pow16(0));
        } else {
            lemma_hex_len_bound(v / 16, (k - 1) as nat);
        }
    }
}

/// Appends `v` in hexadecimal, zero-padded to at least `width` digits.
pub fn push_hex_min(s: &mut String, v: u64, width: u32)
    ensures
        final(s)@ == old(s)@ + hex_min(v as nat, width as nat),
{
    let mut n: u32 = 1;
    let mut rest: u64 = v;
    proof {
        reveal_with_fuel(pow16, 17);
        assert(pow16(16) == 0x1_0000_0000_0000_0000);
        lemma_hex_len_bound(v as nat, 16);
    }
    while rest >= 16
        invariant
            1 <= n <= 16,
            n + hex_len(rest as nat) == 1 + hex_len(v as nat),
            hex_len(v as nat) <= 16,
        decreases rest,
    {
        assert(hex_len(rest as nat) == 1 + hex_len((rest / 16) as nat));
        assert(hex_len((rest / 16) as nat) >= 1);
        rest = rest / 16;
        n = n + 1;
    }
    if n <= width {
        push_hex_fixed(s, v, width);
    } else {
        push_hex_fixed(s, v, n);
    }
}

/// Appends `v` in decimal.
pub fn push_dec(s: &mut String, v: u64)
    ensures
        final(s)@ == old(s)@ + dec(v as nat),
    decreases v,
{
    if v < 10 {
        push_char(s, dec_digit_char(v));
        assert(old(s)@.push(dec_digit(v as nat)) == old(s)@ + seq![dec_digit(v as nat)]);
    } else {
        push_dec(s, v / 10);
        push_char(s, dec_digit_char(v % 10));
        let ghost d = dec((v / 10) as nat);
        assert(old(s)@ + d.push(dec_digit((v % 10) as nat)) == (old(s)@ + d).push(
            dec_digit((v % 10) as nat),
        ));
    }
}

/// Appends a byte read as a signed value, in decimal.
pub fn push_dec_signed8(s: &mut String, b: u8)
    ensures
        final(s)@ == old(s)@ + dec_signed8(b),
{
    if b < 128 {
        push_dec(s, b as u64);
    } else {
        push_char(s, '-');
        push_dec(s, (256 - b as u64) as u64);
        let ghost d = dec((256 - b) as nat);
        assert(old(s)@.push('-') + d == old(s)@ + (seq!['-'] + d));
    }
}

} // verus!
