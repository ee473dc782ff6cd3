//! UTF-16 names, and numbers in decimal and hexadecimal.

use vstd::prelude::*;
use crate::bytes;

verus! {

/// The character that stands for an undecodable code unit.
pub open spec fn replacement() -> char {
    '\u{FFFD}'
}

/// Whether `u` is the first unit of a surrogate pair.
pub open spec fn is_high_surrogate(u: u16) -> bool {
    0xD800 <= u <= 0xDBFF
}

/// Whether `u` is the second unit of a surrogate pair.
pub open spec fn is_low_surrogate(u: u16) -> bool {
    0xDC00 <= u <= 0xDFFF
}

/// The text that UTF-16 code units spell, each unpaired surrogate replaced by
/// U+FFFD.
pub open spec fn utf16_lossy(units: Seq<u16>) -> Seq<char>
    decreases units.len(),
{
    if units.len() == 0 {
        Seq::empty()
    } else if is_high_surrogate(units[0]) && units.len() >= 2 && is_low_surrogate(units[1]) {
        let code = 0x1_0000 + 0x400 * (units[0] - 0xD800) + (units[1] - 0xDC00);
        seq![code as char] + utf16_lossy(units.skip(2))
    } else if is_high_surrogate(units[0]) || is_low_surrogate(units[0]) {
        seq![replacement()] + utf16_lossy(units.skip(1))
    } else {
        seq![units[0] as char] + utf16_lossy(units.skip(1))
    }
}

/// The 16-bit units that little-endian bytes hold; an odd trailing byte forms none.
pub open spec fn utf16_units(bytes: Seq<u8>) -> Seq<u16> {
    Seq::new(bytes.len() / 2, |i: int| bytes::u16_at(bytes, 2 * i))
}

/// The text of UTF-16LE bytes.
pub open spec fn utf16le_text(bytes: Seq<u8>) -> Seq<char> {
    utf16_lossy(utf16_units(bytes))
}

/// Calls `String::from_utf16_lossy`, which decodes UTF-16 and puts U+FFFD in the
/// place of each surrogate that has no partner. Claimed: the characters are those of
/// `utf16_lossy`.
#[verifier::external_body]
fn decode_units(units: &[u16]) -> (r: String)
    ensures
        r@ == utf16_lossy(units@),
{
    String::from_utf16_lossy(units)
}

/// Splits little-endian bytes into 16-bit units, dropping an odd trailing byte.
pub fn utf16le(bytes: &[u8]) -> (r: Vec<u16>)
    ensures
        r@ == utf16_units(bytes@),
{
    let n: usize = bytes.len() / 2;
    let mut units: Vec<u16> = Vec::new();
    let mut i: usize = 0;
    while i < n
        invariant
            i <= n,
            n == bytes.len() / 2,
            units@ == utf16_units(bytes@).subrange(0, i as int),
        decreases n - i,
    {
        units.push(bytes::le_u16(bytes, 2 * i));
        i += 1;
        assert(units@ =~= utf16_units(bytes@).subrange(0, i as int));
    }
    assert(utf16_units(bytes@).subrange(0, n as int) =~= utf16_units(bytes@));
    units
}

/// Decodes UTF-16LE bytes, replacing what cannot be decoded.
pub fn decode_utf16le(bytes: &[u8]) -> (r: String)
    ensures
        r@ == utf16le_text(bytes@),
{
    let units = utf16le(bytes);
    decode_units(units.as_slice())
}

/// The character of a decimal digit.
pub open spec fn digit(d: int) -> char {
    (0x30 + d) as char
}

/// A number in decimal, without leading zeroes.
pub open spec fn decimal(n: nat) -> Seq<char>
    decreases n,
{
    if n < 10 {
        seq![digit(n as int)]
    } else {
        decimal(n / 10).push(digit(n as int % 10))
    }
}

/// The text of one decimal digit.
fn digit_text(d: u64) -> (r: &'static str)
    requires
        d < 10,
    ensures
        r@ == seq![digit(d as int)],
{
    proof {
        reveal_strlit("0");
        reveal_strlit("1");
        reveal_strlit("2");
        reveal_strlit("3");
        reveal_strlit("4");
        reveal_strlit("5");
        reveal_strlit("6");
        reveal_strlit("7");
        reveal_strlit("8");
        reveal_strlit("9");
    }
    let r = match d {
        0 => "0",
        1 => "1",
        2 => "2",
        3 => "3",
        4 => "4",
        5 => "5",
        6 => "6",
        7 => "7",
        8 => "8",
        _ => "9",
    };
    assert(r@ =~= seq![digit(d as int)]);
    r
}

/// Writes a number in decimal.
pub fn decimal_text(n: u64) -> (r: String)
    ensures
        r@ == decimal(n as nat),
    decreases n,
{
    if n < 10 {
        digit_text(n).to_string()
    } else {
        let mut r = decimal_text(n / 10);
        r.append(digit_text(n % 10));
        assert(r@ =~= decimal(n as nat));
        r
    }
}

/// The character of a hexadecimal digit.
pub open spec fn hex_digit(d: int) -> char {
    if d < 10 {
        digit(d)
    } else {
        (0x61 + d - 10) as char
    }
}

/// A byte in hexadecimal: one digit below 16, else two.
pub open spec fn hex_byte(b: u8) -> Seq<char> {
    if b < 16 {
        seq![hex_digit(b as int)]
    } else {
        seq![hex_digit(b as int / 16), hex_digit(b as int % 16)]
    }
}

/// A byte as `0x` and two hexadecimal digits.
pub open spec fn hex_of_u8(b: u8) -> Seq<char> {
    "0x"@ + seq![hex_digit(b as int / 16), hex_digit(b as int % 16)]
}

/// A 16-bit number as `0x` and four hexadecimal digits.
pub open spec fn hex_of_u16(n: u16) -> Seq<char> {
    "0x"@ + seq![
        hex_digit(n as int / 0x1000),
        hex_digit(n as int / 0x100 % 16),
        hex_digit(n as int / 16 % 16),
        hex_digit(n as int % 16),
    ]
}

/// The first `n` bytes of a list in hexadecimal, separated by commas.
pub open spec fn hex_items(list: Seq<u8>, n: int) -> Seq<char>
    decreases n,
{
    if n <= 0 {
        Seq::empty()
    } else if n == 1 {
        hex_byte(list[0])
    } else {
        hex_items(list, n - 1) + ", "@ + hex_byte(list[n - 1])
    }
}

/// A list of bytes in hexadecimal, in square brackets.
pub open spec fn hex_list(list: Seq<u8>) -> Seq<char> {
    "["@ + hex_items(list, list.len() as int) + "]"@
}

/// The text of one hexadecimal digit.
fn hex_digit_text(d: u16) -> (r: &'static str)
    requires
        d < 16,
    ensures
        r@ == seq![hex_digit(d as int)],
{
    proof {
        reveal_strlit("0");
        reveal_strlit("1");
        reveal_strlit("2");
        reveal_strlit("3");
        reveal_strlit("4");
        reveal_strlit("5");
        reveal_strlit("6");
        reveal_strlit("7");
        reveal_strlit("8");
        reveal_strlit("9");
        reveal_strlit("a");
        reveal_strlit("b");
        reveal_strlit("c");
        reveal_strlit("d");
        reveal_strlit("e");
        reveal_strlit("f");
    }
    let r = match d {
        0 => "0",
        1 => "1",
        2 => "2",
        3 => "3",
        4 => "4",
        5 => "5",
        6 => "6",
        7 => "7",
        8 => "8",
        9 => "9",
        10 => "a",
        11 => "b",
        12 => "c",
        13 => "d",
        14 => "e",
        _ => "f",
    };
    assert(r@ =~= seq![hex_digit(d as int)]);
    r
}

/// Writes a byte as `0x` and two hexadecimal digits.
pub fn hex_u8_text(b: u8) -> (r: String)
    ensures
        r@ == hex_of_u8(b),
{
    let mut r = "0x".to_string();
    r.append(hex_digit_text(b as u16 / 16));
    r.append(hex_digit_text(b as u16 % 16));
    assert(r@ =~= hex_of_u8(b));
    r
}

/// Writes a 16-bit number as `0x` and four hexadecimal digits.
pub fn hex_u16_text(n: u16) -> (r: String)
    ensures
        r@ == hex_of_u16(n),
{
    let mut r = "0x".to_string();
    r.append(hex_digit_text(n / 0x1000));
    r.append(hex_digit_text(n / 0x100 % 16));
    r.append(hex_digit_text(n / 16 % 16));
    r.append(hex_digit_text(n % 16));
    assert(r@ =~= hex_of_u16(n));
    r
}

/// Writes a list of bytes in hexadecimal, in square brackets.
pub fn hex_list_text(list: &[u8]) -> (r: String)
    ensures
        r@ == hex_list(list@),
{
    let mut r = "[".to_string();
    let mut i: usize = 0;
    assert(r@ =~= "["@ + hex_items(list@, 0));
    while i < list.len()
        invariant
            i <= list.len(),
            r@ == "["@ + hex_items(list@, i as int),
        decreases list.len() - i,
    {
        let ghost before = r@;
        if i > 0 {
            r.append(", ");
        }
        let b: u16 = list[i] as u16;
        if b >= 16 {
            r.append(hex_digit_text(b / 16));
        }
        r.append(hex_digit_text(b % 16));
        proof {
            let item = hex_byte(list@[i as int]);
            if i == 0 {
                assert(r@ =~= before + item);
                assert("["@ + hex_items(list@, 1) =~= before + item);
            } else {
                assert(r@ =~= before + ", "@ + item);
                assert("["@ + hex_items(list@, i + 1) =~= before + ", "@ + item);
            }
        }
        i += 1;
    }
    r.append("]");
    r
}

/// Whether `units` stand in `s` from `off` on, each as two bytes, the lower first.
pub open spec fn stand_at(s: Seq<u8>, off: int, units: Seq<u16>) -> bool {
    &&& 0 <= off
    &&& off + 2 * units.len() <= s.len()
    &&& forall|i: int|
        0 <= i < units.len() ==> #[trigger] bytes::spells(s, off + 2 * i, 2, units[i] as nat)
}

/// Units that were written somewhere are the ones that are read there.
pub proof fn law_written_units_read_back(s: Seq<u8>, off: int, units: Seq<u16>)
    requires
        stand_at(s, off, units),
    ensures
        utf16_units(s.subrange(off, off + 2 * units.len())) == units,
        utf16le_text(s.subrange(off, off + 2 * units.len())) == utf16_lossy(units),
{
    let part = s.subrange(off, off + 2 * units.len());
    assert forall|i: int| 0 <= i < units.len() implies #[trigger] utf16_units(part)[i]
        == units[i] by {
        bytes::law_numbers_read_back(s, off + 2 * i, units[i] as nat);
        assert(bytes::spells(s, off + 2 * i, 2, units[i] as nat));
        assert(part[2 * i] == s[off + 2 * i]);
        assert(part[2 * i + 1] == s[off + 2 * i + 1]);
    }
    assert(utf16_units(part) =~= units);
}

/// The UTF-16 units of one code point: the code point itself, or a pair of surrogates for
/// one past the sixteen-bit range.
pub open spec fn utf16_of(code: u32) -> Seq<u16> {
    if code < 0x1_0000 {
        seq![code as u16]
    } else {
        seq![
            (0xD800 + (code - 0x1_0000) / 0x400) as u16,
            (0xDC00 + (code - 0x1_0000) % 0x400) as u16,
        ]
    }
}

/// The UTF-16 units of a text, given by its code points.
pub open spec fn utf16_of_text(codes: Seq<u32>) -> Seq<u16>
    decreases codes.len(),
{
    if codes.len() == 0 {
        Seq::empty()
    } else {
        utf16_of(codes[0]) + utf16_of_text(codes.skip(1))
    }
}

/// The characters of code points.
pub open spec fn characters(codes: Seq<u32>) -> Seq<char> {
    Seq::new(codes.len(), |i: int| codes[i] as char)
}

/// Decoding gives every text back that was encoded, characters past the sixteen-bit range
/// among them.
pub proof fn law_decoding_undoes_utf16(codes: Seq<u32>)
    requires
        forall|i: int|
            0 <= i < codes.len() ==> #[trigger] codes[i] < 0xD800 || 0xE000 <= codes[i] <= 0x10_FFFF,
    ensures
        utf16_lossy(utf16_of_text(codes)) == characters(codes),
    decreases codes.len(),
{
    let units = utf16_of_text(codes);
    if codes.len() > 0 {
        let code = codes[0];
        let rest = utf16_of_text(codes.skip(1));
        law_decoding_undoes_utf16(codes.skip(1));
        assert(characters(codes) =~= seq![code as char] + characters(codes.skip(1)));
        if code < 0x1_0000 {
            assert(units[0] == code as u16);
            assert(units.skip(1) =~= rest);
        } else {
            assert(units[0] == utf16_of(code)[0] && units[1] == utf16_of(code)[1]);
            assert(units.skip(2) =~= rest);
            assert(code == 0x1_0000 + 0x400 * (units[0] - 0xD800) + (units[1] - 0xDC00));
        }
        assert(utf16_lossy(units) == seq![code as char] + characters(codes.skip(1)));
    } else {
        assert(characters(codes) =~= Seq::empty());
    }
}

/// A surrogate without its partner becomes U+FFFD, and what follows it is still read.
pub proof fn law_a_lone_surrogate_is_replaced(unit: u16, rest: Seq<u16>)
    requires
        0xD800 <= unit <= 0xDFFF,
        unit <= 0xDBFF ==> rest.len() == 0 || !(0xDC00 <= rest[0] <= 0xDFFF),
    ensures
        utf16_lossy(seq![unit] + rest) == seq!['\u{FFFD}'] + utf16_lossy(rest),
{
    let units = seq![unit] + rest;
    assert(units.skip(1) =~= rest);
}

/// The number that a digit stands for, in any base up to sixteen.
pub open spec fn digit_value(c: char) -> nat {
    if '0' <= c <= '9' {
        (c as u32 - '0' as u32) as nat
    } else if 'a' <= c <= 'f' {
        (c as u32 - 'a' as u32 + 10) as nat
    } else {
        0
    }
}

/// The number that digits in a base stand for, the most significant first.
pub open spec fn digits_value(text: Seq<char>, base: nat) -> nat
    decreases text.len(),
{
    if text.len() == 0 {
        0
    } else {
        digits_value(text.drop_last(), base) * base + digit_value(text.last())
    }
}

/// A decimal number read digit by digit is the number that was written, and it has no
/// needless zero in front.
pub proof fn law_decimals_read_back(n: nat)
    ensures
        digits_value(decimal(n), 10) == n,
        decimal(n).len() > 0,
        n > 0 ==> decimal(n)[0] != '0',
        n == 0 ==> decimal(n) == seq!['0'],
    decreases n,
{
    let text = decimal(n);
    if n < 10 {
        assert(text.drop_last() =~= Seq::empty());
        assert(digits_value(text.drop_last(), 10) == 0);
        assert(digit_value(text.last()) == n);
        assert(digits_value(text, 10) == 0 * 10 + n);
    } else {
        law_decimals_read_back(n / 10);
        assert(text.drop_last() =~= decimal(n / 10));
        assert(text.last() == digit(n as int % 10));
        assert(digit_value(text.last()) == n % 10);
        assert(digits_value(text, 10) == digits_value(text.drop_last(), 10) * 10 + n % 10);
    }
}

proof fn lemma_hex_push(text: Seq<char>, d: int)
    requires
        0 <= d < 16,
    ensures
        digits_value(text.push(hex_digit(d)), 16) == 16 * digits_value(text, 16) + d,
{
    let longer = text.push(hex_digit(d));
    assert(longer.drop_last() =~= text);
    assert(digit_value(hex_digit(d)) == d);
}

proof fn lemma_two_hex_digits(b: int)
    requires
        0 <= b < 0x100,
    ensures
        digits_value(seq![hex_digit(b / 16), hex_digit(b % 16)], 16) == b,
{
    let none: Seq<char> = Seq::empty();
    lemma_hex_push(none, b / 16);
    lemma_hex_push(none.push(hex_digit(b / 16)), b % 16);
    assert(none.push(hex_digit(b / 16)).push(hex_digit(b % 16)) =~= seq![
        hex_digit(b / 16),
        hex_digit(b % 16),
    ]);
}

/// Bytes in hexadecimal, read digit by digit, are the bytes that were written.
pub proof fn law_hexadecimal_bytes_read_back(b: u8)
    ensures
        digits_value(hex_byte(b), 16) == b,
        hex_byte(b).len() == if b < 16 {
            1int
        } else {
            2int
        },
        hex_of_u8(b).len() == 4,
        hex_of_u8(b).take(2) == seq!['0', 'x'],
        digits_value(hex_of_u8(b).skip(2), 16) == b,
{
    reveal_strlit("0x");
    lemma_two_hex_digits(b as int);
    let none: Seq<char> = Seq::empty();
    if b < 16 {
        lemma_hex_push(none, b as int);
        assert(none.push(hex_digit(b as int)) =~= hex_byte(b));
    }
    assert(hex_of_u8(b).take(2) =~= seq!['0', 'x']);
    assert(hex_of_u8(b).skip(2) =~= seq![hex_digit(b as int / 16), hex_digit(b as int % 16)]);
}

/// Sixteen-bit numbers in hexadecimal, read digit by digit, are the numbers that were
/// written.
pub proof fn law_hexadecimal_words_read_back(n: u16)
    ensures
        hex_of_u16(n).len() == 6,
        hex_of_u16(n).take(2) == seq!['0', 'x'],
        digits_value(hex_of_u16(n).skip(2), 16) == n,
{
    reveal_strlit("0x");
    let none: Seq<char> = Seq::empty();
    let a = n as int / 0x1000;
    let b = n as int / 0x100 % 16;
    let c = n as int / 16 % 16;
    let d = n as int % 16;
    let one = none.push(hex_digit(a));
    let two = one.push(hex_digit(b));
    let three = two.push(hex_digit(c));
    let four = three.push(hex_digit(d));
    lemma_hex_push(none, a);
    lemma_hex_push(one, b);
    lemma_hex_push(two, c);
    lemma_hex_push(three, d);
    assert(hex_of_u16(n).take(2) =~= seq!['0', 'x']);
    assert(hex_of_u16(n).skip(2) =~= four);
}

} // verus!
