//! The identifier codec: validation and conversion between the canonical
//! 26-character base-32 form, the 16-byte binary form and the 32-digit
//! hexadecimal form of a 128-bit sortable identifier.

use crate::digits::{
    all_below, be_digits, be_val, lemma_be_digits_index, lemma_be_digits_props,
    lemma_be_digits_val, lemma_lex_lt_iff_val_lt, lemma_pow_of_increases, lemma_pow_of_pos,
    lex_lt, pow_of,
};
use vstd::arithmetic::div_mod::{lemma_div_denominator, lemma_multiply_divide_lt, lemma_small_mod};
use vstd::prelude::*;
use vstd::string::{StrSliceExecFns, is_ascii_spec_bytes};
use vstd::utf8::is_ascii_chars;

verus! {

/// Relies on `String::push`: it appends the given character to the end of
/// the string.
pub assume_specification[ String::push ](s: &mut String, c: char)
    ensures
        final(s)@ == old(s)@.push(c),
;

/// A 128-bit identifier, stored as its numeric value.
#[derive(Clone, Copy, Debug, PartialEq, Eq, Structural)]
pub struct Identifier {
    pub bits: u128,
}

/// What went wrong while handling an identifier.
#[derive(Clone, Copy, Debug, PartialEq, Eq, Structural)]
pub enum UlidError {
    /// The canonical text form was rejected.
    MalformedIdentifier,
    /// The hexadecimal form was rejected.
    MalformedHex,
    /// The system clipboard could not be driven.
    ClipboardUnavailable,
}

/// The representation a free-form input is taken for.
#[derive(Clone, Copy, Debug, PartialEq, Eq, Structural)]
pub enum InputForm {
    CanonicalForm,
    HexForm,
}

/// The digit denoted by `c` in the canonical base-32 alphabet
/// (`0-9`, then the letters except `I`, `L`, `O`, `U`; either case),
/// or 32 when `c` is not in the alphabet.
pub open spec fn crock_val(c: char) -> nat {
    if c == '0' {
        0
    } else if c == '1' {
        1
    } else if c == '2' {
        2
    } else if c == '3' {
        3
    } else if c == '4' {
        4
    } else if c == '5' {
        5
    } else if c == '6' {
        6
    } else if c == '7' {
        7
    } else if c == '8' {
        8
    } else if c == '9' {
        9
    } else if c == 'A' || c == 'a' {
        10
    } else if c == 'B' || c == 'b' {
        11
    } else if c == 'C' || c == 'c' {
        12
    } else if c == 'D' || c == 'd' {
        13
    } else if c == 'E' || c == 'e' {
        14
    } else if c == 'F' || c == 'f' {
        15
    } else if c == 'G' || c == 'g' {
        16
    } else if c == 'H' || c == 'h' {
        17
    } else if c == 'J' || c == 'j' {
        18
    } else if c == 'K' || c == 'k' {
        19
    } else if c == 'M' || c == 'm' {
        20
    } else if c == 'N' || c == 'n' {
        21
    } else if c == 'P' || c == 'p' {
        22
    } else if c == 'Q' || c == 'q' {
        23
    } else if c == 'R' || c == 'r' {
        24
    } else if c == 'S' || c == 's' {
        25
    } else if c == 'T' || c == 't' {
        26
    } else if c == 'V' || c == 'v' {
        27
    } else if c == 'W' || c == 'w' {
        28
    } else if c == 'X' || c == 'x' {
        29
    } else if c == 'Y' || c == 'y' {
        30
    } else if c == 'Z' || c == 'z' {
        31
    } else {
        32
    }
}

/// Whether `c` belongs to the canonical base-32 alphabet.
pub open spec fn is_crock_char(c: char) -> bool {
    crock_val(c) < 32
}

/// The upper-case character the canonical encoding writes for digit `d`.
pub open spec fn crock_char(d: nat) -> char {
    if d == 0 {
        '0'
    } else if d == 1 {
        '1'
    } else if d == 2 {
        '2'
    } else if d == 3 {
        '3'
    } else if d == 4 {
        '4'
    } else if d == 5 {
        '5'
    } else if d == 6 {
        '6'
    } else if d == 7 {
        '7'
    } else if d == 8 {
        '8'
    } else if d == 9 {
        '9'
    } else if d == 10 {
        'A'
    } else if d == 11 {
        'B'
    } else if d == 12 {
        'C'
    } else if d == 13 {
        'D'
    } else if d == 14 {
        'E'
    } else if d == 15 {
        'F'
    } else if d == 16 {
        'G'
    } else if d == 17 {
        'H'
    } else if d == 18 {
        'J'
    } else if d == 19 {
        'K'
    } else if d == 20 {
        'M'
    } else if d == 21 {
        'N'
    } else if d == 22 {
        'P'
    } else if d == 23 {
        'Q'
    } else if d == 24 {
        'R'
    } else if d == 25 {
        'S'
    } else if d == 26 {
        'T'
    } else if d == 27 {
        'V'
    } else if d == 28 {
        'W'
    } else if d == 29 {
        'X'
    } else if d == 30 {
        'Y'
    } else if d == 31 {
        'Z'
    } else {
        '0'
    }
}

/// The value of hexadecimal digit `c` (either case), or 16 when `c` is not
/// a hexadecimal digit.
pub open spec fn hex_val(c: char) -> nat {
    if c == '0' {
        0
    } else if c == '1' {
        1
    } else if c == '2' {
        2
    } else if c == '3' {
        3
    } else if c == '4' {
        4
    } else if c == '5' {
        5
    } else if c == '6' {
        6
    } else if c == '7' {
        7
    } else if c == '8' {
        8
    } else if c == '9' {
        9
    } else if c == 'A' || c == 'a' {
        10
    } else if c == 'B' || c == 'b' {
        11
    } else if c == 'C' || c == 'c' {
        12
    } else if c == 'D' || c == 'd' {
        13
    } else if c == 'E' || c == 'e' {
        14
    } else if c == 'F' || c == 'f' {
        15
    } else {
        16
    }
}

/// Whether `c` is a hexadecimal digit.
pub open spec fn is_hex_char(c: char) -> bool {
    hex_val(c) < 16
}

/// The lower-case character the hexadecimal encoding writes for digit `d`.
pub open spec fn hex_char(d: nat) -> char {
    if d == 0 {
        '0'
    } else if d == 1 {
        '1'
    } else if d == 2 {
        '2'
    } else if d == 3 {
        '3'
    } else if d == 4 {
        '4'
    } else if d == 5 {
        '5'
    } else if d == 6 {
        '6'
    } else if d == 7 {
        '7'
    } else if d == 8 {
        '8'
    } else if d == 9 {
        '9'
    } else if d == 10 {
        'a'
    } else if d == 11 {
        'b'
    } else if d == 12 {
        'c'
    } else if d == 13 {
        'd'
    } else if d == 14 {
        'e'
    } else {
        'f'
    }
}

/// Writing a canonical digit and reading it back is the identity, and the
/// written character is a printable member of the alphabet.
pub proof fn lemma_crock_char_val(d: nat)
    requires
        d < 32,
    ensures
        is_crock_char(crock_char(d)),
        crock_val(crock_char(d)) == d,
        ' ' <= crock_char(d) <= '\u{7f}',
{
}

/// Writing a hexadecimal digit and reading it back is the identity.
pub proof fn lemma_hex_char_val(d: nat)
    requires
        d < 16,
    ensures
        is_hex_char(hex_char(d)),
        hex_val(hex_char(d)) == d,
        ' ' <= hex_char(d) <= '\u{7f}',
        hex_char(d) != 'x' && hex_char(d) != 'X',
{
}

/// Characters of the canonical alphabet are ASCII.
pub proof fn lemma_crock_char_ascii(c: char)
    requires
        is_crock_char(c),
    ensures
        '\0' <= c <= '\u{7f}',
{
}

/// Hexadecimal digits are ASCII.
pub proof fn lemma_hex_char_ascii(c: char)
    requires
        is_hex_char(c),
    ensures
        '\0' <= c <= '\u{7f}',
{
}

/// The canonical alphabet is written in strictly increasing character order.
pub proof fn lemma_crock_char_monotone(d1: nat, d2: nat)
    requires
        d1 < d2 < 32,
    ensures
        (crock_char(d1) as nat) < (crock_char(d2) as nat),
{
}

/// The canonical digits denoted by a character sequence.
pub open spec fn crock_digit_seq(s: Seq<char>) -> Seq<nat> {
    s.map(|i: int, c: char| crock_val(c))
}

/// A well-formed canonical text: 26 characters of the base-32 alphabet whose
/// leading character leaves the value below 2^128.
pub open spec fn valid_canonical(s: Seq<char>) -> bool {
    &&& s.len() == 26
    &&& forall|i: int| 0 <= i < s.len() ==> is_crock_char(#[trigger] s[i])
    &&& crock_val(s[0]) < 8
}

/// The value a canonical text denotes.
pub open spec fn canonical_value(s: Seq<char>) -> nat {
    be_val(32, crock_digit_seq(s))
}

/// The canonical text of a 128-bit value: its 26 base-32 digits, written
/// upper case, most significant first.
pub open spec fn canonical_chars(x: u128) -> Seq<char> {
    be_digits(32, x as nat, 26).map(|i: int, d: nat| crock_char(d))
}

/// The hexadecimal digits denoted by a character sequence.
pub open spec fn hex_digit_seq(s: Seq<char>) -> Seq<nat> {
    s.map(|i: int, c: char| hex_val(c))
}

/// Exactly 32 hexadecimal digits.
pub open spec fn valid_hex_digits(s: Seq<char>) -> bool {
    &&& s.len() == 32
    &&& forall|i: int| 0 <= i < s.len() ==> is_hex_char(#[trigger] s[i])
}

/// The value a sequence of hexadecimal digits denotes.
pub open spec fn hex_value(s: Seq<char>) -> nat {
    be_val(16, hex_digit_seq(s))
}

/// The hexadecimal text of a 128-bit value: its 32 hexadecimal digits,
/// written lower case, most significant first, without a marker.
pub open spec fn hex_chars(x: u128) -> Seq<char> {
    be_digits(16, x as nat, 32).map(|i: int, d: nat| hex_char(d))
}

/// Whether the input carries the optional `0x` / `0X` marker.
pub open spec fn has_hex_prefix(s: Seq<char>) -> bool {
    s.len() >= 2 && s[0] == '0' && (s[1] == 'x' || s[1] == 'X')
}

/// The hexadecimal input with its optional marker removed.
pub open spec fn hex_body(s: Seq<char>) -> Seq<char> {
    if has_hex_prefix(s) {
        s.skip(2)
    } else {
        s
    }
}

/// A well-formed hexadecimal input: an optional marker followed by exactly
/// 32 hexadecimal digits.
pub open spec fn valid_hex_input(s: Seq<char>) -> bool {
    valid_hex_digits(hex_body(s))
}

/// The byte values of a byte sequence, as digits of base 256.
pub open spec fn byte_vals(b: Seq<u8>) -> Seq<nat> {
    b.map(|i: int, v: u8| v as nat)
}

/// The 16-byte binary form of a 128-bit value, most significant byte first.
pub open spec fn bytes_of(x: u128) -> Seq<u8> {
    be_digits(256, x as nat, 16).map(|i: int, d: nat| d as u8)
}

/// The value a byte sequence denotes, most significant byte first.
pub open spec fn byte_value(b: Seq<u8>) -> nat {
    be_val(256, byte_vals(b))
}

/// The code points of a character sequence.
pub open spec fn char_codes(s: Seq<char>) -> Seq<nat> {
    s.map(|i: int, c: char| c as nat)
}

/// Strict lexicographic order on character sequences, by code point.
pub open spec fn lex_lt_chars(a: Seq<char>, b: Seq<char>) -> bool {
    lex_lt(char_codes(a), char_codes(b))
}

/// Strict lexicographic order on byte sequences.
pub open spec fn lex_lt_bytes(a: Seq<u8>, b: Seq<u8>) -> bool {
    lex_lt(byte_vals(a), byte_vals(b))
}

/// The sniffing rule for free-form input: hexadecimal when the text starts
/// with `0x`, or when it is exactly 32 hexadecimal digits; canonical
/// otherwise.
pub open spec fn spec_is_hex_format(s: Seq<char>) -> bool {
    (s.len() >= 2 && s[0] == '0' && s[1] == 'x') || (s.len() == 32 && forall|i: int|
        0 <= i < s.len() ==> is_hex_char(#[trigger] s[i]))
}

/// The powers of 32 the codec's bound arguments turn on, written out.
pub proof fn lemma_pow32_consts()
    ensures
        pow_of(32, 24) == 0x1000000000000000000000000000000,
        pow_of(32, 25) == 0x20000000000000000000000000000000,
        pow_of(32, 26) == 0x400000000000000000000000000000000,
{
    assert(pow_of(32, 0) == 1);
    assert(pow_of(32, 1) == 0x20);
    assert(pow_of(32, 2) == 0x400);
    assert(pow_of(32, 3) == 0x8000);
    assert(pow_of(32, 4) == 0x100000);
    assert(pow_of(32, 5) == 0x2000000);
    assert(pow_of(32, 6) == 0x40000000);
    assert(pow_of(32, 7) == 0x800000000);
    assert(pow_of(32, 8) == 0x10000000000);
    assert(pow_of(32, 9) == 0x200000000000);
    assert(pow_of(32, 10) == 0x4000000000000);
    assert(pow_of(32, 11) == 0x80000000000000);
    assert(pow_of(32, 12) == 0x1000000000000000);
    assert(pow_of(32, 13) == 0x20000000000000000);
    assert(pow_of(32, 14) == 0x400000000000000000);
    assert(pow_of(32, 15) == 0x8000000000000000000);
    assert(pow_of(32, 16) == 0x100000000000000000000);
    assert(pow_of(32, 17) == 0x2000000000000000000000);
    assert(pow_of(32, 18) == 0x40000000000000000000000);
    assert(pow_of(32, 19) == 0x800000000000000000000000);
    assert(pow_of(32, 20) == 0x10000000000000000000000000);
    assert(pow_of(32, 21) == 0x200000000000000000000000000);
    assert(pow_of(32, 22) == 0x4000000000000000000000000000);
    assert(pow_of(32, 23) == 0x80000000000000000000000000000);
    assert(pow_of(32, 24) == 0x1000000000000000000000000000000);
    assert(pow_of(32, 25) == 0x20000000000000000000000000000000);
    assert(pow_of(32, 26) == 0x400000000000000000000000000000000);
}

/// The powers of 16 the codec's bound arguments turn on, written out.
pub proof fn lemma_pow16_consts()
    ensures
        pow_of(16, 31) == 0x10000000000000000000000000000000,
        pow_of(16, 32) == 0x100000000000000000000000000000000,
{
    assert(pow_of(16, 0) == 1);
    assert(pow_of(16, 1) == 0x10);
    assert(pow_of(16, 2) == 0x100);
    assert(pow_of(16, 3) == 0x1000);
    assert(pow_of(16, 4) == 0x10000);
    assert(pow_of(16, 5) == 0x100000);
    assert(pow_of(16, 6) == 0x1000000);
    assert(pow_of(16, 7) == 0x10000000);
    assert(pow_of(16, 8) == 0x100000000);
    assert(pow_of(16, 9) == 0x1000000000);
    assert(pow_of(16, 10) == 0x10000000000);
    assert(pow_of(16, 11) == 0x100000000000);
    assert(pow_of(16, 12) == 0x1000000000000);
    assert(pow_of(16, 13) == 0x10000000000000);
    assert(pow_of(16, 14) == 0x100000000000000);
    assert(pow_of(16, 15) == 0x1000000000000000);
    assert(pow_of(16, 16) == 0x10000000000000000);
    assert(pow_of(16, 17) == 0x100000000000000000);
    assert(pow_of(16, 18) == 0x1000000000000000000);
    assert(pow_of(16, 19) == 0x10000000000000000000);
    assert(pow_of(16, 20) == 0x100000000000000000000);
    assert(pow_of(16, 21) == 0x1000000000000000000000);
    assert(pow_of(16, 22) == 0x10000000000000000000000);
    assert(pow_of(16, 23) == 0x100000000000000000000000);
    assert(pow_of(16, 24) == 0x1000000000000000000000000);
    assert(pow_of(16, 25) == 0x10000000000000000000000000);
    assert(pow_of(16, 26) == 0x100000000000000000000000000);
    assert(pow_of(16, 27) == 0x1000000000000000000000000000);
    assert(pow_of(16, 28) == 0x10000000000000000000000000000);
    assert(pow_of(16, 29) == 0x100000000000000000000000000000);
    assert(pow_of(16, 30) == 0x1000000000000000000000000000000);
    assert(pow_of(16, 31) == 0x10000000000000000000000000000000);
    assert(pow_of(16, 32) == 0x100000000000000000000000000000000);
}

/// The powers of 256 the codec's bound arguments turn on, written out.
pub proof fn lemma_pow256_consts()
    ensures
        pow_of(256, 15) == 0x1000000000000000000000000000000,
        pow_of(256, 16) == 0x100000000000000000000000000000000,
{
    assert(pow_of(256, 0) == 1);
    assert(pow_of(256, 1) == 0x100);
    assert(pow_of(256, 2) == 0x10000);
    assert(pow_of(256, 3) == 0x1000000);
    assert(pow_of(256, 4) == 0x100000000);
    assert(pow_of(256, 5) == 0x10000000000);
    assert(pow_of(256, 6) == 0x1000000000000);
    assert(pow_of(256, 7) == 0x100000000000000);
    assert(pow_of(256, 8) == 0x10000000000000000);
    assert(pow_of(256, 9) == 0x1000000000000000000);
    assert(pow_of(256, 10) == 0x100000000000000000000);
    assert(pow_of(256, 11) == 0x10000000000000000000000);
    assert(pow_of(256, 12) == 0x1000000000000000000000000);
    assert(pow_of(256, 13) == 0x100000000000000000000000000);
    assert(pow_of(256, 14) == 0x10000000000000000000000000000);
    assert(pow_of(256, 15) == 0x1000000000000000000000000000000);
    assert(pow_of(256, 16) == 0x100000000000000000000000000000000);
}

/// Reads one byte as a canonical-alphabet digit; 255 marks a byte outside
/// the alphabet.
fn crock_digit_of(b: u8) -> (d: u8)
    ensures
        d < 32 || d == 255,
        d < 32 ==> is_crock_char(b as char) && crock_val(b as char) == d,
        d == 255 ==> !is_crock_char(b as char),
{
    match b {
        48 => 0,
        49 => 1,
        50 => 2,
        51 => 3,
        52 => 4,
        53 => 5,
        54 => 6,
        55 => 7,
        56 => 8,
        57 => 9,
        65 | 97 => 10,
        66 | 98 => 11,
        67 | 99 => 12,
        68 | 100 => 13,
        69 | 101 => 14,
        70 | 102 => 15,
        71 | 103 => 16,
        72 | 104 => 17,
        74 | 106 => 18,
        75 | 107 => 19,
        77 | 109 => 20,
        78 | 110 => 21,
        80 | 112 => 22,
        81 | 113 => 23,
        82 | 114 => 24,
        83 | 115 => 25,
        84 | 116 => 26,
        86 | 118 => 27,
        87 | 119 => 28,
        88 | 120 => 29,
        89 | 121 => 30,
        90 | 122 => 31,
        _ => 255,
    }
}

/// Writes one canonical-alphabet digit as its upper-case character.
fn crock_char_of(d: u8) -> (c: char)
    requires
        d < 32,
    ensures
        c == crock_char(d as nat),
{
    match d {
        0 => '0',
        1 => '1',
        2 => '2',
        3 => '3',
        4 => '4',
        5 => '5',
        6 => '6',
        7 => '7',
        8 => '8',
        9 => '9',
        10 => 'A',
        11 => 'B',
        12 => 'C',
        13 => 'D',
        14 => 'E',
        15 => 'F',
        16 => 'G',
        17 => 'H',
        18 => 'J',
        19 => 'K',
        20 => 'M',
        21 => 'N',
        22 => 'P',
        23 => 'Q',
        24 => 'R',
        25 => 'S',
        26 => 'T',
        27 => 'V',
        28 => 'W',
        29 => 'X',
        30 => 'Y',
        _ => 'Z',
    }
}

/// Reads one byte as a hexadecimal digit; 255 marks a byte that is not one.
fn hex_digit_of(b: u8) -> (d: u8)
    ensures
        d < 16 || d == 255,
        d < 16 ==> is_hex_char(b as char) && hex_val(b as char) == d,
        d == 255 ==> !is_hex_char(b as char),
{
    match b {
        48 => 0,
        49 => 1,
        50 => 2,
        51 => 3,
        52 => 4,
        53 => 5,
        54 => 6,
        55 => 7,
        56 => 8,
        57 => 9,
        65 | 97 => 10,
        66 | 98 => 11,
        67 | 99 => 12,
        68 | 100 => 13,
        69 | 101 => 14,
        70 | 102 => 15,
        _ => 255,
    }
}

/// Writes one hexadecimal digit as its lower-case character.
fn hex_char_of(d: u8) -> (c: char)
    requires
        d < 16,
    ensures
        c == hex_char(d as nat),
{
    match d {
        0 => '0',
        1 => '1',
        2 => '2',
        3 => '3',
        4 => '4',
        5 => '5',
        6 => '6',
        7 => '7',
        8 => '8',
        9 => '9',
        10 => 'a',
        11 => 'b',
        12 => 'c',
        13 => 'd',
        14 => 'e',
        _ => 'f',
    }
}

/// An ASCII character survives the trip through its byte.
proof fn lemma_ascii_byte_char(c: char)
    requires
        '\0' <= c <= '\u{7f}',
    ensures
        ((c as u8) as char) == c,
{
    vstd::utf8::char_u32_cast(c, c as u32);
}

/// Parses the canonical 26-character text of an identifier.  Accepts either
/// letter case; rejects any other length, any character outside the base-32
/// alphabet, and a leading character that would overflow 128 bits.
pub fn parse_canonical(s: &str) -> (r: Result<Identifier, UlidError>)
    ensures
        r is Ok <==> valid_canonical(s@),
        r is Ok ==> r->Ok_0.bits as nat == canonical_value(s@),
        r is Err ==> r->Err_0 == UlidError::MalformedIdentifier,
{
    if !s.is_ascii() {
        proof {
            if valid_canonical(s@) {
                assert forall|i: int| 0 <= i < s@.len() implies '\0' <= #[trigger] s@[i]
                    <= '\u{7f}' by {
                    lemma_crock_char_ascii(s@[i]);
                }
                assert(is_ascii_chars(s@));
            }
        }
        return Err(UlidError::MalformedIdentifier);
    }
    let b: Vec<u8> = s.as_bytes_vec();
    proof {
        broadcast use is_ascii_spec_bytes;

        assert(b@ =~= Seq::new(s@.len(), |i: int| s@[i] as u8));
        assert forall|j: int| 0 <= j < s@.len() implies (#[trigger] b@[j]) as char == s@[j] by {
            lemma_ascii_byte_char(s@[j]);
        }
    }
    if b.len() != 26 {
        return Err(UlidError::MalformedIdentifier);
    }
    let mut acc: u128 = 0;
    let mut i: usize = 0;
    while i < 26
        invariant
            i <= 26,
            b@.len() == 26,
            s@.len() == 26,
            forall|j: int| 0 <= j < 26 ==> (#[trigger] b@[j]) as char == s@[j],
            forall|j: int| 0 <= j < i ==> is_crock_char(#[trigger] s@[j]),
            i > 0 ==> crock_val(s@[0]) < 8,
            acc as nat == be_val(32, crock_digit_seq(s@.take(i as int))),
            i > 0 ==> (acc as nat) < 8 * pow_of(32, (i - 1) as nat),
        decreases 26 - i,
    {
        let d = crock_digit_of(b[i]);
        if d == 255 {
            return Err(UlidError::MalformedIdentifier);
        }
        if i == 0 && d >= 8 {
            return Err(UlidError::MalformedIdentifier);
        }
        proof {
            if i > 0 {
                lemma_pow_of_increases(32, (i - 1) as nat, 24);
                lemma_pow32_consts();
            }
            let t1 = crock_digit_seq(s@.take(i as int + 1));
            assert(t1.drop_last() =~= crock_digit_seq(s@.take(i as int)));
            assert(t1.last() == crock_val(s@[i as int]));
            assert(be_val(32, t1) == be_val(32, t1.drop_last()) * 32 + t1.last());
        }
        acc = acc * 32 + (d as u128);
        i = i + 1;
    }
    proof {
        assert(s@.take(26) =~= s@);
    }
    Ok(Identifier { bits: acc })
}

/// Parses the hexadecimal text of an identifier: an optional `0x` / `0X`
/// marker followed by exactly 32 hexadecimal digits, either case.
pub fn parse_hex(s: &str) -> (r: Result<Identifier, UlidError>)
    ensures
        r is Ok <==> valid_hex_input(s@),
        r is Ok ==> r->Ok_0.bits as nat == hex_value(hex_body(s@)),
        r is Err ==> r->Err_0 == UlidError::MalformedHex,
{
    if !s.is_ascii() {
        proof {
            if valid_hex_input(s@) {
                let t = hex_body(s@);
                assert forall|i: int| 0 <= i < s@.len() implies '\0' <= #[trigger] s@[i]
                    <= '\u{7f}' by {
                    if has_hex_prefix(s@) {
                        if i >= 2 {
                            assert(s@[i] == t[i - 2]);
                            lemma_hex_char_ascii(t[i - 2]);
                        }
                    } else {
                        assert(s@[i] == t[i]);
                        lemma_hex_char_ascii(t[i]);
                    }
                }
                assert(is_ascii_chars(s@));
            }
        }
        return Err(UlidError::MalformedHex);
    }
    let b: Vec<u8> = s.as_bytes_vec();
    proof {
        broadcast use is_ascii_spec_bytes;

        assert(b@ =~= Seq::new(s@.len(), |i: int| s@[i] as u8));
        assert forall|j: int| 0 <= j < s@.len() implies (#[trigger] b@[j]) as char == s@[j] by {
            lemma_ascii_byte_char(s@[j]);
        }
    }
    let has_prefix = b.len() >= 2 && b[0] == 48 && (b[1] == 120 || b[1] == 88);
    let start: usize = if has_prefix {
        2
    } else {
        0
    };
    proof {
        assert(has_prefix == has_hex_prefix(s@));
        assert(hex_body(s@) =~= s@.skip(start as int));
    }
    if b.len() - start != 32 {
        return Err(UlidError::MalformedHex);
    }
    let mut acc: u128 = 0;
    let mut i: usize = 0;
    while i < 32
        invariant
            i <= 32,
            start + 32 == b@.len(),
            start == 0 || start == 2,
            b@.len() == s@.len(),
            forall|j: int| 0 <= j < s@.len() ==> (#[trigger] b@[j]) as char == s@[j],
            hex_body(s@) =~= s@.skip(start as int),
            forall|j: int| 0 <= j < i ==> is_hex_char(#[trigger] hex_body(s@)[j]),
            acc as nat == be_val(16, hex_digit_seq(hex_body(s@).take(i as int))),
            (acc as nat) < pow_of(16, i as nat),
        decreases 32 - i,
    {
        let d = hex_digit_of(b[start + i]);
        proof {
            assert(hex_body(s@)[i as int] == s@[start + i as int]);
        }
        if d == 255 {
            return Err(UlidError::MalformedHex);
        }
        proof {
            lemma_pow_of_increases(16, i as nat, 31);
            lemma_pow16_consts();
            let t1 = hex_digit_seq(hex_body(s@).take(i as int + 1));
            assert(t1.drop_last() =~= hex_digit_seq(hex_body(s@).take(i as int)));
            assert(t1.last() == hex_val(hex_body(s@)[i as int]));
            assert(be_val(16, t1) == be_val(16, t1.drop_last()) * 16 + t1.last());
        }
        acc = acc * 16 + (d as u128);
        i = i + 1;
    }
    proof {
        assert(hex_body(s@).take(32) =~= hex_body(s@));
    }
    Ok(Identifier { bits: acc })
}

/// The sniffing rule for free-form input, as the `convert` command applies
/// it: hexadecimal when the text starts with `0x`, or when it is exactly 32
/// hexadecimal digits.
pub fn is_hex_format(value: &str) -> (r: bool)
    ensures
        r == spec_is_hex_format(value@),
{
    let n = value.unicode_len();
    if n >= 2 {
        if value.get_char(0) == '0' && value.get_char(1) == 'x' {
            return true;
        }
    }
    if n != 32 {
        return false;
    }
    if !value.is_ascii() {
        proof {
            if forall|i: int| 0 <= i < value@.len() ==> is_hex_char(#[trigger] value@[i]) {
                assert forall|i: int| 0 <= i < value@.len() implies '\0' <= #[trigger] value@[i]
                    <= '\u{7f}' by {
                    lemma_hex_char_ascii(value@[i]);
                }
                assert(is_ascii_chars(value@));
            }
        }
        return false;
    }
    let b: Vec<u8> = value.as_bytes_vec();
    proof {
        broadcast use is_ascii_spec_bytes;

        assert(b@ =~= Seq::new(value@.len(), |i: int| value@[i] as u8));
        assert forall|j: int| 0 <= j < value@.len() implies (#[trigger] b@[j]) as char
            == value@[j] by {
            lemma_ascii_byte_char(value@[j]);
        }
    }
    let mut i: usize = 0;
    while i < 32
        invariant
            i <= 32,
            b@.len() == 32,
            value@.len() == 32,
            forall|j: int| 0 <= j < 32 ==> (#[trigger] b@[j]) as char == value@[j],
            forall|j: int| 0 <= j < i ==> is_hex_char(#[trigger] value@[j]),
            !(value@[0] == '0' && value@[1] == 'x'),
        decreases 32 - i,
    {
        if hex_digit_of(b[i]) == 255 {
            return false;
        }
        i = i + 1;
    }
    true
}

/// Tells which representation a free-form input is taken for.
pub fn classify_input(s: &str) -> (r: InputForm)
    ensures
        r == InputForm::HexForm <==> spec_is_hex_format(s@),
        r == InputForm::CanonicalForm <==> !spec_is_hex_format(s@),
{
    if is_hex_format(s) {
        InputForm::HexForm
    } else {
        InputForm::CanonicalForm
    }
}

impl Identifier {
    /// Builds the identifier whose 16-byte binary form is `bytes`.
    pub fn from_bytes(bytes: &Vec<u8>) -> (r: Identifier)
        requires
            bytes@.len() == 16,
        ensures
            r.bits as nat == byte_value(bytes@),
    {
        let mut acc: u128 = 0;
        let mut i: usize = 0;
        while i < 16
            invariant
                i <= 16,
                bytes@.len() == 16,
                acc as nat == be_val(256, byte_vals(bytes@.take(i as int))),
                (acc as nat) < pow_of(256, i as nat),
            decreases 16 - i,
        {
            proof {
                lemma_pow_of_increases(256, i as nat, 15);
                lemma_pow256_consts();
                let t1 = byte_vals(bytes@.take(i as int + 1));
                assert(t1.drop_last() =~= byte_vals(bytes@.take(i as int)));
                assert(t1.last() == bytes@[i as int] as nat);
                assert(be_val(256, t1) == be_val(256, t1.drop_last()) * 256 + t1.last());
            }
            acc = acc * 256 + (bytes[i] as u128);
            i = i + 1;
        }
        proof {
            assert(bytes@.take(16) =~= bytes@);
        }
        Identifier { bits: acc }
    }

    /// Writes the identifier's 16-byte binary form, most significant byte
    /// first.
    pub fn to_bytes(&self) -> (r: Vec<u8>)
        ensures
            r@ == bytes_of(self.bits),
            r@.len() == 16,
    {
        let mut rev: Vec<u8> = Vec::new();
        let mut x: u128 = self.bits;
        let mut j: usize = 0;
        proof {
            assert(pow_of(256, 0) == 1);
            assert((self.bits as nat) / 1 == self.bits as nat);
        }
        while j < 16
            invariant
                j <= 16,
                rev@.len() == j,
                x as nat == (self.bits as nat) / pow_of(256, j as nat),
                forall|k: int|
                    0 <= k < j ==> (#[trigger] rev@[k]) as nat == ((self.bits as nat) / pow_of(
                        256,
                        k as nat,
                    )) % 256,
            decreases 16 - j,
        {
            let d: u8 = (x % 256) as u8;
            rev.push(d);
            proof {
                lemma_pow_of_pos(256, j as nat);
                lemma_div_denominator(self.bits as int, pow_of(256, j as nat) as int, 256);
            }
            x = x / 256;
            j = j + 1;
        }
        let mut out: Vec<u8> = Vec::new();
        let mut i: usize = 0;
        proof {
            lemma_be_digits_props(256, self.bits as nat, 16);
        }
        while i < 16
            invariant
                i <= 16,
                rev@.len() == 16,
                forall|k: int|
                    0 <= k < 16 ==> (#[trigger] rev@[k]) as nat == ((self.bits as nat) / pow_of(
                        256,
                        k as nat,
                    )) % 256,
                out@ =~= bytes_of(self.bits).take(i as int),
                bytes_of(self.bits).len() == 16,
            decreases 16 - i,
        {
            let d: u8 = rev[15 - i];
            out.push(d);
            proof {
                lemma_be_digits_index(256, self.bits as nat, 16, (15 - i) as nat);
                assert(bytes_of(self.bits)[i as int] == (be_digits(256, self.bits as nat, 16)[
                    i as int]) as u8);
                assert(out@ =~= bytes_of(self.bits).take(i as int + 1));
            }
            i = i + 1;
        }
        proof {
            assert(bytes_of(self.bits).take(16) =~= bytes_of(self.bits));
        }
        out
    }

    /// Writes the identifier's canonical 26-character text, upper case.
    pub fn to_canonical(&self) -> (r: String)
        ensures
            r@ == canonical_chars(self.bits),
            r@.len() == 26,
    {
        let mut rev: Vec<u8> = Vec::new();
        let mut x: u128 = self.bits;
        let mut j: usize = 0;
        proof {
            assert(pow_of(32, 0) == 1);
            assert((self.bits as nat) / 1 == self.bits as nat);
        }
        while j < 26
            invariant
                j <= 26,
                rev@.len() == j,
                x as nat == (self.bits as nat) / pow_of(32, j as nat),
                forall|k: int|
                    0 <= k < j ==> (#[trigger] rev@[k]) < 32 && rev@[k] as nat == ((
                    self.bits as nat) / pow_of(32, k as nat)) % 32,
            decreases 26 - j,
        {
            let d: u8 = (x % 32) as u8;
            rev.push(d);
            proof {
                lemma_pow_of_pos(32, j as nat);
                lemma_div_denominator(self.bits as int, pow_of(32, j as nat) as int, 32);
            }
            x = x / 32;
            j = j + 1;
        }
        let mut out = String::new();
        let mut i: usize = 0;
        proof {
            lemma_be_digits_props(32, self.bits as nat, 26);
        }
        while i < 26
            invariant
                i <= 26,
                rev@.len() == 26,
                forall|k: int|
                    0 <= k < 26 ==> (#[trigger] rev@[k]) < 32 && rev@[k] as nat == ((
                    self.bits as nat) / pow_of(32, k as nat)) % 32,
                out@ =~= canonical_chars(self.bits).take(i as int),
                canonical_chars(self.bits).len() == 26,
            decreases 26 - i,
        {
            let d: u8 = rev[25 - i];
            let c = crock_char_of(d);
            out.push(c);
            proof {
                lemma_be_digits_index(32, self.bits as nat, 26, (25 - i) as nat);
                assert(canonical_chars(self.bits)[i as int] == crock_char(
                    be_digits(32, self.bits as nat, 26)[i as int],
                ));
                assert(out@ =~= canonical_chars(self.bits).take(i as int + 1));
            }
            i = i + 1;
        }
        proof {
            assert(canonical_chars(self.bits).take(26) =~= canonical_chars(self.bits));
        }
        out
    }

    /// Writes the identifier's 32-digit hexadecimal text, lower case,
    /// without a marker.
    pub fn to_hex(&self) -> (r: String)
        ensures
            r@ == hex_chars(self.bits),
            r@.len() == 32,
    {
        let mut rev: Vec<u8> = Vec::new();
        let mut x: u128 = self.bits;
        let mut j: usize = 0;
        proof {
            assert(pow_of(16, 0) == 1);
            assert((self.bits as nat) / 1 == self.bits as nat);
        }
        while j < 32
            invariant
                j <= 32,
                rev@.len() == j,
                x as nat == (self.bits as nat) / pow_of(16, j as nat),
                forall|k: int|
                    0 <= k < j ==> (#[trigger] rev@[k]) < 16 && rev@[k] as nat == ((
                    self.bits as nat) / pow_of(16, k as nat)) % 16,
            decreases 32 - j,
        {
            let d: u8 = (x % 16) as u8;
            rev.push(d);
            proof {
                lemma_pow_of_pos(16, j as nat);
                lemma_div_denominator(self.bits as int, pow_of(16, j as nat) as int, 16);
            }
            x = x / 16;
            j = j + 1;
        }
        let mut out = String::new();
        let mut i: usize = 0;
        proof {
            lemma_be_digits_props(16, self.bits as nat, 32);
        }
        while i < 32
            invariant
                i <= 32,
                rev@.len() == 32,
                forall|k: int|
                    0 <= k < 32 ==> (#[trigger] rev@[k]) < 16 && rev@[k] as nat == ((
                    self.bits as nat) / pow_of(16, k as nat)) % 16,
                out@ =~= hex_chars(self.bits).take(i as int),
                hex_chars(self.bits).len() == 32,
            decreases 32 - i,
        {
            let d: u8 = rev[31 - i];
            let c = hex_char_of(d);
            out.push(c);
            proof {
                lemma_be_digits_index(16, self.bits as nat, 32, (31 - i) as nat);
                assert(hex_chars(self.bits)[i as int] == hex_char(
                    be_digits(16, self.bits as nat, 32)[i as int],
                ));
                assert(out@ =~= hex_chars(self.bits).take(i as int + 1));
            }
            i = i + 1;
        }
        proof {
            assert(hex_chars(self.bits).take(32) =~= hex_chars(self.bits));
        }
        out
    }
}

/// The canonical character written for each digit of a string, as code
/// points.
pub open spec fn crock_code_seq(s: Seq<nat>) -> Seq<nat> {
    s.map(|i: int, d: nat| crock_char(d) as nat)
}

/// Because the canonical alphabet is written in increasing character order,
/// digit strings and their written forms sort identically.
proof fn lemma_lex_lt_crock_code(a: Seq<nat>, b: Seq<nat>)
    requires
        all_below(32, a),
        all_below(32, b),
        a.len() == b.len(),
    ensures
        lex_lt(crock_code_seq(a), crock_code_seq(b)) <==> lex_lt(a, b),
    decreases a.len(),
{
    if a.len() > 0 {
        assert(crock_code_seq(a).drop_first() =~= crock_code_seq(a.drop_first()));
        assert(crock_code_seq(b).drop_first() =~= crock_code_seq(b.drop_first()));
        assert(all_below(32, a.drop_first()));
        assert(all_below(32, b.drop_first()));
        lemma_lex_lt_crock_code(a.drop_first(), b.drop_first());
        if a[0] < b[0] {
            lemma_crock_char_monotone(a[0], b[0]);
        } else if b[0] < a[0] {
            lemma_crock_char_monotone(b[0], a[0]);
        }
    }
}

/// Round trip through the canonical text: printing any 128-bit value gives
/// a well-formed canonical text that parses back to the same value.
pub proof fn lemma_canonical_round_trip(x: u128)
    ensures
        canonical_chars(x).len() == 26,
        valid_canonical(canonical_chars(x)),
        canonical_value(canonical_chars(x)) == x as nat,
{
    let n = x as nat;
    let digs = be_digits(32, n, 26);
    let s = canonical_chars(x);
    lemma_be_digits_props(32, n, 26);
    lemma_pow32_consts();
    assert forall|i: int| 0 <= i < s.len() implies is_crock_char(#[trigger] s[i]) by {
        assert(s[i] == crock_char(digs[i]));
        lemma_crock_char_val(digs[i]);
    }
    lemma_be_digits_index(32, n, 26, 25);
    assert(digs[0] == (n / pow_of(32, 25)) % 32);
    assert(n < pow_of(32, 25) * 8);
    lemma_multiply_divide_lt(n as int, pow_of(32, 25) as int, 8);
    lemma_small_mod(n / pow_of(32, 25), 32);
    lemma_crock_char_val(digs[0]);
    assert(crock_val(s[0]) < 8);
    assert(crock_digit_seq(s) =~= digs) by {
        assert forall|i: int| 0 <= i < 26 implies crock_digit_seq(s)[i] == digs[i] by {
            lemma_crock_char_val(digs[i]);
        }
    }
    lemma_be_digits_val(32, n, 26);
}

/// Round trip through the hexadecimal text: printing any 128-bit value
/// gives a well-formed, unprefixed hexadecimal text that parses back to the
/// same value.
pub proof fn lemma_hex_round_trip(x: u128)
    ensures
        hex_chars(x).len() == 32,
        !has_hex_prefix(hex_chars(x)),
        hex_body(hex_chars(x)) == hex_chars(x),
        valid_hex_input(hex_chars(x)),
        hex_value(hex_chars(x)) == x as nat,
{
    let n = x as nat;
    let digs = be_digits(16, n, 32);
    let s = hex_chars(x);
    lemma_be_digits_props(16, n, 32);
    lemma_pow16_consts();
    assert forall|i: int| 0 <= i < s.len() implies is_hex_char(#[trigger] s[i]) by {
        assert(s[i] == hex_char(digs[i]));
        lemma_hex_char_val(digs[i]);
    }
    assert(s[1] == hex_char(digs[1]));
    lemma_hex_char_val(digs[1]);
    assert(!has_hex_prefix(s));
    assert(hex_digit_seq(s) =~= digs) by {
        assert forall|i: int| 0 <= i < 32 implies hex_digit_seq(s)[i] == digs[i] by {
            lemma_hex_char_val(digs[i]);
        }
    }
    lemma_be_digits_val(16, n, 32);
}

/// Round trip through the binary form: the 16 bytes of any 128-bit value
/// denote that value again.
pub proof fn lemma_bytes_round_trip(x: u128)
    ensures
        bytes_of(x).len() == 16,
        byte_value(bytes_of(x)) == x as nat,
{
    let n = x as nat;
    let digs = be_digits(256, n, 16);
    lemma_be_digits_props(256, n, 16);
    lemma_pow256_consts();
    assert(byte_vals(bytes_of(x)) =~= digs);
    lemma_be_digits_val(256, n, 16);
}

/// Order preservation: the canonical texts of two identifiers compare
/// lexicographically exactly as their binary forms do, and both agree with
/// the numeric order of the values.
pub proof fn lemma_order_preservation(x: u128, y: u128)
    ensures
        lex_lt_chars(canonical_chars(x), canonical_chars(y)) <==> x < y,
        lex_lt_bytes(bytes_of(x), bytes_of(y)) <==> x < y,
        lex_lt_chars(canonical_chars(x), canonical_chars(y)) <==> lex_lt_bytes(
            bytes_of(x),
            bytes_of(y),
        ),
{
    let dx = be_digits(32, x as nat, 26);
    let dy = be_digits(32, y as nat, 26);
    lemma_be_digits_props(32, x as nat, 26);
    lemma_be_digits_props(32, y as nat, 26);
    lemma_pow32_consts();
    lemma_be_digits_val(32, x as nat, 26);
    lemma_be_digits_val(32, y as nat, 26);
    assert(char_codes(canonical_chars(x)) =~= crock_code_seq(dx));
    assert(char_codes(canonical_chars(y)) =~= crock_code_seq(dy));
    lemma_lex_lt_crock_code(dx, dy);
    lemma_lex_lt_iff_val_lt(32, dx, dy);
    let bx = be_digits(256, x as nat, 16);
    let by_seq = be_digits(256, y as nat, 16);
    lemma_be_digits_props(256, x as nat, 16);
    lemma_be_digits_props(256, y as nat, 16);
    lemma_pow256_consts();
    lemma_be_digits_val(256, x as nat, 16);
    lemma_be_digits_val(256, y as nat, 16);
    assert(byte_vals(bytes_of(x)) =~= bx);
    assert(byte_vals(bytes_of(y)) =~= by_seq);
    lemma_lex_lt_iff_val_lt(256, bx, by_seq);
}

/// A text carrying the lower-case `0x` marker is sniffed as hexadecimal.
pub proof fn lemma_classify_prefixed_hex(s: Seq<char>)
    requires
        s.len() >= 2,
        s[0] == '0',
        s[1] == 'x',
    ensures
        spec_is_hex_format(s),
{
}

/// A bare text of exactly 32 hexadecimal digits is sniffed as hexadecimal.
pub proof fn lemma_classify_bare_hex(s: Seq<char>)
    requires
        s.len() == 32,
        forall|i: int| 0 <= i < s.len() ==> is_hex_char(#[trigger] s[i]),
    ensures
        spec_is_hex_format(s),
{
}

/// A canonical text is sniffed as canonical text - except one that itself
/// begins with the characters `0x`, which the sniffing rule claims for
/// hexadecimal first.
pub proof fn lemma_classify_canonical(s: Seq<char>)
    requires
        valid_canonical(s),
        !(s[0] == '0' && s[1] == 'x'),
    ensures
        !spec_is_hex_format(s),
{
}

} // verus!
