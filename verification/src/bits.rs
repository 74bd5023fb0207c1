//! From a letter to its row of toggles.
//!
//! A letter's code point is written in lower-case hexadecimal, every
//! hexadecimal digit is expanded to its four binary digits, most significant
//! first, and every binary digit becomes one boolean. The expansion is done by
//! the `to-binary` crate, which decodes whole bytes: a code point with an odd
//! number of hexadecimal digits is handed over with a leading zero, and the four
//! toggles of that zero are left out again.

use vstd::prelude::*;
use vstd::arithmetic::div_mod::lemma_div_denominator;
use vstd::arithmetic::power2::{lemma2_to64, lemma_pow2_adds, lemma_pow2_pos, pow2};
use to_binary::BinaryString;

verus! {

/// The hexadecimal digits of `n` as numbers below 16, most significant first.
pub open spec fn nibbles(n: nat) -> Seq<nat>
    decreases n,
{
    if n < 16 {
        seq![n]
    } else {
        nibbles(n / 16).push(n % 16)
    }
}

/// The lower-case hexadecimal digit for a number below 16.
pub open spec fn hex_char(v: nat) -> char {
    if v < 10 {
        (48 + v) as char
    } else {
        (87 + v) as char
    }
}

/// `n` in lower-case hexadecimal, without prefix or padding.
pub open spec fn hex_text(n: nat) -> Seq<char>
    decreases n,
{
    if n < 16 {
        seq![hex_char(n)]
    } else {
        hex_text(n / 16).push(hex_char(n % 16))
    }
}

/// Whether `c` is one of `0`-`9`, `a`-`f`, `A`-`F`.
pub open spec fn is_hex_digit(c: char) -> bool {
    let code = c as nat;
    ||| 48 <= code <= 57
    ||| 97 <= code <= 102
    ||| 65 <= code <= 70
}

/// The number that a hexadecimal digit stands for.
pub open spec fn hex_value(c: char) -> nat {
    let code = c as nat;
    if 48 <= code <= 57 {
        (code - 48) as nat
    } else if 97 <= code <= 102 {
        (code - 87) as nat
    } else {
        (code - 55) as nat
    }
}

/// Binary digit `k` of a number below 16, counted from the most significant of
/// its four digits.
pub open spec fn nibble_bit(v: nat, k: int) -> bool {
    if k == 0 {
        (v / 8) % 2 == 1
    } else if k == 1 {
        (v / 4) % 2 == 1
    } else if k == 2 {
        (v / 2) % 2 == 1
    } else {
        v % 2 == 1
    }
}

/// The binary digits of a hexadecimal text, four for each of its digits.
pub open spec fn binary_text(hex: Seq<char>) -> Seq<char> {
    Seq::new(
        4 * hex.len(),
        |i: int|
            if nibble_bit(hex_value(hex[i / 4]), i % 4) {
                '1'
            } else {
                '0'
            },
    )
}

/// The toggle that a binary digit stands for: off for `0`, on for anything else.
pub open spec fn toggle(digit: char) -> bool {
    digit != '0'
}

/// The toggles of the code point `code`: four for each of its hexadecimal digits,
/// most significant first.
pub open spec fn bits_of(code: nat) -> Seq<bool> {
    Seq::new(4 * nibbles(code).len(), |i: int| nibble_bit(nibbles(code)[i / 4], i % 4))
}

/// The hexadecimal text of `n` has one digit for each nibble of `n`, and each
/// digit stands for its nibble.
pub proof fn lemma_hex_text(n: nat)
    ensures
        hex_text(n).len() == nibbles(n).len(),
        nibbles(n).len() >= 1,
        forall|i: int|
            0 <= i < nibbles(n).len() ==> {
                &&& (#[trigger] nibbles(n)[i]) < 16
                &&& is_hex_digit(hex_text(n)[i])
                &&& hex_value(hex_text(n)[i]) == nibbles(n)[i]
            },
    decreases n,
{
    if n >= 16 {
        lemma_hex_text(n / 16);
    }
}

/// The four binary digits of the lowest nibble of `n` are the four lowest
/// binary digits of `n`.
pub proof fn lemma_lowest_nibble(n: nat, k: int)
    requires
        0 <= k < 4,
    ensures
        nibble_bit(n % 16, k) == ((n / pow2((3 - k) as nat)) % 2 == 1),
{
    lemma2_to64();
    let low = n % 16;
    assert(n == 16 * (n / 16) + low);
    let weight = pow2((3 - k) as nat);
    if k == 0 {
        assert(n / weight == n / 8) by (nonlinear_arith)
            requires
                weight == 8,
        ;
        assert((n / 8) % 2 == (low / 8) % 2);
    } else if k == 1 {
        assert(n / weight == n / 4) by (nonlinear_arith)
            requires
                weight == 4,
        ;
        assert((n / 4) % 2 == (low / 4) % 2);
    } else if k == 2 {
        assert(n / weight == n / 2) by (nonlinear_arith)
            requires
                weight == 2,
        ;
        assert((n / 2) % 2 == (low / 2) % 2);
    } else {
        assert(n / weight == n) by (nonlinear_arith)
            requires
                weight == 1,
        ;
        assert(n % 2 == low % 2);
    }
}

/// The toggles of a code point are its binary digits, most significant first:
/// toggle `i` of `len` is on exactly if the digit of weight two to the
/// `len - 1 - i` is one.
pub proof fn lemma_bits_are_binary_digits(code: nat, i: int)
    requires
        0 <= i < bits_of(code).len(),
    ensures
        bits_of(code)[i] == ((code / pow2((bits_of(code).len() - 1 - i) as nat)) % 2 == 1),
    decreases code,
{
    let len = bits_of(code).len() as int;
    let weight = (len - 1 - i) as nat;
    if code < 16 {
        assert(nibbles(code) =~= seq![code]);
        assert(code % 16 == code);
        lemma_lowest_nibble(code, i);
    } else {
        let upper = code / 16;
        lemma_hex_text(upper);
        let upper_len = bits_of(upper).len() as int;
        assert(len == upper_len + 4);
        if i < upper_len {
            lemma_bits_are_binary_digits(upper, i);
            let upper_weight = (upper_len - 1 - i) as nat;
            assert(nibbles(code)[i / 4] == nibbles(upper)[i / 4]);
            assert(bits_of(code)[i] == bits_of(upper)[i]);
            assert(weight == upper_weight + 4);
            lemma2_to64();
            lemma_pow2_adds(upper_weight, 4);
            lemma_pow2_pos(upper_weight);
            assert(pow2(weight) == 16 * pow2(upper_weight)) by (nonlinear_arith)
                requires
                    pow2(weight) == pow2(upper_weight) * pow2(4),
                    pow2(4) == 16,
            ;
            lemma_div_denominator(code as int, 16, pow2(upper_weight) as int);
            assert(code / pow2(weight) == upper / pow2(upper_weight));
        } else {
            let k = i - upper_len;
            assert(i / 4 == upper_len / 4);
            assert(i % 4 == k);
            assert(nibbles(code)[i / 4] == code % 16);
            assert(weight == 3 - k);
            lemma_lowest_nibble(code, k);
        }
    }
}

/// A code point of 16 or more has at least two hexadecimal digits, hence at
/// least eight toggles.
pub proof fn lemma_eight_bits(code: nat)
    requires
        code >= 16,
    ensures
        bits_of(code).len() >= 8,
{
    lemma_hex_text(code / 16);
}

/// The lower-case hexadecimal digit for a number below 16.
fn hex_digit(v: u8) -> (c: char)
    requires
        v < 16,
    ensures
        c == hex_char(v as nat),
{
    if v < 10 {
        (48 + v) as char
    } else {
        (87 + v) as char
    }
}

/// Appends `n` in lower-case hexadecimal to `out`.
fn push_hex(n: u32, out: &mut Vec<char>)
    ensures
        final(out)@ == old(out)@ + hex_text(n as nat),
    decreases n,
{
    if n >= 16 {
        push_hex(n / 16, out);
    }
    out.push(hex_digit((n % 16) as u8));
}

/// `n` in lower-case hexadecimal, without prefix or padding.
pub fn hex_lower(n: u32) -> (hex: Vec<char>)
    ensures
        hex@ == hex_text(n as nat),
{
    let mut hex: Vec<char> = Vec::new();
    push_hex(n, &mut hex);
    hex
}

/// Calls `to_binary::BinaryString::from_hex` and hands out the characters of the
/// string it holds. Trusted: the crate decodes each pair of hexadecimal digits to
/// a byte and prints each byte as eight binary digits, so every digit of the
/// input becomes its four binary digits, in order. The crate stops the program
/// on a text of odd length or with a character that is no hexadecimal digit,
/// which the `requires` leaves out; on every other text it returns `Ok`.
#[verifier::external_body]
fn binary_digits(hex: &Vec<char>) -> (binary: Option<Vec<char>>)
    requires
        hex@.len() % 2 == 0,
        forall|i: int| 0 <= i < hex@.len() ==> is_hex_digit(#[trigger] hex@[i]),
    ensures
        binary is Some,
        binary->0@ == binary_text(hex@),
{
    let text: String = hex.iter().collect();
    match BinaryString::from_hex(text) {
        Ok(binary) => Some(binary.0.chars().collect()),
        Err(_) => None,
    }
}

/// The toggles of the binary digits from position `from` on.
pub fn toggles(binary: &Vec<char>, from: usize) -> (bits: Vec<bool>)
    requires
        from <= binary@.len(),
    ensures
        bits@.len() == binary@.len() - from,
        forall|i: int| 0 <= i < bits@.len() ==> bits@[i] == toggle(binary@[from + i]),
{
    let mut bits: Vec<bool> = Vec::new();
    let mut at: usize = from;
    while at < binary.len()
        invariant
            from <= at <= binary@.len(),
            bits@.len() == at - from,
            forall|i: int| 0 <= i < bits@.len() ==> bits@[i] == toggle(binary@[from + i]),
        decreases binary@.len() - at,
    {
        bits.push(!(binary[at] == '0'));
        at = at + 1;
    }
    bits
}

/// The toggles of a letter: the binary digits of its code point, four for each
/// hexadecimal digit, most significant first.
pub fn letter_bits(letter: char) -> (bits: Vec<bool>)
    ensures
        bits@ == bits_of(letter as nat),
{
    let code: u32 = letter as u32;
    let hex: Vec<char> = hex_lower(code);
    proof {
        lemma_hex_text(code as nat);
    }
    let odd: bool = hex.len() % 2 == 1;
    let mut padded: Vec<char> = Vec::new();
    if odd {
        padded.push('0');
    }
    let lead: usize = padded.len();
    let mut text: Vec<char> = hex;
    padded.append(&mut text);
    assert(padded@.len() == lead + hex_text(code as nat).len());
    assert forall|i: int| 0 <= i < padded@.len() implies is_hex_digit(#[trigger] padded@[i]) by {
        if i >= lead {
            assert(padded@[i] == hex_text(code as nat)[i - lead]);
            assert(nibbles(code as nat)[i - lead] < 16);
        } else {
            assert(padded@[i] == '0');
        }
    }
    match binary_digits(&padded) {
        Some(digits) => {
            let bits: Vec<bool> = toggles(&digits, 4 * lead);
            proof {
                let want = bits_of(code as nat);
                assert(bits@.len() == want.len());
                assert forall|i: int| 0 <= i < want.len() implies bits@[i] == want[i] by {
                    let at = 4 * lead + i;
                    assert(at / 4 == lead + i / 4);
                    assert(at % 4 == i % 4);
                    assert(padded@[at / 4] == hex_text(code as nat)[i / 4]);
                    assert(nibbles(code as nat)[i / 4] < 16);
                }
                assert(bits@ =~= want);
            }
            bits
        },
        None => Vec::new(),
    }
}

} // verus!
