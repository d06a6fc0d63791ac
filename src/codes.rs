//! The fixed tables of computation, destination and jump mnemonics.
use vstd::prelude::*;
use crate::text::is_word;

verus! {

/// The 7-bit code (`a` bit, then `c1`..`c6`) of a computation mnemonic.
pub open spec fn comp_code(m: Seq<char>) -> Option<u16> {
    if m.len() == 1 && m[0] == '0' {
        Some(0b0101010)
    } else if m.len() == 1 && m[0] == '1' {
        Some(0b0111111)
    } else if m == seq!['-', '1'] {
        Some(0b0111010)
    } else if m.len() == 1 && m[0] == 'D' {
        Some(0b0001100)
    } else if m.len() == 1 && m[0] == 'A' {
        Some(0b0110000)
    } else if m == seq!['!', 'D'] {
        Some(0b0001101)
    } else if m == seq!['!', 'A'] {
        Some(0b0110001)
    } else if m == seq!['-', 'D'] {
        Some(0b0001111)
    } else if m == seq!['-', 'A'] {
        Some(0b0110011)
    } else if m == seq!['D', '+', '1'] {
        Some(0b0011111)
    } else if m == seq!['A', '+', '1'] {
        Some(0b0110111)
    } else if m == seq!['D', '-', '1'] {
        Some(0b0001110)
    } else if m == seq!['A', '-', '1'] {
        Some(0b0110010)
    } else if m == seq!['D', '+', 'A'] {
        Some(0b0000010)
    } else if m == seq!['D', '-', 'A'] {
        Some(0b0010011)
    } else if m == seq!['A', '-', 'D'] {
        Some(0b0000111)
    } else if m == seq!['D', '&', 'A'] {
        Some(0b0000000)
    } else if m == seq!['D', '|', 'A'] {
        Some(0b0010101)
    } else if m.len() == 1 && m[0] == 'M' {
        Some(0b1110000)
    } else if m == seq!['!', 'M'] {
        Some(0b1110001)
    } else if m == seq!['-', 'M'] {
        Some(0b1110011)
    } else if m == seq!['M', '+', '1'] {
        Some(0b1110111)
    } else if m == seq!['M', '-', '1'] {
        Some(0b1110010)
    } else if m == seq!['D', '+', 'M'] {
        Some(0b1000010)
    } else if m == seq!['D', '-', 'M'] {
        Some(0b1010011)
    } else if m == seq!['M', '-', 'D'] {
        Some(0b1000111)
    } else if m == seq!['D', '&', 'M'] {
        Some(0b1000000)
    } else if m == seq!['D', '|', 'M'] {
        Some(0b1010101)
    } else {
        None
    }
}

/// The 3-bit code of a destination; no destination is `000`.
pub open spec fn dest_code(m: Seq<char>) -> Option<u16> {
    if m.len() == 0 {
        Some(0)
    } else if m.len() == 1 && m[0] == 'M' {
        Some(0b001)
    } else if m.len() == 1 && m[0] == 'D' {
        Some(0b010)
    } else if m == seq!['M', 'D'] {
        Some(0b011)
    } else if m.len() == 1 && m[0] == 'A' {
        Some(0b100)
    } else if m == seq!['A', 'M'] {
        Some(0b101)
    } else if m == seq!['A', 'D'] {
        Some(0b110)
    } else if m == seq!['A', 'M', 'D'] {
        Some(0b111)
    } else {
        None
    }
}

/// The 3-bit code of a jump condition; no jump is `000`.
pub open spec fn jump_code(m: Seq<char>) -> Option<u16> {
    if m.len() == 0 {
        Some(0)
    } else if m == seq!['J', 'G', 'T'] {
        Some(0b001)
    } else if m == seq!['J', 'E', 'Q'] {
        Some(0b010)
    } else if m == seq!['J', 'G', 'E'] {
        Some(0b011)
    } else if m == seq!['J', 'L', 'T'] {
        Some(0b100)
    } else if m == seq!['J', 'N', 'E'] {
        Some(0b101)
    } else if m == seq!['J', 'L', 'E'] {
        Some(0b110)
    } else if m == seq!['J', 'M', 'P'] {
        Some(0b111)
    } else {
        None
    }
}

/// Looks up a computation mnemonic.
pub fn comp_bits(m: &Vec<char>) -> (r: Option<u16>)
    ensures
        r == comp_code(m@),
{
    let s = m.as_slice();
    if s.len() == 1 && s[0] == '0' {
        Some(0b0101010)
    } else if s.len() == 1 && s[0] == '1' {
        Some(0b0111111)
    } else if is_word(s, &['-', '1']) {
        Some(0b0111010)
    } else if s.len() == 1 && s[0] == 'D' {
        Some(0b0001100)
    } else if s.len() == 1 && s[0] == 'A' {
        Some(0b0110000)
    } else if is_word(s, &['!', 'D']) {
        Some(0b0001101)
    } else if is_word(s, &['!', 'A']) {
        Some(0b0110001)
    } else if is_word(s, &['-', 'D']) {
        Some(0b0001111)
    } else if is_word(s, &['-', 'A']) {
        Some(0b0110011)
    } else if is_word(s, &['D', '+', '1']) {
        Some(0b0011111)
    } else if is_word(s, &['A', '+', '1']) {
        Some(0b0110111)
    } else if is_word(s, &['D', '-', '1']) {
        Some(0b0001110)
    } else if is_word(s, &['A', '-', '1']) {
        Some(0b0110010)
    } else if is_word(s, &['D', '+', 'A']) {
        Some(0b0000010)
    } else if is_word(s, &['D', '-', 'A']) {
        Some(0b0010011)
    } else if is_word(s, &['A', '-', 'D']) {
        Some(0b0000111)
    } else if is_word(s, &['D', '&', 'A']) {
        Some(0b0000000)
    } else if is_word(s, &['D', '|', 'A']) {
        Some(0b0010101)
    } else if s.len() == 1 && s[0] == 'M' {
        Some(0b1110000)
    } else if is_word(s, &['!', 'M']) {
        Some(0b1110001)
    } else if is_word(s, &['-', 'M']) {
        Some(0b1110011)
    } else if is_word(s, &['M', '+', '1']) {
        Some(0b1110111)
    } else if is_word(s, &['M', '-', '1']) {
        Some(0b1110010)
    } else if is_word(s, &['D', '+', 'M']) {
        Some(0b1000010)
    } else if is_word(s, &['D', '-', 'M']) {
        Some(0b1010011)
    } else if is_word(s, &['M', '-', 'D']) {
        Some(0b1000111)
    } else if is_word(s, &['D', '&', 'M']) {
        Some(0b1000000)
    } else if is_word(s, &['D', '|', 'M']) {
        Some(0b1010101)
    } else {
        None
    }
}

/// Looks up a destination.
pub fn dest_bits(m: &Vec<char>) -> (r: Option<u16>)
    ensures
        r == dest_code(m@),
{
    let s = m.as_slice();
    if s.len() == 0 {
        Some(0)
    } else if s.len() == 1 && s[0] == 'M' {
        Some(0b001)
    } else if s.len() == 1 && s[0] == 'D' {
        Some(0b010)
    } else if is_word(s, &['M', 'D']) {
        Some(0b011)
    } else if s.len() == 1 && s[0] == 'A' {
        Some(0b100)
    } else if is_word(s, &['A', 'M']) {
        Some(0b101)
    } else if is_word(s, &['A', 'D']) {
        Some(0b110)
    } else if is_word(s, &['A', 'M', 'D']) {
        Some(0b111)
    } else {
        None
    }
}

/// Looks up a jump condition.
pub fn jump_bits(m: &Vec<char>) -> (r: Option<u16>)
    ensures
        r == jump_code(m@),
{
    let s = m.as_slice();
    if s.len() == 0 {
        Some(0)
    } else if is_word(s, &['J', 'G', 'T']) {
        Some(0b001)
    } else if is_word(s, &['J', 'E', 'Q']) {
        Some(0b010)
    } else if is_word(s, &['J', 'G', 'E']) {
        Some(0b011)
    } else if is_word(s, &['J', 'L', 'T']) {
        Some(0b100)
    } else if is_word(s, &['J', 'N', 'E']) {
        Some(0b101)
    } else if is_word(s, &['J', 'L', 'E']) {
        Some(0b110)
    } else if is_word(s, &['J', 'M', 'P']) {
        Some(0b111)
    } else {
        None
    }
}

} // verus!
