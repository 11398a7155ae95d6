//! Building text: characters appended to strings, and numbers written out.

use vstd::prelude::*;
use vstd::string::StringExecFns;

verus! {

/// Appends one character to a string, as `String::push` of the standard
/// library is documented to do.
pub assume_specification[ std::string::String::push ](text: &mut std::string::String, ch: char)
    ensures
        final(text)@ == old(text)@.push(ch),
;

/// The character that stands for the digit `digit`.
pub open spec fn digit_char(digit: nat) -> char {
    ((48 + digit) as u8) as char
}

/// `number` written in decimal digits, without leading zeros.
pub open spec fn decimal_text(number: nat) -> Seq<char>
    decreases number,
{
    if number < 10 {
        seq![digit_char(number)]
    } else {
        decimal_text(number / 10).push(digit_char(number % 10))
    }
}

/// Appends `number`, written in decimal digits, to `text`.
pub fn push_decimal(text: &mut String, number: u128)
    ensures
        final(text)@ == old(text)@ + decimal_text(number as nat),
    decreases number,
{
    if number >= 10 {
        push_decimal(text, number / 10);
    }
    let digit: u8 = (number % 10) as u8;
    text.push((48 + digit) as char);
    proof {
        if number >= 10 {
            assert(text@ =~= old(text)@ + decimal_text(number as nat));
        } else {
            assert(text@ =~= old(text)@ + decimal_text(number as nat));
        }
    }
}

/// An integer written in decimal digits, with a minus sign before it where
/// it is below zero.
pub open spec fn signed_text(number: int) -> Seq<char> {
    if number < 0 {
        seq!['-'] + decimal_text((-number) as nat)
    } else {
        decimal_text(number as nat)
    }
}

/// Appends `number`, written in decimal digits and with its sign, to
/// `text`.
pub fn push_signed(text: &mut String, number: i64)
    ensures
        final(text)@ == old(text)@ + signed_text(number as int),
{
    if number < 0 {
        text.push('-');
        let size: u128 = (-(number as i128)) as u128;
        push_decimal(text, size);
        proof {
            assert(text@ =~= old(text)@ + signed_text(number as int));
        }
    } else {
        push_decimal(text, number as u128);
    }
}

/// An identifier as it is written in messages: number and generation in
/// round brackets.
pub open spec fn id_text(number: u32, generation: u16) -> Seq<char> {
    seq!['('] + decimal_text(number as nat) + seq![',', ' '] + decimal_text(generation as nat)
        + seq![')']
}

/// Appends an identifier, as it is written in messages, to `text`.
pub fn push_id(text: &mut String, number: u32, generation: u16)
    ensures
        final(text)@ == old(text)@ + id_text(number, generation),
{
    text.push('(');
    push_decimal(text, number as u128);
    text.push(',');
    text.push(' ');
    push_decimal(text, generation as u128);
    text.push(')');
    proof {
        assert(text@ =~= old(text)@ + id_text(number, generation));
    }
}

} // verus!
