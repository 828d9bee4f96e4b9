//! Decimal numbers as text.

use vstd::prelude::*;

verus! {

/// The decimal digit for a number below 10.
pub open spec fn digit_char(digit: int) -> char {
    if digit == 0 {
        '0'
    } else if digit == 1 {
        '1'
    } else if digit == 2 {
        '2'
    } else if digit == 3 {
        '3'
    } else if digit == 4 {
        '4'
    } else if digit == 5 {
        '5'
    } else if digit == 6 {
        '6'
    } else if digit == 7 {
        '7'
    } else if digit == 8 {
        '8'
    } else {
        '9'
    }
}

/// The decimal digits of a number, without leading zeros.
pub open spec fn decimal(number: nat) -> Seq<char>
    decreases number,
{
    if number < 10 {
        seq![digit_char(number as int)]
    } else {
        decimal(number / 10).push(digit_char((number % 10) as int))
    }
}

/// `String::push` appends one character to the string.
#[verifier::external_body]
pub(crate) fn push_char(text: &mut String, character: char)
    ensures
        final(text)@ == old(text)@.push(character),
{
    text.push(character);
}

/// Append the decimal digits of `number` to `text`
pub fn push_decimal(text: &mut String, number: u64)
    ensures
        final(text)@ == old(text)@ + decimal(number as nat),
{
    let mut digits: Vec<char> = Vec::new();
    let mut rest: u64 = number;

    let ghost before = text@;
    while rest >= 10
        invariant
            decimal(number as nat) == decimal(rest as nat) + digits@.reverse(),
        decreases rest,
    {
        let digit: u64 = rest % 10;
        proof {
            assert((decimal((rest / 10) as nat).push(digit_char(digit as int)) + digits@.reverse())
                =~= decimal((rest / 10) as nat) + digits@.push(
                digit_char(digit as int),
            ).reverse());
        }
        digits.push(digit_to_char(digit));
        rest = rest / 10;
    }
    push_char(text, digit_to_char(rest));

    let mut left: usize = digits.len();
    while left > 0
        invariant
            left <= digits.len(),
            text@ == before + decimal(rest as nat) + digits@.reverse().take(digits.len() - left),
        decreases left,
    {
        left -= 1;
        push_char(text, digits[left]);
        proof {
            let reversed = digits@.reverse();
            assert(reversed.take(digits.len() - left) =~= reversed.take(
                digits.len() - left - 1,
            ).push(digits@[left as int]));
        }
    }
    proof {
        assert(digits@.reverse().take(digits.len() as int) =~= digits@.reverse());
        assert(before + decimal(rest as nat) + digits@.reverse() =~= before + (decimal(rest as nat)
            + digits@.reverse()));
    }
}

/// The decimal digit for a number below 10
pub fn digit_to_char(digit: u64) -> (character: char)
    requires
        digit < 10,
    ensures
        character == digit_char(digit as int),
{
    if digit == 0 {
        '0'
    } else if digit == 1 {
        '1'
    } else if digit == 2 {
        '2'
    } else if digit == 3 {
        '3'
    } else if digit == 4 {
        '4'
    } else if digit == 5 {
        '5'
    } else if digit == 6 {
        '6'
    } else if digit == 7 {
        '7'
    } else if digit == 8 {
        '8'
    } else {
        '9'
    }
}

} // verus!
