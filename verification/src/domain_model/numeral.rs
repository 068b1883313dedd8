//! Numerals: natural numbers written in base ten, read and written.

use vstd::prelude::*;

verus! {

/// `String::push` of the standard library: the string afterwards is the
/// string before with the character at its end.
pub assume_specification[ String::push ](text: &mut String, ch: char)
    ensures
        final(text)@ == old(text)@.push(ch),
;

/// The ten characters that make up a numeral.
pub open spec fn is_digit(ch: char) -> bool {
    '0' <= ch && ch <= '9'
}

/// The number that a digit stands for.
pub open spec fn digit_value(ch: char) -> nat {
    (ch as int - '0' as int) as nat
}

/// The number that a string of digits denotes in base ten; the empty string
/// denotes zero.
pub open spec fn decimal_value(digits: Seq<char>) -> nat
    decreases digits.len(),
{
    if digits.len() == 0 {
        0
    } else {
        10 * decimal_value(digits.drop_last()) + digit_value(digits.last())
    }
}

/// A non-empty string of digits.
pub open spec fn is_numeral(text: Seq<char>) -> bool {
    &&& text.len() > 0
    &&& forall|i: int| 0 <= i < text.len() ==> is_digit(#[trigger] text[i])
}

/// A numeral whose value a `usize` can hold.
pub open spec fn fits(text: Seq<char>) -> bool {
    is_numeral(text) && decimal_value(text) <= usize::MAX
}

/// Reading further digits never makes the value smaller.
pub proof fn lemma_decimal_value_grows(digits: Seq<char>, k: int)
    requires
        0 <= k <= digits.len(),
    ensures
        decimal_value(digits.take(k)) <= decimal_value(digits),
    decreases digits.len() - k,
{
    if k == digits.len() {
        assert(digits.take(k) =~= digits);
    } else {
        lemma_decimal_value_grows(digits, k + 1);
        assert(digits.take(k + 1).drop_last() =~= digits.take(k));
    }
}

/// A digit appended to digits makes a numeral, ten times the value plus the
/// digit.
pub proof fn lemma_digit_appended(digits: Seq<char>, ch: char)
    requires
        forall|i: int| 0 <= i < digits.len() ==> is_digit(#[trigger] digits[i]),
    ensures
        decimal_value(digits.push(ch)) == 10 * decimal_value(digits) + digit_value(ch),
        is_digit(ch) ==> is_numeral(digits.push(ch)),
{
    assert(digits.push(ch).drop_last() =~= digits);
}

/// Where a number fits, so does every non-empty beginning of it: a
/// character that is no digit, or digits whose value is already too large,
/// spoil the number however it goes on.
pub proof fn lemma_beginning_fits(begun: Seq<char>, more: Seq<char>)
    requires
        begun.len() > 0,
    ensures
        fits(begun + more) ==> fits(begun),
{
    let whole = begun + more;
    assert(whole.take(begun.len() as int) =~= begun);
    lemma_decimal_value_grows(whole, begun.len() as int);
    if !is_numeral(begun) {
        let i = choose|i: int| 0 <= i < begun.len() && !is_digit(#[trigger] begun[i]);
        assert(whole[i] == begun[i]);
    }
}

/// The value of a numeral, or `None` where the text is no numeral or its
/// value is too large.
pub fn parse_numeral(text: &str) -> (parsed: Option<usize>)
    ensures
        parsed is Some <==> fits(text@),
        parsed matches Some(value) ==> value == decimal_value(text@),
{
    let mut value: usize = 0;
    let mut empty = true;
    for ch in it: text.chars()
        invariant
            it.seq() == text@,
            empty <==> it.index() == 0,
            value == decimal_value(text@.take(it.index() as int)),
            forall|i: int| 0 <= i < it.index() ==> is_digit(#[trigger] text@[i]),
    {
        let ghost read = it.index() as int;
        proof {
            assert(text@.take(read + 1).drop_last() =~= text@.take(read));
            lemma_decimal_value_grows(text@, read + 1);
        }
        if !(ch >= '0' && ch <= '9') {
            return None;
        }
        let digit = (ch as u32 - '0' as u32) as usize;
        let next = match value.checked_mul(10) {
            Some(tenfold) => tenfold.checked_add(digit),
            None => None,
        };
        match next {
            Some(sum) => value = sum,
            None => return None,
        }
        empty = false;
    }
    proof {
        assert(text@.take(text@.len() as int) =~= text@);
    }
    if empty {
        None
    } else {
        Some(value)
    }
}

/// The character that stands for a number below ten.
pub open spec fn digit_char(digit: nat) -> char {
    ('0' as nat + digit) as char
}

/// The numeral that denotes a number in base ten, without leading zeros.
pub open spec fn decimal_digits(value: nat) -> Seq<char>
    decreases value,
{
    if value < 10 {
        seq![digit_char(value)]
    } else {
        decimal_digits(value / 10).push(digit_char(value % 10))
    }
}

/// The numeral of a number denotes that number.
pub proof fn lemma_decimal_digits_value(value: nat)
    ensures
        is_numeral(decimal_digits(value)),
        decimal_value(decimal_digits(value)) == value,
    decreases value,
{
    let digits = decimal_digits(value);
    if value < 10 {
        assert(digits.drop_last() =~= Seq::<char>::empty());
        assert(decimal_value(digits) == 10 * decimal_value(digits.drop_last()) + digit_value(
            digits.last(),
        ));
    } else {
        lemma_decimal_digits_value(value / 10);
        assert(digits.drop_last() =~= decimal_digits(value / 10));
    }
}

/// Appends the numeral of a number to a text.
pub fn push_decimal(text: &mut String, value: usize)
    ensures
        final(text)@ == old(text)@ + decimal_digits(value as nat),
    decreases value,
{
    if value >= 10 {
        push_decimal(text, value / 10);
    }
    let digit = (value % 10) as u8;
    text.push(('0' as u8 + digit) as char);
    proof {
        assert(text@ =~= old(text)@ + decimal_digits(value as nat));
    }
}

} // verus!
