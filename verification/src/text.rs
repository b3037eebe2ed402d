use vstd::prelude::*;

verus! {

/// Appends one character to a string.
///
/// Trusted: this is `String::push` of the standard library, which is
/// documented to append the given character to the end of the string.
#[verifier::external_body]
pub(crate) fn push_char(text: &mut String, c: char)
    ensures
        final(text)@ == old(text)@.push(c),
{
    text.push(c)
}

/// Reads bytes as UTF-8 text, where they are such text.
///
/// Trusted: this is `String::from_utf8` of the standard library, which is
/// documented to return the bytes as a string where they are valid UTF-8, and
/// an error where they are not.
#[verifier::external_body]
pub(crate) fn utf8_text(bytes: Vec<u8>) -> (r: Option<String>)
    ensures
        r is Some <==> vstd::utf8::valid_utf8(bytes@),
        r matches Some(text) ==> text@ == vstd::utf8::decode_utf8(bytes@),
{
    String::from_utf8(bytes).ok()
}

/// The character that writes a digit below ten.
pub open spec fn digit_char(d: nat) -> char {
    ('0' as u8 + d) as char
}

/// The decimal notation of a natural number, without leading zeros.
pub open spec fn decimal(n: nat) -> Seq<char>
    decreases n,
{
    if n < 10 {
        seq![digit_char(n)]
    } else {
        decimal(n / 10).push(digit_char(n % 10))
    }
}

/// The decimal notation of an integer: a minus sign before a negative number.
pub open spec fn signed_decimal(i: int) -> Seq<char> {
    if i < 0 {
        seq!['-'] + decimal((-i) as nat)
    } else {
        decimal(i as nat)
    }
}

/// Appends the decimal notation of `n` to `text`.
pub fn push_decimal(text: &mut String, n: u128)
    ensures
        final(text)@ == old(text)@ + decimal(n as nat),
{
    // The digits after the first, least significant first.
    let mut digits: Vec<u8> = Vec::new();
    let mut left: u128 = n;
    let ghost mut suffix: Seq<char> = Seq::empty();
    while left >= 10
        invariant
            suffix.len() == digits.len(),
            forall|j: int| 0 <= j < digits.len() ==> digits[j] < 10,
            forall|j: int|
                0 <= j < digits.len() ==> suffix[j] == digit_char(
                    digits[digits.len() - 1 - j] as nat,
                ),
            decimal(n as nat) == decimal(left as nat) + suffix,
        decreases left,
    {
        proof {
            let digit = digit_char((left % 10) as nat);
            assert(decimal(left as nat).push(digit) + suffix =~= decimal(left as nat) + (seq![digit]
                + suffix));
            suffix = seq![digit] + suffix;
        }
        digits.push((left % 10) as u8);
        left = left / 10;
    }
    push_char(text, (0x30u8 + left as u8) as char);
    let mut i: usize = digits.len();
    while i > 0
        invariant
            i <= digits.len(),
            suffix.len() == digits.len(),
            forall|j: int| 0 <= j < digits.len() ==> digits[j] < 10,
            forall|j: int|
                0 <= j < digits.len() ==> suffix[j] == digit_char(
                    digits[digits.len() - 1 - j] as nat,
                ),
            text@ == old(text)@ + decimal(left as nat) + suffix.take(digits.len() - i),
        decreases i,
    {
        i -= 1;
        push_char(text, (0x30u8 + digits[i]) as char);
        assert(suffix.take(digits.len() - i) =~= suffix.take(digits.len() - i - 1).push(
            suffix[digits.len() - i - 1],
        ));
    }
    assert(suffix.take(digits.len() as int) =~= suffix);
    assert(old(text)@ + decimal(left as nat) + suffix =~= old(text)@ + (decimal(left as nat)
        + suffix));
}

/// Appends the decimal notation of `value` to `text`, with a minus sign before
/// a negative number.
pub fn push_signed_decimal(text: &mut String, value: i128)
    ensures
        final(text)@ == old(text)@ + signed_decimal(value as int),
{
    if value < 0 {
        push_char(text, '-');
        let magnitude: u128 = (-(value + 1)) as u128 + 1;
        push_decimal(text, magnitude);
        assert(text@ =~= old(text)@ + signed_decimal(value as int));
    } else {
        push_decimal(text, value as u128);
    }
}

} // verus!
