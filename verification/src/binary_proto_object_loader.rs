use crate::text::push_char;
use std::num::ParseIntError;
use vstd::prelude::*;

verus! {

#[verifier::external_type_specification]
#[verifier::external_body]
pub struct ExParseIntError(ParseIntError);

/// True for the characters that Unicode lists as white space.
pub open spec fn is_whitespace(c: char) -> bool {
    let code = c as u32;
    ||| 0x09 <= code <= 0x0d
    ||| code == 0x20
    ||| code == 0x85
    ||| code == 0xa0
    ||| code == 0x1680
    ||| 0x2000 <= code <= 0x200a
    ||| code == 0x2028
    ||| code == 0x2029
    ||| code == 0x202f
    ||| code == 0x205f
    ||| code == 0x3000
}

/// True for the characters that may stand anywhere in a list and mean
/// nothing: space, line feed and tab.
pub open spec fn is_blank(c: char) -> bool {
    c == ' ' || c == '\n' || c == '\t'
}

/// The text without the white space at its end.
pub open spec fn trim_end(text: Seq<char>) -> Seq<char>
    decreases text.len(),
{
    if text.len() > 0 && is_whitespace(text.last()) {
        trim_end(text.drop_last())
    } else {
        text
    }
}

/// The text without the comma at its end, where it ends in one.
pub open spec fn without_last_comma(text: Seq<char>) -> Seq<char> {
    if text.len() > 0 && text.last() == ',' {
        text.drop_last()
    } else {
        text
    }
}

/// The text without its blanks.
pub open spec fn without_blanks(text: Seq<char>) -> Seq<char>
    decreases text.len(),
{
    if text.len() == 0 {
        text
    } else if is_blank(text.last()) {
        without_blanks(text.drop_last())
    } else {
        without_blanks(text.drop_last()).push(text.last())
    }
}

/// The pieces into which the commas cut the text. A text without a comma is
/// one piece, and so is the empty text.
pub open spec fn tokens(text: Seq<char>) -> Seq<Seq<char>>
    decreases text.len(),
{
    if text.len() == 0 {
        seq![Seq::empty()]
    } else {
        let before = tokens(text.drop_last());
        if text.last() == ',' {
            before.push(Seq::empty())
        } else {
            before.drop_last().push(before.last().push(text.last()))
        }
    }
}

/// True for the ten decimal digits.
pub open spec fn is_digit(c: char) -> bool {
    '0' <= c <= '9'
}

/// The number that decimal digits spell.
pub open spec fn digits_value(digits: Seq<char>) -> nat
    decreases digits.len(),
{
    if digits.len() == 0 {
        0
    } else {
        10 * digits_value(digits.drop_last()) + (digits.last() as u32 - '0' as u32) as nat
    }
}

/// True where the text holds decimal digits only.
pub open spec fn all_digits(text: Seq<char>) -> bool {
    forall|i: int| 0 <= i < text.len() ==> is_digit(#[trigger] text[i])
}

/// The text without the plus sign at its head, where it begins with one.
pub open spec fn without_plus(text: Seq<char>) -> Seq<char> {
    if text.len() > 0 && text[0] == '+' {
        text.skip(1)
    } else {
        text
    }
}

/// The byte that a piece of text spells: an optional plus sign, then one or
/// more decimal digits, whose number is at most 255. Any other text spells
/// none.
pub open spec fn byte_of(token: Seq<char>) -> Option<u8> {
    let digits = without_plus(token);
    if digits.len() > 0 && all_digits(digits) && digits_value(digits) <= 255 {
        Some(digits_value(digits) as u8)
    } else {
        None
    }
}

/// The bytes that pieces of text spell, where every piece spells one.
pub open spec fn bytes_of(pieces: Seq<Seq<char>>) -> Option<Seq<u8>> {
    if forall|i: int| 0 <= i < pieces.len() ==> byte_of(#[trigger] pieces[i]) is Some {
        Some(Seq::new(pieces.len(), |i: int| byte_of(pieces[i])->0))
    } else {
        None
    }
}

/// The bytes that a list in text form holds.
///
/// White space at the end of the text is dropped, then one comma at the end,
/// then every blank. What is left is cut at its commas, and every piece must
/// spell a byte.
pub open spec fn byte_list(source: Seq<char>) -> Option<Seq<u8>> {
    bytes_of(tokens(without_blanks(without_last_comma(trim_end(source)))))
}

/// Reads a piece of text as a byte.
///
/// Trusted: this is `str::parse::<u8>` of the standard library, that is
/// `u8::from_str`. It is documented to expect an optional plus sign followed
/// by decimal digits only, and to fail on an empty string, on any other
/// character, and on a number that does not fit.
#[verifier::external_body]
pub(crate) fn parse_u8(token: &str) -> (r: Result<u8, ParseIntError>)
    ensures
        r is Ok <==> byte_of(token@) is Some,
        r matches Ok(byte) ==> byte_of(token@) == Some(byte),
{
    token.parse::<u8>()
}

fn is_whitespace_char(c: char) -> (r: bool)
    ensures
        r == is_whitespace(c),
{
    let code: u32 = c as u32;
    (0x09 <= code && code <= 0x0d) || code == 0x20 || code == 0x85 || code == 0xa0 || code
        == 0x1680 || (0x2000 <= code && code <= 0x200a) || code == 0x2028 || code == 0x2029
        || code == 0x202f || code == 0x205f || code == 0x3000
}

fn chars_of(source: &str) -> (r: Vec<char>)
    ensures
        r@ == source@,
{
    let mut chars: Vec<char> = Vec::new();
    for c in it: source.chars()
        invariant
            chars@ == it.seq().take(it.index() as int),
            it.seq() == source@,
    {
        chars.push(c);
    }
    chars
}

/// The pieces that are complete after a part of the text stay as they are
/// when more text follows.
proof fn lemma_tokens_grow(text: Seq<char>, i: int, j: int)
    requires
        0 <= i <= j <= text.len(),
    ensures
        tokens(without_blanks(text.take(i))).len() <= tokens(without_blanks(text.take(j))).len(),
        forall|k: int|
            0 <= k < tokens(without_blanks(text.take(i))).len() - 1 ==> tokens(
                without_blanks(text.take(j)),
            )[k] == #[trigger] tokens(without_blanks(text.take(i)))[k],
    decreases j - i,
{
    lemma_tokens_nonempty(without_blanks(text.take(i)));
    if i < j {
        lemma_tokens_grow(text, i, j - 1);
        lemma_tokens_step(text, j - 1);
        lemma_tokens_nonempty(without_blanks(text.take(j - 1)));
    }
}

proof fn lemma_tokens_nonempty(text: Seq<char>)
    ensures
        tokens(text).len() >= 1,
    decreases text.len(),
{
    if text.len() > 0 {
        lemma_tokens_nonempty(text.drop_last());
    }
}

/// What one more character does to the pieces.
proof fn lemma_tokens_step(text: Seq<char>, i: int)
    requires
        0 <= i < text.len(),
    ensures
        ({
            let before = tokens(without_blanks(text.take(i)));
            let after = tokens(without_blanks(text.take(i + 1)));
            if text[i] == ',' {
                after == before.push(Seq::empty())
            } else if is_blank(text[i]) {
                after == before
            } else {
                after == before.drop_last().push(before.last().push(text[i]))
            }
        }),
{
    let upto = text.take(i + 1);
    assert(upto.drop_last() =~= text.take(i));
    assert(upto.last() == text[i]);
    if !is_blank(text[i]) {
        let cleaned = without_blanks(upto);
        assert(cleaned.drop_last() =~= without_blanks(text.take(i)));
        assert(cleaned.last() == text[i]);
    }
}

/// Reads a list of bytes in text form: decimal numbers from 0 to 255,
/// separated by commas. Spaces, tabs and line feeds may stand anywhere, and a
/// comma may end the list. Fails where a piece between two commas is not such
/// a number.
pub fn parse_u8_vec_from_string_with_integers(source: &str) -> (r: Result<Vec<u8>, ParseIntError>)
    ensures
        match byte_list(source@) {
            Some(bytes) => r matches Ok(list) && list@ == bytes,
            None => r is Err,
        },
{
    let chars = chars_of(source);
    let mut end: usize = chars.len();
    assert(chars@.take(end as int) =~= chars@);
    while end > 0 && is_whitespace_char(chars[end - 1])
        invariant
            end <= chars.len(),
            trim_end(chars@) == trim_end(chars@.take(end as int)),
        decreases end,
    {
        assert(chars@.take(end as int).drop_last() =~= chars@.take(end - 1));
        end -= 1;
    }
    if end > 0 && chars[end - 1] == ',' {
        assert(chars@.take(end as int).drop_last() =~= chars@.take(end - 1));
        end -= 1;
    }
    let ghost text = chars@.take(end as int);
    assert(text == without_last_comma(trim_end(source@))) by {
        assert(chars@.take(chars.len() as int) =~= chars@);
    }
    let mut bytes: Vec<u8> = Vec::new();
    let mut token = String::new();
    let mut i: usize = 0;
    assert(text.take(0) =~= Seq::<char>::empty());
    while i < end
        invariant
            i <= end <= chars.len(),
            text == chars@.take(end as int),
            text == without_last_comma(trim_end(source@)),
            tokens(without_blanks(text.take(i as int))).len() == bytes.len() + 1,
            tokens(without_blanks(text.take(i as int))).last() == token@,
            forall|k: int|
                0 <= k < bytes.len() ==> byte_of(
                    #[trigger] tokens(without_blanks(text.take(i as int)))[k],
                ) == Some(bytes[k]),
        decreases end - i,
    {
        let c = chars[i];
        proof {
            lemma_tokens_step(text, i as int);
        }
        if c == ',' {
            match parse_u8(token.as_str()) {
                Ok(byte) => {
                    bytes.push(byte);
                },
                Err(error) => {
                    proof {
                        lemma_tokens_grow(text, i + 1, end as int);
                        assert(text.take(end as int) =~= text);
                        let all = tokens(without_blanks(text));
                        let k = bytes.len() as int;
                        assert(all[k] == tokens(without_blanks(text.take(i + 1)))[k]);
                        assert(byte_of(all[k]) is None);
                    }
                    return Err(error);
                },
            }
            token = String::new();
        } else if !(c == ' ' || c == '\n' || c == '\t') {
            push_char(&mut token, c);
        }
        i += 1;
    }
    assert(text.take(end as int) =~= text);
    match parse_u8(token.as_str()) {
        Ok(byte) => {
            bytes.push(byte);
            proof {
                let all = tokens(without_blanks(text));
                assert(bytes_of(all) is Some);
                assert(bytes@ =~= bytes_of(all)->0);
            }
            Ok(bytes)
        },
        Err(error) => {
            proof {
                let all = tokens(without_blanks(text));
                assert(byte_of(all[all.len() - 1]) is None);
            }
            Err(error)
        },
    }
}

} // verus!
