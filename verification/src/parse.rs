//! Offsets as they are written in text.
use core::num::ParseIntError;
use core::str::FromStr;

use vstd::prelude::*;

use crate::address::RawAddress;

verus! {

/// The error of std for text that is no number.
#[verifier::external_type_specification]
#[verifier::external_body]
pub struct ExParseIntError(ParseIntError);

/// The value of a digit, if it is one: the letters count on from ten.
pub open spec fn digit_value(digit: char, radix: int) -> Option<int> {
    let value = if '0' <= digit <= '9' {
        digit as int - '0' as int
    } else if 'a' <= digit <= 'z' {
        digit as int - 'a' as int + 10
    } else if 'A' <= digit <= 'Z' {
        digit as int - 'A' as int + 10
    } else {
        radix
    };
    if value < radix {
        Some(value)
    } else {
        None
    }
}

/// Whether there are only digits.
pub open spec fn only_digits(digits: Seq<char>, radix: int) -> bool {
    forall|i: int| 0 <= i < digits.len() ==> digit_value(#[trigger] digits[i], radix) is Some
}

/// The number that digits stand for.
pub open spec fn number(digits: Seq<char>, radix: int) -> int
    decreases digits.len(),
{
    if digits.len() == 0 {
        0
    } else {
        number(digits.drop_last(), radix) * radix + digit_value(digits.last(), radix)->0
    }
}

/// The digits of a number that may begin with a plus sign.
pub open spec fn unsigned_part(text: Seq<char>) -> Seq<char> {
    if text.len() > 0 && text[0] == '+' {
        text.skip(1)
    } else {
        text
    }
}

/// What text stands for, if it is a number that fits into 64 bits: at least one digit and
/// nothing else, but for a plus sign in front.
pub open spec fn read_number(text: Seq<char>, radix: int) -> Option<int> {
    let digits = unsigned_part(text);
    if digits.len() > 0 && only_digits(digits, radix) && number(digits, radix) <= u64::MAX {
        Some(number(digits, radix))
    } else {
        None
    }
}

/// `str::parse` reads a decimal number of 64 bits: an optional plus sign and then digits only.
#[verifier::external_body]
fn parse_decimal(text: &str) -> (value: Result<u64, ParseIntError>)
    ensures
        value is Ok == (read_number(text@, 10) is Some),
        value matches Ok(v) ==> read_number(text@, 10) == Some(v as int),
{
    text.parse::<u64>()
}

/// `u64::from_str_radix` reads a number of 64 bits to a base, here sixteen: an optional plus
/// sign and then digits only, where letters of both cases are digits.
#[verifier::external_body]
fn parse_hexadecimal(text: &str) -> (value: Result<u64, ParseIntError>)
    ensures
        value is Ok == (read_number(text@, 16) is Some),
        value matches Ok(v) ==> read_number(text@, 16) == Some(v as int),
{
    u64::from_str_radix(text, 16)
}

/// `str::strip_prefix` gives the text behind a prefix, if it begins with that.
#[verifier::external_body]
fn without_prefix<'a>(text: &'a str, prefix: &str) -> (rest: Option<&'a str>)
    ensures
        rest is Some == prefix@.is_prefix_of(text@),
        rest matches Some(r) ==> r@ == text@.skip(prefix@.len() as int),
{
    text.strip_prefix(prefix)
}

/// The offset that text stands for: sixteen is the base behind `0x` or `0X`, else ten.
pub open spec fn read_offset(text: Seq<char>) -> Option<int> {
    if text.len() >= 2 && text[0] == '0' && (text[1] == 'x' || text[1] == 'X') {
        read_number(text.skip(2), 16)
    } else {
        read_number(text, 10)
    }
}

/// Text begins with two characters where they are its first.
proof fn lemma_begins(text: Seq<char>, prefix: Seq<char>)
    requires
        prefix.len() == 2,
    ensures
        prefix.is_prefix_of(text) <==> text.len() >= 2 && text[0] == prefix[0] && text[1]
            == prefix[1],
{
    if prefix.is_prefix_of(text) {
        assert(text.subrange(0, 2)[0] == prefix[0]);
        assert(text.subrange(0, 2)[1] == prefix[1]);
    }
    if text.len() >= 2 && text[0] == prefix[0] && text[1] == prefix[1] {
        assert(prefix =~= text.subrange(0, 2));
    }
}

impl RawAddress {
    /// Reads an offset.
    pub fn parse(text: &str) -> (address: Result<Self, ParseIntError>)
        ensures
            match address {
                Ok(a) => read_offset(text@) == Some(a.0 as int),
                Err(_) => read_offset(text@) is None,
            },
    {
        proof {
            reveal_strlit("0x");
            reveal_strlit("0X");
            lemma_begins(text@, "0x"@);
            lemma_begins(text@, "0X"@);
        }
        let value: Result<u64, ParseIntError> = match without_prefix(text, "0x") {
            Some(digits) => parse_hexadecimal(digits),
            None => match without_prefix(text, "0X") {
                Some(digits) => parse_hexadecimal(digits),
                None => parse_decimal(text),
            },
        };
        match value {
            Ok(value) => Ok(RawAddress(value)),
            Err(error) => Err(error),
        }
    }
}

impl FromStr for RawAddress {
    type Err = ParseIntError;

    fn from_str(value: &str) -> Result<Self, ParseIntError> {
        RawAddress::parse(value)
    }
}

/// A digit more behind a number shifts it by one place and adds the digit, as long as it fits;
/// anything else behind it makes it no number.
pub proof fn law_digit_shifts_number(digits: Seq<char>, digit: char, radix: int)
    requires
        digits.len() > 0,
        digits[0] != '+',
        only_digits(digits, radix),
        0 < radix,
    ensures
        digit_value(digit, radix) is None ==> read_number(digits.push(digit), radix) is None,
        digit_value(digit, radix) matches Some(value) ==> (number(digits, radix) * radix + value
            <= u64::MAX ==> read_number(digits.push(digit), radix) == Some(
            number(digits, radix) * radix + value,
        )),
{
    let more = digits.push(digit);
    assert(more[0] == digits[0]);
    assert(more.drop_last() =~= digits);
    assert(more.last() == digit);
    if digit_value(digit, radix) is Some {
        assert forall|i: int| 0 <= i < more.len() implies digit_value(#[trigger] more[i], radix)
            is Some by {
            if i < digits.len() {
                assert(more[i] == digits[i]);
            }
        }
    } else {
        assert(digit_value(more[digits.len() as int], radix) is None);
    }
}

/// Text behind `0x` or `0X` is read in base sixteen and any other in base ten, a plus sign in
/// front makes no difference, nothing is no number, and letters count the same in both cases.
pub proof fn law_prefix_gives_base(text: Seq<char>, upper: bool, digit: char, radix: int)
    ensures
        read_offset(
            seq!['0', if upper {
                'X'
            } else {
                'x'
            }] + text,
        ) == read_number(text, 16),
        text.len() > 0 && text[0] != '0' ==> read_offset(text) == read_number(text, 10),
        text.len() > 0 && text[0] != '+' ==> read_number(seq!['+'] + text, radix) == read_number(
            text,
            radix,
        ),
        read_number(Seq::empty(), radix) is None,
        read_offset(Seq::empty()) is None,
        digit_value('a', 16) == Some(10int) && digit_value('A', 16) == Some(10int),
        digit_value('f', 16) == Some(15int) && digit_value('F', 16) == Some(15int),
        digit_value('g', 16) is None && digit_value('a', 10) is None,
        digit_value('0', 10) == Some(0int) && digit_value('9', 10) == Some(9int),
{
    let prefixed = seq!['0', if upper {
        'X'
    } else {
        'x'
    }] + text;
    assert(prefixed.skip(2) =~= text);
    assert((seq!['+'] + text).skip(1) =~= text);
}

} // verus!
