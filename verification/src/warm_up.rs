//! A first go at reading a number out of source text, a byte at a time (each byte read
//! as the character with that code).
use vstd::prelude::*;
use vstd::string::StringSliceAdditionalSpecFns;
use crate::text::{is_whitespace_spec, is_digit_spec, is_digit, is_whitespace};

verus! {

/// The bytes of a text, each read as the character with that code.
pub open spec fn byte_chars(s: &str) -> Seq<char> {
    s.spec_bytes().map_values(|b: u8| b as char)
}

/// The first index from `index` on whose byte-character is not a digit, or the end.
pub open spec fn digits_end(c: Seq<char>, index: int) -> int
    decreases c.len() - index,
{
    if index >= c.len() || !is_digit_spec(c[index]) {
        index
    } else {
        digits_end(c, index + 1)
    }
}

proof fn lemma_digits_end(c: Seq<char>, index: int)
    requires
        0 <= index <= c.len(),
    ensures
        index <= digits_end(c, index) <= c.len(),
        forall|k: int| index <= k < digits_end(c, index) ==> is_digit_spec(#[trigger] c[k]),
        digits_end(c, index) < c.len() ==> !is_digit_spec(c[digits_end(c, index)]),
    decreases c.len() - index,
{
    if index < c.len() && is_digit_spec(c[index]) {
        lemma_digits_end(c, index + 1);
    }
}

/// The digits from `index` on end at a white-space character.
pub open spec fn digits_then_space(c: Seq<char>, index: int) -> bool {
    digits_end(c, index) < c.len() && is_whitespace_spec(c[digits_end(c, index)])
}

fn digit_str(b: u8) -> (r: &'static str)
    requires
        is_digit_spec(b as char),
    ensures
        r@ == seq![b as char],
{
    proof {
        reveal_strlit("0");
        reveal_strlit("1");
        reveal_strlit("2");
        reveal_strlit("3");
        reveal_strlit("4");
        reveal_strlit("5");
        reveal_strlit("6");
        reveal_strlit("7");
        reveal_strlit("8");
        reveal_strlit("9");
    }
    if b == 48 {
        "0"
    } else if b == 49 {
        "1"
    } else if b == 50 {
        "2"
    } else if b == 51 {
        "3"
    } else if b == 52 {
        "4"
    } else if b == 53 {
        "5"
    } else if b == 54 {
        "6"
    } else if b == 55 {
        "7"
    } else if b == 56 {
        "8"
    } else {
        "9"
    }
}

/// `"Number: "` followed by the digits that start at byte `index`, which must be
/// followed by a white-space byte.
pub fn get_number(string_contents: &str, index: usize) -> (r: String)
    requires
        index <= byte_chars(string_contents).len(),
        digits_then_space(byte_chars(string_contents), index as int),
    ensures
        r@ == "Number: "@ + byte_chars(string_contents).subrange(
            index as int,
            digits_end(byte_chars(string_contents), index as int),
        ),
{
    let ghost c = byte_chars(string_contents);
    let bytes = string_contents.as_bytes();
    let ghost e = digits_end(c, index as int);
    proof {
        lemma_digits_end(c, index as int);
    }
    let mut value = String::from_str("Number: ");
    let mut i = index;
    while is_digit(bytes[i] as char)
        invariant
            bytes@ == string_contents.spec_bytes(),
            c == byte_chars(string_contents),
            index <= i <= e,
            e < c.len(),
            forall|k: int| index <= k < e ==> is_digit_spec(#[trigger] c[k]),
            !is_digit_spec(c[e]),
            value@ == "Number: "@ + c.subrange(index as int, i as int),
        decreases e - i,
    {
        assert(c[i as int] == bytes@[i as int] as char);
        value.append(digit_str(bytes[i]));
        i = i + 1;
        assert(c.subrange(index as int, i as int) =~= c.subrange(index as int, i - 1) + seq![c[i - 1]]);
    }
    proof {
        assert(c[i as int] == bytes@[i as int] as char);
        if i < e {
            assert(is_digit_spec(c[i as int]));
        }
    }
    value
}

/// Some byte-character from `index` on is not white space.
pub open spec fn space_ends(c: Seq<char>, index: int) -> bool {
    exists|k: int| index <= k < c.len() && !is_whitespace_spec(#[trigger] c[k])
}

/// Steps over the white-space bytes that start at `index` (which must end before the
/// text does); the position it reaches is not handed back.
pub fn eat_whitespace(string_contents: &str, index: usize)
    requires
        index <= byte_chars(string_contents).len(),
        space_ends(byte_chars(string_contents), index as int),
{
    let ghost c = byte_chars(string_contents);
    let bytes = string_contents.as_bytes();
    let mut index = index;
    let ghost k = choose|k: int| index <= k < c.len() && !is_whitespace_spec(#[trigger] c[k]);
    while is_whitespace(bytes[index] as char)
        invariant
            bytes@ == string_contents.spec_bytes(),
            c == byte_chars(string_contents),
            index <= k < c.len(),
            !is_whitespace_spec(c[k]),
        decreases k - index,
    {
        assert(c[index as int] == bytes@[index as int] as char);
        index = index + 1;
    }
}

} // verus!
