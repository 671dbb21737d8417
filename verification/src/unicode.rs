//! Character facts from the standard library.
use vstd::prelude::*;

verus! {

/// Whether a code is a Unicode scalar value (what `char` holds).
pub open spec fn is_scalar_code(code: u32) -> bool {
    code < 0xD800 || (0xE000 <= code && code <= 0x10FFFF)
}

/// `char::from_u32`: the character with the given code, if the code is a
/// Unicode scalar value.
#[verifier::external_body]
pub(crate) fn char_from_code(code: u32) -> (r: Option<char>)
    ensures
        r is Some <==> is_scalar_code(code),
        r matches Some(c) ==> c as u32 == code && c == code as char,
{
    char::from_u32(code)
}

/// `str::to_lowercase` of a text.
pub uninterp spec fn lowercase_of(s: Seq<char>) -> Seq<char>;

/// `str::to_uppercase` of a text.
pub uninterp spec fn uppercase_of(s: Seq<char>) -> Seq<char>;

/// `str::to_lowercase`: the text with every character mapped to lowercase
/// by the Unicode tables; the contract names the result only.
#[verifier::external_body]
pub(crate) fn to_lowercase(s: &str) -> (r: String)
    ensures
        r@ == lowercase_of(s@),
{
    s.to_lowercase()
}

/// `str::to_uppercase`: the text with every character mapped to uppercase
/// by the Unicode tables; the contract names the result only.
#[verifier::external_body]
pub(crate) fn to_uppercase(s: &str) -> (r: String)
    ensures
        r@ == uppercase_of(s@),
{
    s.to_uppercase()
}

/// The number of bytes of a character in UTF-8.
pub open spec fn utf8_width(c: char) -> nat {
    if (c as u32) < 0x80 {
        1
    } else if (c as u32) < 0x800 {
        2
    } else if (c as u32) < 0x10000 {
        3
    } else {
        4
    }
}

/// The number of bytes of a text in UTF-8 (`str::len`).
pub open spec fn utf8_len(s: Seq<char>) -> nat
    decreases s.len(),
{
    if s.len() == 0 {
        0
    } else {
        utf8_len(s.drop_last()) + utf8_width(s.last())
    }
}

/// The UTF-8 length of a text, computed without overflow.
pub fn utf8_length(s: &Vec<char>) -> (r: u128)
    ensures
        r == utf8_len(s@),
{
    let mut r: u128 = 0;
    let mut i: usize = 0;
    while i < s.len()
        invariant
            i <= s@.len(),
            r == utf8_len(s@.take(i as int)),
            r <= 4 * i,
        decreases s@.len() - i,
    {
        let c = s[i] as u32;
        let w: u128 = if c < 0x80 { 1 } else if c < 0x800 { 2 } else if c < 0x10000 { 3 } else { 4 };
        proof {
            assert(s@.take(i + 1).drop_last() =~= s@.take(i as int));
        }
        r = r + w;
        i = i + 1;
    }
    assert(s@.take(s@.len() as int) =~= s@);
    r
}

} // verus!
