//! Character classification and text conversions that lean on the
//! standard library's Unicode tables.
use vstd::prelude::*;

verus! {

/// Whether the Unicode tables class `c` as alphabetic.
pub uninterp spec fn is_alphabetic_char(c: char) -> bool;

/// Whether the Unicode tables class `c` as whitespace.
pub uninterp spec fn is_whitespace_char(c: char) -> bool;

/// The Unicode lowercase mapping of a character sequence.
pub uninterp spec fn lower_of(s: Seq<char>) -> Seq<char>;

/// Relies on char::is_alphabetic: a property of the character alone.
#[verifier::external_body]
pub fn char_is_alphabetic(c: char) -> (r: bool)
    ensures
        r == is_alphabetic_char(c),
{
    c.is_alphabetic()
}

/// Relies on char::is_whitespace: a property of the character alone.
#[verifier::external_body]
pub fn char_is_whitespace(c: char) -> (r: bool)
    ensures
        r == is_whitespace_char(c),
{
    c.is_whitespace()
}

/// Relies on str::to_lowercase: the result depends on the characters
/// alone, and an empty input stays empty.
#[verifier::external_body]
pub fn str_to_lowercase(s: &str) -> (r: String)
    ensures
        r@ == lower_of(s@),
        s@.len() == 0 ==> r@.len() == 0,
{
    s.to_lowercase()
}

/// Relies on String::from_utf8: it succeeds exactly on valid UTF-8 and
/// decodes it; the scalar-level meaning is vstd's own UTF-8 model.
#[verifier::external_body]
pub fn string_from_utf8(v: Vec<u8>) -> (r: Option<String>)
    ensures
        r is Some <==> vstd::utf8::valid_utf8(v@),
        r matches Some(s) ==> s@ == vstd::utf8::decode_utf8(v@),
{
    String::from_utf8(v).ok()
}

/// Whether `c` is one of the ASCII punctuation characters.
pub open spec fn is_ascii_punct_char(c: char) -> bool {
    (0x21 <= c as u32 <= 0x2f) || (0x3a <= c as u32 <= 0x40) || (0x5b <= c as u32 <= 0x60) || (
    0x7b <= c as u32 <= 0x7e)
}

/// ASCII punctuation test, byte-range comparisons on the scalar value.
pub fn char_is_ascii_punct(c: char) -> (r: bool)
    ensures
        r == is_ascii_punct_char(c),
{
    let u = c as u32;
    (0x21 <= u && u <= 0x2f) || (0x3a <= u && u <= 0x40) || (0x5b <= u && u <= 0x60) || (0x7b <= u
        && u <= 0x7e)
}

/// Relies on str's FromIterator: collecting characters builds the
/// string of exactly those characters.
#[verifier::external_body]
pub fn string_from_chars(cs: &Vec<char>) -> (r: String)
    ensures
        r@ == cs@,
{
    cs.iter().collect()
}

/// The characters of `s`, as a vector.
pub fn chars_vec(s: &str) -> (r: Vec<char>)
    ensures
        r@ == s@,
{
    let n = s.unicode_len();
    let mut r: Vec<char> = Vec::new();
    let mut i: usize = 0;
    while i < n
        invariant
            0 <= i <= n,
            n == s@.len(),
            r@ =~= s@.take(i as int),
        decreases n - i,
    {
        r.push(s.get_char(i));
        i += 1;
    }
    proof {
        assert(s@.take(n as int) =~= s@);
    }
    r
}

} // verus!
