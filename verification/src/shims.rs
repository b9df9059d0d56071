//! Contracts for the few outside and standard-library functions the parser
//! relies on: character classification, growing a `String`, and the regular
//! expression engine behind the URI predicate.
use vstd::prelude::*;

verus! {

/// The Unicode `White_Space` set, as documented for `char::is_whitespace`.
pub open spec fn is_ws(c: char) -> bool {
    c == ' ' || (9 <= c as u32 && c as u32 <= 13) || c as u32 == 0x85 || c as u32 == 0xa0
        || c as u32 == 0x1680 || (0x2000 <= c as u32 && c as u32 <= 0x200a) || c as u32 == 0x2028
        || c as u32 == 0x2029 || c as u32 == 0x202f || c as u32 == 0x205f || c as u32 == 0x3000
}

/// Relies on char::is_whitespace: true exactly on the Unicode `White_Space`
/// characters, which its documentation lists.
pub assume_specification[ char::is_whitespace ](c: char) -> (r: bool)
    ensures
        r == is_ws(c),
;

/// Whether a character has the Unicode `Numeric` property used by
/// `char::is_numeric`; only its restriction to ASCII is spelled out here.
pub uninterp spec fn is_numeric_char(c: char) -> bool;

/// Relies on char::is_numeric: a function of the character alone; the ASCII
/// digits are numeric and all other ASCII characters are not.
pub assume_specification[ char::is_numeric ](c: char) -> (r: bool)
    ensures
        r == is_numeric_char(c),
        48 <= c as u32 && c as u32 <= 57 ==> r,
        ((c as u32) < 128 && !(48 <= c as u32 && c as u32 <= 57)) ==> !r,
;

/// Relies on String::push: appends one character at the end.
pub assume_specification[ std::string::String::push ](s: &mut std::string::String, c: char)
    ensures
        final(s)@ == old(s)@.push(c),
;

/// A parsed math expression of the math collaborator crate; opaque here: the
/// tree only carries it through.
#[verifier::external_type_specification]
#[verifier::external_body]
pub struct ExExpression(asciimath_rs::elements::special::Expression);

/// Relies on the derived Clone of asciimath_rs's Expression: a clone is a
/// duplicate of the value.
pub assume_specification[ <asciimath_rs::elements::special::Expression as std::clone::Clone>::clone ](
    e: &asciimath_rs::elements::special::Expression,
) -> (r: asciimath_rs::elements::special::Expression)
    ensures
        r == *e,
;

/// What the regular expression engine answers for a pattern and a text:
/// `None` when the pattern does not compile, `Some(m)` when it compiles and
/// matching the text gives `m`. A function of the two arguments alone.
pub uninterp spec fn regex_match(pattern: Seq<char>, text: Seq<char>) -> Option<bool>;

/// Relies on regex::Regex::new and regex::Regex::is_match: compiling a
/// pattern is deterministic in the pattern, and whether a compiled pattern
/// matches a text depends on the pattern and the text alone.
#[verifier::external_body]
pub fn regex_is_match(pattern: &str, text: &str) -> (r: Option<bool>)
    ensures
        r == regex_match(pattern@, text@),
{
    match regex::Regex::new(pattern) {
        Ok(re) => Some(re.is_match(text)),
        Err(_) => None,
    }
}

} // verus!
