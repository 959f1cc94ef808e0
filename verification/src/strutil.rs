use vstd::prelude::*;

verus! {

/// The character with code point `n`.
pub open spec fn char_of(n: u32) -> char {
    choose|c: char| (#[trigger] (c as u32)) == n
}

/// Relies on String::push: appends exactly one character to the end of the
/// string.
#[verifier::external_body]
pub(crate) fn push_char(s: &mut String, c: char)
    ensures
        final(s)@ == old(s)@.push(c),
{
    s.push(c);
}

/// Relies on char::from_u32: returns Some exactly when the argument is a
/// Unicode scalar value (not a surrogate, not above 0x10FFFF), and the
/// returned value is the character with that code point.
#[verifier::external_body]
pub(crate) fn char_from_u32(u: u32) -> (r: Option<char>)
    ensures
        r is Some <==> (u < 0xD800 || (0xE000 <= u && u <= 0x10FFFF)),
        r is Some ==> r.unwrap() as u32 == u && r.unwrap() == char_of(u),
{
    char::from_u32(u)
}

} // verus!
