//! The few points where the library leans on code it does not verify:
//! the conversion of a decimal literal to a float's bit pattern (nom),
//! and two small std operations that vstd gives no specification to.

use vstd::prelude::*;

use crate::grammar::is_float_literal;

verus! {

/// The IEEE-754 single-precision bit pattern denoted by a decimal
/// floating-point literal. The value is a function of the characters
/// alone; nothing more is assumed of it.
pub uninterp spec fn float_bits_of(s: Seq<char>) -> u32;

/// Relies on nom's `number::complete::float`: on an input that is in its
/// whole length one decimal float literal, it recognizes that whole input
/// (nom's `recognize_float` grammar matches it exactly) and converts it
/// with `str::parse`, which succeeds on every such literal; the value
/// returned depends on the characters alone.
#[verifier::external_body]
pub(crate) fn float_bits(lit: &str) -> (r: u32)
    requires
        is_float_literal(lit@),
    ensures
        r == float_bits_of(lit@),
{
    nom::number::complete::float::<&str, ()>(lit).unwrap().1.to_bits()
}

/// Relies on std's `char::from_u32`: it returns the character with the
/// given code point, and `None` exactly for surrogate code points and
/// values above the Unicode maximum.
#[verifier::external_body]
pub(crate) fn char_from_code(n: u32) -> (r: Option<char>)
    ensures
        r is Some <==> (n <= 0x10FFFF && !(0xD800 <= n && n <= 0xDFFF)),
        r matches Some(c) ==> c as u32 == n,
{
    char::from_u32(n)
}

/// Relies on std's `String::push`: it appends the given character to the
/// end of the string.
#[verifier::external_body]
pub(crate) fn push_char(s: &mut String, c: char)
    ensures
        final(s)@ == old(s)@.push(c),
{
    s.push(c)
}

} // verus!
