use vstd::prelude::*;

verus! {

/// The characters of a string.
///
/// Relies on `str::chars` collected into a `Vec`: the characters of the
/// string, in order.
#[verifier::external_body]
pub fn chars_of(s: &str) -> (r: Vec<char>)
    ensures
        r@ == s@,
{
    s.chars().collect()
}

/// The string made of the given characters.
///
/// Relies on collecting an iterator of `char` into a `String`: the string of
/// those characters, in order.
#[verifier::external_body]
pub fn string_of(cs: &Vec<char>) -> (r: String)
    ensures
        r@ == cs@,
{
    cs.iter().collect()
}

/// Appends all characters of `s` to `out`.
pub fn push_all(out: &mut Vec<char>, s: &Vec<char>)
    ensures
        final(out)@ == old(out)@ + s@,
{
    let mut i: usize = 0;
    while i < s.len()
        invariant
            i <= s@.len(),
            out@ == old(out)@ + s@.subrange(0, i as int),
        decreases s@.len() - i,
    {
        out.push(s[i]);
        i = i + 1;
        proof {
            assert(s@.subrange(0, i as int) =~= s@.subrange(0, i - 1).push(s@[i - 1]));
        }
    }
    proof {
        assert(s@.subrange(0, s@.len() as int) =~= s@);
    }
}

/// Appends the characters of a string literal to `out`.
pub fn push_str(out: &mut Vec<char>, s: &str)
    ensures
        final(out)@ == old(out)@ + s@,
{
    let cs = chars_of(s);
    push_all(out, &cs);
}

/// The character whose code is `u`, for a Unicode scalar value.
pub open spec fn char_code(c: char) -> nat {
    c as nat
}

pub open spec fn code_char(u: nat) -> char {
    choose|c: char| #[trigger] char_code(c) == u
}

pub open spec fn is_scalar_value(u: nat) -> bool {
    u < 0xD800 || (0xE000 <= u && u <= 0x10FFFF)
}

/// The character with a given code.
///
/// Relies on `char::from_u32`: `Some` exactly for the Unicode scalar values
/// (below `0xD800`, or from `0xE000` to `0x10FFFF`), holding the character
/// with that code.
#[verifier::external_body]
pub fn char_from_code(u: u32) -> (r: Option<char>)
    ensures
        r is Some <==> is_scalar_value(u as nat),
        r matches Some(c) ==> c == code_char(u as nat),
{
    char::from_u32(u)
}

} // verus!
