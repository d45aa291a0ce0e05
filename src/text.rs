use vstd::prelude::*;

verus! {

broadcast use vstd::string::group_string_axioms;

/// What `char::is_alphanumeric` answers for a character.
pub uninterp spec fn alphanumeric(c: char) -> bool;

/// Relies on `char::is_alphanumeric`: true for the alphabetic and numeric
/// characters of Unicode, which include the ASCII letters and digits and
/// exclude ASCII whitespace, quotes, backslash and `=`.
#[verifier::external_body]
pub(crate) fn is_alphanumeric(c: char) -> (r: bool)
    ensures
        r == alphanumeric(c),
        ('a' <= c <= 'z' || 'A' <= c <= 'Z' || '0' <= c <= '9') ==> r,
        (c == ' ' || c == '\t' || c == '\n' || c == '\r' || c == '=' || c == '"' || c == '\\')
            ==> !r,
{
    c.is_alphanumeric()
}

/// Relies on `FromIterator<char> for String`: the string holds the characters
/// in order.
#[verifier::external_body]
pub(crate) fn string_of(v: &[char]) -> (r: String)
    ensures
        r@ == v@,
{
    v.iter().collect()
}

/// The characters of `s`, in order.
pub fn chars_of(s: &str) -> (r: Vec<char>)
    ensures
        r@ == s@,
{
    let mut r: Vec<char> = Vec::new();
    for c in it: s.chars()
        invariant
            it.seq() == s@,
            r@ == it.seq().take(it.index() as int),
    {
        r.push(c);
        proof {
            assert(r@ =~= it.seq().take(it.index() + 1));
        }
    }
    proof {
        assert(r@ =~= s@);
    }
    r
}

} // verus!
