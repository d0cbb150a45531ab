//! Small operations on strings that the page analysis needs.

use vstd::prelude::*;

verus! {

/// Whether two strings hold the same characters.
pub fn str_equal(a: &str, b: &str) -> (r: bool)
    ensures
        r == (a@ == b@),
{
    let sa: String = a.to_owned();
    let sb: String = b.to_owned();
    sa == sb
}

/// The number of characters in a string.
pub fn char_count(s: &String) -> (n: usize)
    ensures
        n == s@.len(),
{
    s.as_str().unicode_len()
}

/// The last character of a string, if it has one.
pub fn last_char(s: &String) -> (c: Option<char>)
    ensures
        s@.len() == 0 ==> c is None,
        s@.len() > 0 ==> c == Some(s@.last()),
{
    let n = s.as_str().unicode_len();
    if n == 0 {
        None
    } else {
        Some(s.as_str().get_char(n - 1))
    }
}

/// Whether a string is exactly one star.
pub fn is_star(s: &String) -> (r: bool)
    ensures
        r == (s@ == seq!['*']),
{
    let n = s.as_str().unicode_len();
    if n != 1 {
        return false;
    }
    let c = s.as_str().get_char(0);
    if c == '*' {
        assert(s@ =~= seq!['*']);
        true
    } else {
        false
    }
}

} // verus!
