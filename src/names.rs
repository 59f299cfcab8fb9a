//! Checks on the names that make up an address.
use vstd::prelude::*;
use vstd::string::*;

verus! {

/// The position of the first colon in `s`, if any.
pub fn find_colon(s: &str) -> (r: Option<usize>)
    ensures
        match r {
            Some(i) => i < s@.len() && s@[i as int] == ':' && forall|j: int|
                0 <= j < i ==> s@[j] != ':',
            None => !s@.contains(':'),
        },
{
    let n = s.unicode_len();
    let mut i: usize = 0;
    while i < n
        invariant
            n == s@.len(),
            i <= n,
            forall|j: int| 0 <= j < i ==> s@[j] != ':',
        decreases n - i,
    {
        if s.get_char(i) == ':' {
            return Some(i);
        }
        i = i + 1;
    }
    None
}

} // verus!
