//! The command line's own values.
use vstd::prelude::*;

use crate::text::{chars_of, string_of};

verus! {

broadcast use vstd::string::group_string_axioms;

/// Splits HTTP Basic Auth credentials given as `USER:PASS` at the first
/// `:`; nothing where there is no `:`.
pub fn split_credentials(s: &str) -> (res: Option<(String, String)>)
    ensures
        res is None <==> !(exists|i: int| 0 <= i < s@.len() && s@[i] == ':'),
        res matches Some((user, pass)) ==> {
            let i = user@.len() as int;
            &&& i < s@.len()
            &&& s@[i] == ':'
            &&& forall|j: int| 0 <= j < i ==> s@[j] != ':'
            &&& user@ == s@.subrange(0, i)
            &&& pass@ == s@.subrange(i + 1, s@.len() as int)
        },
{
    let chars = chars_of(s);
    let mut i: usize = 0;
    while i < chars.len()
        invariant
            i <= chars@.len(),
            chars@ == s@,
            forall|j: int| 0 <= j < i ==> chars@[j] != ':',
        decreases chars.len() - i,
    {
        if chars[i] == ':' {
            let mut user_chars: Vec<char> = Vec::new();
            let mut k: usize = 0;
            while k < i
                invariant
                    k <= i < chars@.len(),
                    user_chars@ == chars@.subrange(0, k as int),
                decreases i - k,
            {
                user_chars.push(chars[k]);
                k = k + 1;
                assert(user_chars@ =~= chars@.subrange(0, k as int));
            }
            let mut pass_chars: Vec<char> = Vec::new();
            let mut m: usize = i + 1;
            while m < chars.len()
                invariant
                    i + 1 <= m <= chars@.len(),
                    pass_chars@ == chars@.subrange(i + 1, m as int),
                decreases chars.len() - m,
            {
                pass_chars.push(chars[m]);
                m = m + 1;
                assert(pass_chars@ =~= chars@.subrange(i + 1, m as int));
            }
            return Some((string_of(&user_chars), string_of(&pass_chars)));
        }
        i = i + 1;
    }
    None
}

} // verus!
