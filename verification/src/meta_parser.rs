//! Recognizing meta commands at the input boundary.

use vstd::prelude::*;

verus! {

/// Whether `inp` is a meta command: text that starts with a tilde.
pub fn check_meta(inp: &str) -> (r: bool)
    ensures
        r == (inp@.len() > 0 && inp@[0] == '~'),
{
    if inp.unicode_len() == 0 {
        false
    } else {
        inp.get_char(0) == '~'
    }
}

} // verus!
