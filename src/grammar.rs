//! Helpers for printing correct English.

use vstd::prelude::*;

verus! {

/// The English plural suffix for a count: empty for exactly one, `s` otherwise.
pub open spec fn plural_suffix(n: nat) -> Seq<char> {
    if n == 1 {
        Seq::<char>::empty()
    } else {
        seq!['s']
    }
}

/// Add a plural `s` iff `n != 1`.
pub fn plural(n: usize) -> (r: &'static str)
    ensures
        r@ == plural_suffix(n as nat),
{
    proof {
        reveal_strlit("");
        reveal_strlit("s");
    }
    if n == 1 {
        ""
    } else {
        "s"
    }
}

/// Like [plural] but with a custom word in place of the empty singular suffix.
pub fn plural_or(n: usize, or: &str) -> (r: String)
    ensures
        r@ == (if n == 1 { or@ } else { seq!['s'] }),
{
    proof {
        reveal_strlit("s");
    }
    if n == 1 {
        or.to_owned()
    } else {
        "s".to_owned()
    }
}

} // verus!
