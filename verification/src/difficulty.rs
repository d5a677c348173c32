//! Reading the difficulty names of the generator.

use vstd::prelude::*;
use vstd::string::StrSliceExecFns;

verus! {

/// Whether `s` reads exactly `lit`.
pub fn str_equals(s: &str, lit: &str) -> (eq: bool)
    ensures
        eq == (s@ == lit@),
{
    let len = s.unicode_len();
    if len != lit.unicode_len() {
        return false;
    }
    let mut i: usize = 0;
    while i < len
        invariant
            len == s@.len(),
            len == lit@.len(),
            i <= len,
            forall|k: int| 0 <= k < i ==> s@[k] == lit@[k],
        decreases len - i,
    {
        if s.get_char(i) != lit.get_char(i) {
            return false;
        }
        i = i + 1;
    }
    proof {
        assert(s@ =~= lit@);
    }
    true
}

/// The difficulty is "Easy".
pub open spec fn is_easy(difficulty: Seq<char>) -> bool {
    difficulty == "Easy"@
}

/// The difficulty is "Medium".
pub open spec fn is_medium(difficulty: Seq<char>) -> bool {
    difficulty == "Medium"@
}

} // verus!
