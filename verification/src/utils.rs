//! Small path helpers shared by the stages.
use crate::text::{chars_of, has_prefix, starts_with, string_of};
use vstd::prelude::*;

verus! {

/// Strips the verbatim prefix `\\?\` that canonicalization prepends on
/// some platforms; any other path comes back unchanged.
pub fn adjust_canonicalization(p: &str) -> (r: String)
    ensures
        has_prefix(p@, "\\\\?\\"@) ==> r@ == p@.skip(4),
        !has_prefix(p@, "\\\\?\\"@) ==> r@ == p@,
{
    let prefix = chars_of("\\\\?\\");
    let chars = chars_of(p);
    proof {
        reveal_strlit("\\\\?\\");
    }
    if starts_with(chars.as_slice(), prefix.as_slice()) {
        let rest = crate::assembler::parse::subvec(chars.as_slice(), 4, chars.len());
        assert(rest@ =~= p@.skip(4));
        string_of(rest.as_slice())
    } else {
        string_of_whole(&chars)
    }
}

/// A string from all the characters.
fn string_of_whole(v: &Vec<char>) -> (s: String)
    ensures
        s@ == v@,
{
    string_of(v.as_slice())
}

} // verus!
