//! The change detector: decides, given old and new canonical text, whether a
//! new snapshot is warranted.

use vstd::prelude::*;

verus! {

use crate::text::str_eq;

/// Whether fetched content whose canonical text is `next` counts as a change
/// against the previous snapshot's canonical text: with no previous snapshot
/// the answer is always yes; otherwise any difference at all counts.
pub open spec fn spec_has_changed(previous: Option<Seq<char>>, next: Seq<char>) -> bool {
    match previous {
        Option::None => true,
        Option::Some(p) => p != next,
    }
}

/// Decides whether a new snapshot is warranted: true when there is no prior
/// canonical text, or when the two canonical texts differ in any character.
pub fn has_changed(previous: Option<&str>, next: &str) -> (r: bool)
    ensures
        r == spec_has_changed(
            match previous {
                Option::None => Option::None,
                Option::Some(p) => Option::Some(p@),
            },
            next@,
        ),
{
    match previous {
        Option::None => true,
        Option::Some(p) => !str_eq(p, next),
    }
}

} // verus!
