//! The keyword matcher: every needle must occur in the entry, letter case
//! aside.

use crate::model;
use crate::model::views;
use crate::std_specs::lowercase;
use crate::text::{contains, lowercase_of};
use vstd::prelude::*;

verus! {

/// Whether `lowered` holds the lowercase equivalents of `needles`, one for one.
pub open spec fn lowers(lowered: Seq<Vec<char>>, needles: Seq<Seq<char>>) -> bool {
    &&& lowered.len() == needles.len()
    &&& forall|k: int| 0 <= k < needles.len() ==> (#[trigger] lowered[k])@ == lowercase(needles[k])
}

/// The lowercase equivalents of `needles`, as characters.
pub fn lower(needles: &[&str]) -> (lowered: Vec<Vec<char>>)
    ensures
        lowers(lowered@, views(needles@)),
{
    let mut lowered: Vec<Vec<char>> = Vec::new();
    for i in 0..needles.len()
        invariant
            lowered.len() == i,
            forall|k: int| 0 <= k < i ==> (#[trigger] lowered@[k])@ == lowercase(needles@[k]@),
    {
        lowered.push(lowercase_of(needles[i]));
    }
    lowered
}

/// Whether `entry` matches the needles that `lowered` stands for.
pub(crate) fn matches_lowered(entry: &str, lowered: &Vec<Vec<char>>, Ghost(needles): Ghost<
    Seq<Seq<char>>,
>) -> (b: bool)
    requires
        lowers(lowered@, needles),
    ensures
        b == model::matches(entry@, needles),
{
    let hay = lowercase_of(entry);
    for i in 0..lowered.len()
        invariant
            hay@ == lowercase(entry@),
            lowers(lowered@, needles),
            forall|k: int|
                0 <= k < i ==> model::contains(lowercase(entry@), lowercase(#[trigger] needles[k])),
    {
        if !contains(hay.as_slice(), lowered[i].as_slice()) {
            assert(!model::contains(lowercase(entry@), lowercase(needles[i as int])));
            return false;
        }
    }
    true
}

/// Whether `entry` holds every needle, letter case aside. No needles match
/// every entry.
pub fn matches(entry: &str, needles: &[&str]) -> (b: bool)
    ensures
        b == model::matches(entry@, views(needles@)),
{
    let lowered = lower(needles);
    matches_lowered(entry, &lowered, Ghost(views(needles@)))
}

} // verus!
