//! Fractions.
use vstd::prelude::*;

verus! {

/// A fraction: `part` of `whole`. The whole is never 0.
#[derive(Debug, Clone, Copy, PartialEq, Eq, Structural)]
pub struct Ratio {
    pub part: u128,
    pub whole: u128,
}

/// How many of `hits + misses` lookups were hits; none where there was none.
pub open spec fn share_of(hits: u64, misses: u64) -> Ratio {
    if hits + misses == 0 {
        Ratio { part: 0, whole: 1 }
    } else {
        Ratio { part: hits as u128, whole: (hits + misses) as u128 }
    }
}

/// The share of hits among all lookups.
pub fn hit_share(hits: u64, misses: u64) -> (share: Ratio)
    ensures
        share == share_of(hits, misses),
{
    let whole: u128 = hits as u128 + misses as u128;
    if whole == 0 {
        Ratio { part: 0, whole: 1 }
    } else {
        Ratio { part: hits as u128, whole }
    }
}

/// A share of hits lies between nothing and everything.
pub proof fn lemma_share_in_range(hits: u64, misses: u64)
    ensures
        0 <= share_of(hits, misses).part <= share_of(hits, misses).whole,
        share_of(hits, misses).whole > 0,
{
}

/// The share of hits is hits among hits and misses; without either it is none.
pub proof fn lemma_share_of(hits: u64, misses: u64)
    ensures
        hits + misses > 0 ==> share_of(hits, misses).part == hits && share_of(hits, misses).whole
            - share_of(hits, misses).part == misses,
        hits == 0 ==> share_of(hits, misses).part == 0,
        misses == 0 && hits > 0 ==> share_of(hits, misses).part == share_of(hits, misses).whole,
{
}

} // verus!
