//! Ordering helpers: sortedness predicates over key sequences, and the
//! `Ascent` / `Descent` reinsertion traits.

use vstd::prelude::*;

verus! {

/// The first `n` keys are nondecreasing.
pub open spec fn sorted_prefix(s: Seq<int>, n: int) -> bool {
    forall|i: int, j: int| 0 <= i < j < n && j < s.len() ==> s[i] <= s[j]
}

/// The keys from `n` on are nondecreasing.
pub open spec fn sorted_suffix(s: Seq<int>, n: int) -> bool {
    forall|i: int, j: int| n <= i < j < s.len() && 0 <= i ==> s[i] <= s[j]
}

/// Reinsertion of one element leftward into a run sorted up to it.
pub trait Descent {
    /// The well-formedness the collection needs for key comparisons.
    spec fn dwell(&self) -> bool;

    /// The keys the collection is ordered by.
    spec fn dkeys(&self) -> Seq<int>;

    /// Moves the element at `k` down to its place in the sorted prefix
    /// `[0, k)`, returning the position it lands at.
    fn descend(&mut self, k: usize) -> (idx: usize)
        requires
            old(self).dwell(),
            k < old(self).dkeys().len(),
            sorted_prefix(old(self).dkeys(), k as int),
        ensures
            final(self).dwell(),
            idx <= k,
            final(self).dkeys() == old(self).dkeys().remove(k as int).insert(
                idx as int,
                old(self).dkeys()[k as int],
            ),
            sorted_prefix(final(self).dkeys(), k as int + 1),
    ;
}

/// Reinsertion of one element rightward into a run sorted after it.
pub trait Ascent {
    /// The well-formedness the collection needs for key comparisons.
    spec fn awell(&self) -> bool;

    /// The keys the collection is ordered by.
    spec fn akeys(&self) -> Seq<int>;

    /// Moves the element at `k` up to its place in the sorted suffix
    /// `[k + 1, len)`, returning the position it lands at.
    fn ascend(&mut self, k: usize) -> (idx: usize)
        requires
            old(self).awell(),
            k < old(self).akeys().len(),
            sorted_suffix(old(self).akeys(), k as int + 1),
        ensures
            final(self).awell(),
            k <= idx < final(self).akeys().len(),
            final(self).akeys() == old(self).akeys().remove(k as int).insert(
                idx as int,
                old(self).akeys()[k as int],
            ),
            sorted_suffix(final(self).akeys(), k as int),
    ;
}

} // verus!
