//! The clause set: a vector of clauses kept in nondecreasing
//! cardinality.  Reinsertion after a clause shrinks or grows moves the
//! clause in one splice, found by binary search over the sorted run.

use vstd::prelude::*;

use crate::clause::Clause;
use crate::utils::sorted_prefix;
use crate::utils::sorted_suffix;
use crate::utils::Ascent;
use crate::utils::Descent;

verus! {

/// The cardinality of each clause, as the key sequence.
pub open spec fn cards_of(s: Seq<Clause>) -> Seq<int> {
    s.map_values(|c: Clause| c.cardc() as int)
}

/// Every clause well-formed, over `nv` variables.
pub open spec fn all_wf(s: Seq<Clause>, nv: int) -> bool {
    forall|i: int| 0 <= i < s.len() ==> (#[trigger] s[i]).wf() && s[i].nv == nv
}

/// Nondecreasing cardinality throughout.
pub open spec fn sorted_cards(s: Seq<Clause>) -> bool {
    forall|i: int, j: int|
        0 <= i < j < s.len() ==> (#[trigger] s[i]).cardc() <= (#[trigger] s[j]).cardc()
}

/// All literals of `a` stand in `b`.
pub open spec fn subset_lits(a: Clause, b: Clause) -> bool {
    forall|m: int| a.lit_in(m) ==> b.lit_in(m)
}

/// No earlier clause is contained in a later one.
pub open spec fn no_subsumption(s: Seq<Clause>) -> bool {
    forall|i: int, j: int|
        0 <= i < j < s.len() ==> !subset_lits(#[trigger] s[i], #[trigger] s[j])
}

/// No ordered pair admits a self-subsumption step.
pub open spec fn no_symmetry(s: Seq<Clause>) -> bool {
    forall|i: int, j: int|
        0 <= i < j < s.len() ==> (#[trigger] s[i]).sym_clear(#[trigger] s[j])
}

/// No clause is tautologous.
pub open spec fn no_taut(s: Seq<Clause>) -> bool {
    forall|i: int| 0 <= i < s.len() ==> !(#[trigger] s[i]).tautc()
}

/// Sum of the cardinalities: the measure that every shrink lowers.
pub open spec fn total_cards(s: Seq<Clause>) -> nat
    decreases s.len(),
{
    if s.len() == 0 {
        0
    } else {
        total_cards(s.drop_last()) + s.last().cardc()
    }
}

pub proof fn lemma_total_cards_remove(s: Seq<Clause>, k: int)
    requires
        0 <= k < s.len(),
    ensures
        total_cards(s.remove(k)) + s[k].cardc() == total_cards(s),
    decreases s.len(),
{
    if k == s.len() - 1 {
        assert(s.remove(k) =~= s.drop_last());
    } else {
        assert(s.remove(k).drop_last() =~= s.drop_last().remove(k));
        assert(s.remove(k).last() == s.last());
        lemma_total_cards_remove(s.drop_last(), k);
    }
}

pub proof fn lemma_total_cards_insert(s: Seq<Clause>, k: int, c: Clause)
    requires
        0 <= k <= s.len(),
    ensures
        total_cards(s.insert(k, c)) == total_cards(s) + c.cardc(),
    decreases s.len(),
{
    let t = s.insert(k, c);
    if k == s.len() {
        assert(t.drop_last() =~= s);
        assert(t.last() == c);
    } else {
        assert(t.drop_last() =~= s.drop_last().insert(k, c));
        assert(t.last() == s.last());
        lemma_total_cards_insert(s.drop_last(), k, c);
    }
}

pub proof fn lemma_total_cards_update(s: Seq<Clause>, k: int, c: Clause)
    requires
        0 <= k < s.len(),
    ensures
        total_cards(s.update(k, c)) + s[k].cardc() == total_cards(s) + c.cardc(),
{
    assert(s.update(k, c) =~= s.remove(k).insert(k, c));
    lemma_total_cards_remove(s, k);
    lemma_total_cards_insert(s.remove(k), k, c);
}

pub proof fn lemma_cards_of_remove(s: Seq<Clause>, k: int)
    requires
        0 <= k < s.len(),
    ensures
        cards_of(s.remove(k)) == cards_of(s).remove(k),
{
    let a = cards_of(s.remove(k));
    let b = cards_of(s).remove(k);
    assert forall|t: int| 0 <= t < a.len() implies a[t] == b[t] by {
        if t < k {
            assert(s.remove(k)[t] == s[t]);
        } else {
            assert(s.remove(k)[t] == s[t + 1]);
        }
    }
    assert(a =~= b);
}

pub proof fn lemma_cards_of_insert(s: Seq<Clause>, k: int, c: Clause)
    requires
        0 <= k <= s.len(),
    ensures
        cards_of(s.insert(k, c)) == cards_of(s).insert(k, c.cardc() as int),
{
    let a = cards_of(s.insert(k, c));
    let b = cards_of(s).insert(k, c.cardc() as int);
    assert forall|t: int| 0 <= t < a.len() implies a[t] == b[t] by {
        if t < k {
            assert(s.insert(k, c)[t] == s[t]);
        } else if t == k {
            assert(s.insert(k, c)[t] == c);
        } else {
            assert(s.insert(k, c)[t] == s[t - 1]);
        }
    }
    assert(a =~= b);
}

/// An ordered collection of clauses.
pub struct ClauseSet {
    pub items: Vec<Clause>,
}

impl ClauseSet {
    /// Every clause well-formed.
    pub open spec fn wf_items(self) -> bool {
        forall|i: int| 0 <= i < self.items@.len() ==> (#[trigger] self.items@[i]).wf()
    }

    pub fn new() -> (r: ClauseSet)
        ensures
            r.items@.len() == 0,
    {
        ClauseSet { items: Vec::new() }
    }

    pub fn len(&self) -> (n: usize)
        ensures
            n == self.items@.len(),
    {
        self.items.len()
    }

    pub fn push(&mut self, c: Clause)
        ensures
            final(self).items@ == old(self).items@.push(c),
    {
        self.items.push(c);
    }

    /// Borrows the clause at `i`.
    pub fn get(&self, i: usize) -> (r: &Clause)
        requires
            i < self.items@.len(),
        ensures
            *r == self.items@[i as int],
    {
        &self.items[i]
    }

    /// Removes and returns the clause at `i`.
    pub fn remove_at(&mut self, i: usize) -> (r: Clause)
        requires
            i < old(self).items@.len(),
        ensures
            r == old(self).items@[i as int],
            final(self).items@ == old(self).items@.remove(i as int),
    {
        self.items.remove(i)
    }

    /// The cardinality of the clause at `i`.
    pub fn card_at(&self, i: usize) -> (c: usize)
        requires
            self.wf_items(),
            i < self.items@.len(),
        ensures
            c == self.items@[i as int].cardc(),
    {
        self.items[i].len()
    }

    /// Moves the clause at `k` down into the prefix `[0, k)`, which must
    /// be sorted; clauses of equal cardinality keep their order.
    pub fn descend_clause(&mut self, k: usize) -> (idx: usize)
        requires
            old(self).wf_items(),
            k < old(self).items@.len(),
            sorted_prefix(cards_of(old(self).items@), k as int),
        ensures
            final(self).wf_items(),
            idx <= k,
            final(self).items@ == old(self).items@.remove(k as int).insert(
                idx as int,
                old(self).items@[k as int],
            ),
            sorted_prefix(cards_of(final(self).items@), k as int + 1),
    {
        let key = self.items[k].len();
        let mut lo: usize = 0;
        let mut hi: usize = k;
        while lo < hi
            invariant
                old(self).wf_items(),
                self.items@ == old(self).items@,
                k < self.items@.len(),
                lo <= hi <= k,
                key == self.items@[k as int].cardc(),
                sorted_prefix(cards_of(self.items@), k as int),
                forall|t: int| 0 <= t < lo ==> (#[trigger] self.items@[t]).cardc() <= key,
                forall|t: int| hi <= t < k ==> (#[trigger] self.items@[t]).cardc() > key,
            decreases hi - lo,
        {
            let mid = lo + (hi - lo) / 2;
            if self.items[mid].len() <= key {
                proof {
                    assert forall|t: int| 0 <= t < mid + 1 implies (#[trigger] self.items@[t]).cardc()
                        <= key by {
                        assert(cards_of(self.items@)[t] <= cards_of(self.items@)[mid as int]);
                    }
                }
                lo = mid + 1;
            } else {
                proof {
                    assert forall|t: int| mid <= t < k implies (#[trigger] self.items@[t]).cardc()
                        > key by {
                        if t > mid {
                            assert(cards_of(self.items@)[mid as int] <= cards_of(self.items@)[t]);
                        }
                    }
                }
                hi = mid;
            }
        }
        let idx = lo;
        let ghost pre = self.items@;
        if idx < k {
            let c = self.items.remove(k);
            self.items.insert(idx, c);
        }
        proof {
            let post = self.items@;
            let fin = pre.remove(k as int).insert(idx as int, pre[k as int]);
            if idx == k {
                assert(post =~= fin);
            } else {
                assert(post == fin);
            }
            assert forall|i: int| 0 <= i < post.len() implies (#[trigger] post[i]).wf() by {
                if i < idx {
                    assert(post[i] == pre[i]);
                } else if i == idx {
                    assert(post[i] == pre[k as int]);
                } else if i <= k {
                    assert(post[i] == pre[i - 1]);
                } else {
                    assert(post[i] == pre[i]);
                }
            }
            assert forall|i: int, j: int|
                0 <= i < j < k as int + 1 && j < post.len() implies cards_of(post)[i] <= cards_of(
                post,
            )[j] by {
                let ci = if i < idx {
                    pre[i].cardc() as int
                } else if i == idx {
                    key as int
                } else {
                    pre[i - 1].cardc() as int
                };
                assert(cards_of(post)[i] == ci);
                let cj = if j < idx {
                    pre[j].cardc() as int
                } else if j == idx {
                    key as int
                } else {
                    pre[j - 1].cardc() as int
                };
                assert(cards_of(post)[j] == cj);
                if i < idx {
                    assert(cards_of(pre)[i] <= key);
                }
                if idx < j {
                    assert(pre[j - 1].cardc() > key);
                }
                if i > idx && j > idx {
                    assert(cards_of(pre)[i - 1] <= cards_of(pre)[j - 1]);
                }
                if i < idx && j < idx {
                    assert(cards_of(pre)[i] <= cards_of(pre)[j]);
                }
            }
        }
        idx
    }

    /// Moves the clause at `k` up into the suffix `[k + 1, len)`, which
    /// must be sorted; clauses of equal cardinality keep their order.
    pub fn ascend_clause(&mut self, k: usize) -> (idx: usize)
        requires
            old(self).wf_items(),
            k < old(self).items@.len(),
            sorted_suffix(cards_of(old(self).items@), k as int + 1),
        ensures
            final(self).wf_items(),
            k <= idx < old(self).items@.len(),
            final(self).items@ == old(self).items@.remove(k as int).insert(
                idx as int,
                old(self).items@[k as int],
            ),
            sorted_suffix(cards_of(final(self).items@), k as int),
    {
        let n = self.items.len();
        let key = self.items[k].len();
        let mut lo: usize = k + 1;
        let mut hi: usize = n;
        while lo < hi
            invariant
                old(self).wf_items(),
                self.items@ == old(self).items@,
                k < n,
                n == self.items@.len(),
                k + 1 <= lo <= hi <= n,
                key == self.items@[k as int].cardc(),
                sorted_suffix(cards_of(self.items@), k as int + 1),
                forall|t: int| k < t < lo ==> (#[trigger] self.items@[t]).cardc() < key,
                forall|t: int| hi <= t < n ==> (#[trigger] self.items@[t]).cardc() >= key,
            decreases hi - lo,
        {
            let mid = lo + (hi - lo) / 2;
            if self.items[mid].len() < key {
                proof {
                    assert forall|t: int| k < t < mid + 1 implies (#[trigger] self.items@[t]).cardc()
                        < key by {
                        if t < mid {
                            assert(cards_of(self.items@)[t] <= cards_of(self.items@)[mid as int]);
                        }
                    }
                }
                lo = mid + 1;
            } else {
                proof {
                    assert forall|t: int| mid <= t < n implies (#[trigger] self.items@[t]).cardc()
                        >= key by {
                        if t > mid {
                            assert(cards_of(self.items@)[mid as int] <= cards_of(self.items@)[t]);
                        }
                    }
                }
                hi = mid;
            }
        }
        let idx = lo - 1;
        let ghost pre = self.items@;
        if idx > k {
            let c = self.items.remove(k);
            self.items.insert(idx, c);
        }
        proof {
            let post = self.items@;
            let fin = pre.remove(k as int).insert(idx as int, pre[k as int]);
            if idx == k {
                assert(post =~= fin);
            } else {
                assert(post == fin);
            }
            assert forall|i: int| 0 <= i < post.len() implies (#[trigger] post[i]).wf() by {
                if i < k {
                    assert(post[i] == pre[i]);
                } else if i < idx {
                    assert(post[i] == pre[i + 1]);
                } else if i == idx {
                    assert(post[i] == pre[k as int]);
                } else {
                    assert(post[i] == pre[i]);
                }
            }
            assert forall|i: int, j: int|
                k as int <= i < j < post.len() && 0 <= i implies cards_of(post)[i] <= cards_of(
                post,
            )[j] by {
                let ci = if i < k {
                    pre[i].cardc() as int
                } else if i < idx {
                    pre[i + 1].cardc() as int
                } else if i == idx {
                    key as int
                } else {
                    pre[i].cardc() as int
                };
                assert(cards_of(post)[i] == ci);
                let cj = if j < idx {
                    pre[j + 1].cardc() as int
                } else if j == idx {
                    key as int
                } else {
                    pre[j].cardc() as int
                };
                assert(cards_of(post)[j] == cj);
                if i < idx {
                    assert(pre[i + 1].cardc() < key);
                }
                if j > idx {
                    assert(cards_of(pre)[j] >= key);
                }
                if i < idx && j < idx {
                    assert(cards_of(pre)[i + 1] <= cards_of(pre)[j + 1]);
                }
                if i > idx && j > idx {
                    assert(cards_of(pre)[i] <= cards_of(pre)[j]);
                }
            }
        }
        idx
    }
}

impl Descent for ClauseSet {
    open spec fn dwell(&self) -> bool {
        self.wf_items()
    }

    open spec fn dkeys(&self) -> Seq<int> {
        cards_of(self.items@)
    }

    fn descend(&mut self, k: usize) -> (idx: usize) {
        let idx = self.descend_clause(k);
        proof {
            let pre = old(self).items@;
            assert(cards_of(pre).len() == pre.len());
            assert(self.items@.len() == pre.len());
            lemma_cards_of_remove(pre, k as int);
            lemma_cards_of_insert(pre.remove(k as int), idx as int, pre[k as int]);
            assert(cards_of(pre)[k as int] == pre[k as int].cardc() as int);
        }
        idx
    }
}

impl Ascent for ClauseSet {
    open spec fn awell(&self) -> bool {
        self.wf_items()
    }

    open spec fn akeys(&self) -> Seq<int> {
        cards_of(self.items@)
    }

    fn ascend(&mut self, k: usize) -> (idx: usize) {
        let idx = self.ascend_clause(k);
        proof {
            let pre = old(self).items@;
            assert(cards_of(pre).len() == pre.len());
            assert(self.items@.len() == pre.len());
            lemma_cards_of_remove(pre, k as int);
            lemma_cards_of_insert(pre.remove(k as int), idx as int, pre[k as int]);
            assert(cards_of(pre)[k as int] == pre[k as int].cardc() as int);
        }
        idx
    }
}

} // verus!
