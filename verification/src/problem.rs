//! The inprocessing engine: a problem holds the clause set, the
//! literals committed by branching (`guessed`), the literals forced by
//! pure-literal elimination (`deduced`), and the stack of recently
//! shrunk clause indices (`recents`).  Kernelization keeps the set
//! sorted, tautology-free, subsumption-free and symmetry-free; the
//! solver branches on a literal of the smallest clause after splitting
//! the set into variable-disjoint components.

use vstd::prelude::*;

use crate::clause::valid_lit;
use crate::clause::Clause;
use crate::clause::VAR_LIMIT;
use crate::clause_set::all_wf;
use crate::clause_set::cards_of;
use crate::clause_set::no_subsumption;
use crate::clause_set::no_symmetry;
use crate::clause_set::no_taut;
use crate::clause_set::sorted_cards;
use crate::clause_set::subset_lits;
use crate::clause_set::total_cards;
use crate::clause_set::ClauseSet;
use crate::logic::clause_sat;
use crate::logic::formula_sat;
use crate::logic::lit_sat;
use crate::logic::satisfiable;

verus! {

/// The variable of a literal.
pub open spec fn vabs(l: int) -> int {
    if l > 0 {
        l
    } else {
        -l
    }
}

/// Variable `v` occurs somewhere in the clause sequence.
pub open spec fn var_in(s: Seq<Clause>, v: int) -> bool {
    exists|i: int| 0 <= i < s.len() && (#[trigger] s[i]).varb(v)
}

/// No literal of the pair `guessed`/`deduced` also occurs complemented.
pub open spec fn consistent_pair(g: Clause, d: Clause) -> bool {
    forall|l: int|
        #![trigger g.lit_in(l)]
        #![trigger d.lit_in(l)]
        (g.lit_in(l) || d.lit_in(l)) ==> !(g.lit_in(-l) || d.lit_in(-l))
}

/// `c` is one of the clauses of `orig`.
pub open spec fn in_seq(c: Clause, orig: Seq<Clause>) -> bool {
    exists|j: int| 0 <= j < orig.len() && orig[j] == c
}

/// Every clause of `s` already stood in `orig`.
pub open spec fn from_among(s: Seq<Clause>, orig: Seq<Clause>) -> bool {
    forall|i: int| 0 <= i < s.len() ==> in_seq(#[trigger] s[i], orig)
}

/// The clause sequence as literal sets.
pub open spec fn lits_of(s: Seq<Clause>) -> Seq<Set<int>> {
    s.map_values(|c: Clause| c.lits())
}

/// Every literal of the two accumulators holds under `asg`.
pub open spec fn respects(asg: Set<int>, g: Clause, d: Clause) -> bool {
    forall|m: int|
        #![trigger g.lit_in(m)]
        #![trigger d.lit_in(m)]
        (g.lit_in(m) || d.lit_in(m)) ==> lit_sat(asg, m)
}

/// Any assignment that honours the accumulators and satisfies the
/// clauses after a step also satisfied the clauses before it.
pub open spec fn reflects(pre: Seq<Clause>, post: Seq<Clause>, g: Clause, d: Clause) -> bool {
    forall|asg: Set<int>|
        respects(asg, g, d) && formula_sat(asg, lits_of(post)) ==> #[trigger] formula_sat(
            asg,
            lits_of(pre),
        )
}

/// A satisfied clause that stands in the sequence makes its slot of the
/// formula true.
pub proof fn lemma_in_seq_sat(asg: Set<int>, s: Seq<Clause>, c: Clause, j: int)
    requires
        0 <= j < s.len(),
        s[j] == c,
        formula_sat(asg, lits_of(s)),
    ensures
        clause_sat(asg, c.lits()),
{
    assert(lits_of(s)[j] == c.lits());
}

/// Satisfying a clause also satisfies every clause containing it.
pub proof fn lemma_subset_sat(asg: Set<int>, a: Clause, b: Clause)
    requires
        subset_lits(a, b),
        clause_sat(asg, a.lits()),
    ensures
        clause_sat(asg, b.lits()),
{
    let m = choose|m: int| #[trigger] a.lits().contains(m) && lit_sat(asg, m);
    assert(a.lit_in(m));
    assert(b.lit_in(m));
    assert(b.lits().contains(m) && lit_sat(asg, m));
}

/// Some clause of `s` is contained in `c`.
#[verifier::opaque]
pub open spec fn covered(s: Seq<Clause>, c: Clause) -> bool {
    exists|w: int| 0 <= w < s.len() && subset_lits(#[trigger] s[w], c)
}

/// Every clause of `orig` contains some clause of `s`.
#[verifier::opaque]
pub open spec fn covers(s: Seq<Clause>, orig: Seq<Clause>) -> bool {
    forall|j: int| 0 <= j < orig.len() ==> covered(s, #[trigger] orig[j])
}

/// A covering sequence reflects satisfaction.
pub proof fn lemma_covers_reflects(pre: Seq<Clause>, post: Seq<Clause>, g: Clause, d: Clause)
    requires
        covers(post, pre),
    ensures
        reflects(pre, post, g, d),
{
    reveal(covers);
    reveal(covered);
    assert forall|asg: Set<int>|
        respects(asg, g, d) && formula_sat(asg, lits_of(post)) implies #[trigger] formula_sat(
        asg,
        lits_of(pre),
    ) by {
        assert forall|j: int| 0 <= j < lits_of(pre).len() implies clause_sat(
            asg,
            #[trigger] lits_of(pre)[j],
        ) by {
            assert(covered(post, pre[j]));
            let w = choose|w: int| 0 <= w < post.len() && subset_lits(#[trigger] post[w], pre[j]);
            lemma_in_seq_sat(asg, post, post[w], w);
            lemma_subset_sat(asg, post[w], pre[j]);
            assert(lits_of(pre)[j] == pre[j].lits());
        }
    }
}

/// `covers` composes.
pub proof fn lemma_covers_trans(a: Seq<Clause>, b: Seq<Clause>, c: Seq<Clause>)
    requires
        covers(a, b),
        covers(b, c),
    ensures
        covers(a, c),
{
    reveal(covers);
    reveal(covered);
    assert forall|j: int| 0 <= j < c.len() implies covered(a, #[trigger] c[j]) by {
        assert(covered(b, c[j]));
        let wb = choose|wb: int| 0 <= wb < b.len() && subset_lits(#[trigger] b[wb], c[j]);
        assert(covered(a, b[wb]));
        let wa = choose|wa: int| 0 <= wa < a.len() && subset_lits(#[trigger] a[wa], b[wb]);
        assert(subset_lits(a[wa], c[j])) by {
            assert forall|m: int| a[wa].lit_in(m) implies c[j].lit_in(m) by {
                assert(b[wb].lit_in(m));
            }
        }
    }
}

/// Every assignment satisfying the clauses before a step still
/// satisfies them after it.
pub open spec fn preserved(pre: Seq<Clause>, post: Seq<Clause>) -> bool {
    forall|asg: Set<int>|
        formula_sat(asg, lits_of(pre)) ==> #[trigger] formula_sat(asg, lits_of(post))
}

/// A step whose clauses all already stood in the input preserves every
/// model.
pub proof fn lemma_from_among_forward(pre: Seq<Clause>, post: Seq<Clause>)
    requires
        from_among(post, pre),
    ensures
        preserved(pre, post),
{
    assert forall|asg: Set<int>|
        formula_sat(asg, lits_of(pre)) implies #[trigger] formula_sat(asg, lits_of(post)) by {
        assert forall|t: int| 0 <= t < lits_of(post).len() implies clause_sat(
            asg,
            #[trigger] lits_of(post)[t],
        ) by {
            let u = choose|u: int| 0 <= u < pre.len() && pre[u] == post[t];
            lemma_in_seq_sat(asg, pre, pre[u], u);
            assert(lits_of(post)[t] == post[t].lits());
        }
    }
}

/// `preserved` composes.
pub proof fn lemma_preserved_trans(a: Seq<Clause>, b: Seq<Clause>, c: Seq<Clause>)
    requires
        preserved(a, b),
        preserved(b, c),
    ensures
        preserved(a, c),
{
    assert forall|asg: Set<int>|
        formula_sat(asg, lits_of(a)) implies #[trigger] formula_sat(asg, lits_of(c)) by {
        assert(formula_sat(asg, lits_of(b)));
    }
}

/// The heart of self-subsumption, forward: when `c` differs from `d`
/// by the single literal `-b` and `c` is no tautology, an assignment
/// satisfying both clauses also satisfies `d` without `b`.
pub proof fn lemma_sym_forward(asg: Set<int>, c: Clause, d: Clause, b: int)
    requires
        c.sym_gives(d, b),
        !c.tautc(),
        clause_sat(asg, c.lits()),
        clause_sat(asg, d.lits()),
    ensures
        clause_sat(asg, d.lits().remove(b)),
{
    let m = choose|m: int| #[trigger] d.lits().contains(m) && lit_sat(asg, m);
    if m != b {
        assert(d.lits().remove(b).contains(m) && lit_sat(asg, m));
    } else {
        // `b` held, so `-b` fails; `c` is satisfied by another of its
        // literals, which also stands in `d` and is not `b`
        assert(!lit_sat(asg, -b));
        let m2 = choose|m2: int| #[trigger] c.lits().contains(m2) && lit_sat(asg, m2);
        assert(m2 != -b);
        assert(c.lit_in(m2));
        assert(!c.diff_lit(d, m2) || m2 == -b);
        assert(d.lit_in(m2));
        if m2 == b {
            // then `c` holds both `b` and `-b`
            assert(c.diff_lit(d, -b));
            assert(c.lit_in(-b));
            if b > 0 {
                assert(c.posb(b) && c.negb(b));
            } else {
                assert(c.posb(-b) && c.negb(-b));
            }
            assert(false);
        }
        assert(d.lits().remove(b).contains(m2) && lit_sat(asg, m2));
    }
}

/// Reflection steps compose, as long as the accumulators only grow.
pub proof fn lemma_reflects_trans(
    a: Seq<Clause>,
    b: Seq<Clause>,
    c: Seq<Clause>,
    g1: Clause,
    d1: Clause,
    g2: Clause,
    d2: Clause,
)
    requires
        reflects(a, b, g1, d1),
        reflects(b, c, g2, d2),
        forall|m: int| #[trigger] g1.lit_in(m) ==> g2.lit_in(m) || d2.lit_in(m),
        forall|m: int| #[trigger] d1.lit_in(m) ==> g2.lit_in(m) || d2.lit_in(m),
    ensures
        reflects(a, c, g2, d2),
{
    assert forall|asg: Set<int>|
        respects(asg, g2, d2) && formula_sat(asg, lits_of(c)) implies #[trigger] formula_sat(
        asg,
        lits_of(a),
    ) by {
        assert(formula_sat(asg, lits_of(b)));
        assert(respects(asg, g1, d1)) by {
            assert forall|m: int|
                #![trigger g1.lit_in(m)]
                #![trigger d1.lit_in(m)]
                (g1.lit_in(m) || d1.lit_in(m)) implies lit_sat(asg, m) by {
                assert(g2.lit_in(m) || d2.lit_in(m));
            }
        }
        assert(formula_sat(asg, lits_of(a)));
    }
}

/// Removing a clause that contains an earlier one keeps the cover.
pub proof fn lemma_covers_after_removal(mid: Seq<Clause>, j: int, i: int)
    requires
        0 <= i < j < mid.len(),
        subset_lits(mid[i as int], mid[j as int]),
    ensures
        covers(mid.remove(j), mid),
{
    reveal(covers);
    reveal(covered);
    let post = mid.remove(j);
    assert forall|jj: int| 0 <= jj < mid.len() implies covered(post, #[trigger] mid[jj]) by {
        if jj < j {
            assert(post[jj] == mid[jj]);
            assert(subset_lits(post[jj], mid[jj]));
        } else if jj > j {
            assert(post[jj - 1] == mid[jj]);
            assert(subset_lits(post[jj - 1], mid[jj]));
        } else {
            assert(post[i] == mid[i]);
            assert(subset_lits(post[i], mid[jj]));
        }
    }
}

/// A cover extends to any clause present in the covered sequence.
pub proof fn lemma_covers_member(s: Seq<Clause>, orig: Seq<Clause>, c: Clause)
    requires
        covers(s, orig),
        in_seq(c, orig),
    ensures
        covered(s, c),
{
    reveal(covers);
    let w = choose|w: int| 0 <= w < orig.len() && orig[w] == c;
}

/// A covered clause is satisfied along with its covering sequence.
pub proof fn lemma_covered_sat(asg: Set<int>, s: Seq<Clause>, c: Clause)
    requires
        covered(s, c),
        formula_sat(asg, lits_of(s)),
    ensures
        clause_sat(asg, c.lits()),
{
    reveal(covered);
    let w = choose|w: int| 0 <= w < s.len() && subset_lits(#[trigger] s[w], c);
    lemma_in_seq_sat(asg, s, s[w], w);
    lemma_subset_sat(asg, s[w], c);
}

/// Presence of every clause, value for value, yields a cover.
pub proof fn lemma_in_seq_covers(s: Seq<Clause>, orig: Seq<Clause>)
    requires
        forall|j: int| 0 <= j < orig.len() ==> in_seq(#[trigger] orig[j], s),
    ensures
        covers(s, orig),
{
    reveal(covers);
    reveal(covered);
    assert forall|j: int| 0 <= j < orig.len() implies covered(s, #[trigger] orig[j]) by {
        let w = choose|w: int| 0 <= w < s.len() && s[w] == orig[j];
        assert(subset_lits(s[w], orig[j]));
    }
}

pub struct Problem {
    pub nv: usize,
    pub clauses: ClauseSet,
    pub guessed: Clause,
    pub deduced: Clause,
    pub recents: Vec<usize>,
}

impl Problem {
    /// The clause sequence.
    pub open spec fn sview(self) -> Seq<Clause> {
        self.clauses.items@
    }

    /// Shape and bookkeeping well-formedness: every clause, and the two
    /// accumulators, speak of the same `nv` variables; the accumulators
    /// never contradict themselves, and their variables are kept apart
    /// from the live clauses'.
    pub open spec fn base_wf(self) -> bool {
        &&& self.nv <= VAR_LIMIT
        &&& all_wf(self.sview(), self.nv as int)
        &&& self.guessed.wf() && self.guessed.nv == self.nv
        &&& self.deduced.wf() && self.deduced.nv == self.nv
    }

    /// The separation of assigned variables from live clauses.
    pub open spec fn vars_separated(self) -> bool {
        forall|v: int|
            #[trigger] var_in(self.sview(), v) ==> !self.guessed.varb(v) && !self.deduced.varb(v)
    }

    /// What every kernelization step preserves.
    pub open spec fn kernel_wf(self) -> bool {
        &&& self.base_wf()
        &&& sorted_cards(self.sview())
        &&& no_taut(self.sview())
        &&& consistent_pair(self.guessed, self.deduced)
        &&& self.vars_separated()
    }

    /// The engine's resting state: the invariant that holds after every
    /// public engine call.
    pub open spec fn prepared(self) -> bool {
        &&& self.kernel_wf()
        &&& self.recents@.len() == 0
        &&& no_subsumption(self.sview())
        &&& no_symmetry(self.sview())
    }

    /// A fresh problem over `vrs` variables with no clauses.
    pub fn new(vrs: usize) -> (r: Problem)
        requires
            vrs <= VAR_LIMIT,
        ensures
            r.prepared(),
            r.nv == vrs,
            r.sview().len() == 0,
            forall|l: int| !r.guessed.lit_in(l),
            forall|l: int| !r.deduced.lit_in(l),
    {
        Problem {
            nv: vrs,
            clauses: ClauseSet::new(),
            guessed: Clause::new(vrs),
            deduced: Clause::new(vrs),
            recents: Vec::new(),
        }
    }

    /// Number of clauses.
    pub fn clause_count(&self) -> (n: usize)
        ensures
            n == self.sview().len(),
    {
        self.clauses.len()
    }

    /// Number of variables.
    pub fn variables(&self) -> (n: usize)
        ensures
            n == self.nv,
    {
        self.nv
    }

    /// Adds a clause given by its literals, during the building phase.
    pub fn add_clause(&mut self, literals: &Vec<isize>)
        requires
            old(self).base_wf(),
            forall|t: int|
                0 <= t < literals@.len() ==> valid_lit(
                    #[trigger] literals@[t] as int,
                    old(self).nv as int,
                ),
        ensures
            final(self).base_wf(),
            final(self).nv == old(self).nv,
            final(self).guessed == old(self).guessed,
            final(self).deduced == old(self).deduced,
            final(self).recents@ == old(self).recents@,
            final(self).sview().len() == old(self).sview().len() + 1,
            forall|i: int|
                0 <= i < old(self).sview().len() ==> final(self).sview()[i] == old(self).sview()[i],
            forall|m: int|
                final(self).sview().last().lit_in(m) == exists|t: int|
                    0 <= t < literals@.len() && literals@[t] as int == m,
    {
        let mut c = Clause::new(self.nv);
        let mut t: usize = 0;
        while t < literals.len()
            invariant
                c.wf(),
                c.nv == old(self).nv,
                old(self).nv <= VAR_LIMIT,
                t <= literals@.len(),
                forall|u: int|
                    0 <= u < literals@.len() ==> valid_lit(
                        #[trigger] literals@[u] as int,
                        old(self).nv as int,
                    ),
                forall|m: int|
                    c.lit_in(m) == exists|u: int| 0 <= u < t && literals@[u] as int == m,
            decreases literals@.len() - t,
        {
            let ghost c0 = c;
            c.set_literal(literals[t]);
            proof {
                assert forall|m: int|
                    c.lit_in(m) == exists|u: int| 0 <= u < t + 1 && literals@[u] as int == m by {
                    if c.lit_in(m) {
                        if m == literals@[t as int] as int {
                            assert(literals@[t as int] as int == m);
                        } else {
                            let u = choose|u: int| 0 <= u < t && literals@[u] as int == m;
                            assert(literals@[u] as int == m);
                        }
                    } else {
                        if exists|u: int| 0 <= u < t + 1 && literals@[u] as int == m {
                            let u = choose|u: int| 0 <= u < t + 1 && literals@[u] as int == m;
                            if u < t {
                                assert(c0.lit_in(m));
                            }
                            assert(c.lit_in(m));
                        }
                    }
                }
            }
            t = t + 1;
        }
        self.clauses.push(c);
        proof {
            assert forall|i: int|
                0 <= i < final(self).sview().len() implies (#[trigger] final(self).sview()[i]).wf()
                && final(self).sview()[i].nv == final(self).nv by {
                if i < old(self).sview().len() {
                    assert(old(self).sview()[i].wf() && old(self).sview()[i].nv == old(self).nv);
                }
            }
        }
    }

    /// Drops every tautologous clause.
    pub fn remove_tautologies(&mut self)
        requires
            old(self).base_wf(),
        ensures
            final(self).base_wf(),
            final(self).nv == old(self).nv,
            final(self).guessed == old(self).guessed,
            final(self).deduced == old(self).deduced,
            final(self).recents@ == old(self).recents@,
            no_taut(final(self).sview()),
            final(self).sview().len() <= old(self).sview().len(),
            from_among(final(self).sview(), old(self).sview()),
            forall|j: int|
                0 <= j < old(self).sview().len() && !(#[trigger] old(self).sview()[j]).tautc()
                    ==> in_seq(old(self).sview()[j], final(self).sview()),
            reflects(
                old(self).sview(),
                final(self).sview(),
                final(self).guessed,
                final(self).deduced,
            ),
            preserved(old(self).sview(), final(self).sview()),
    {
        let ghost pre = self.sview();
        proof {
            assert forall|t: int| 0 <= t < pre.len() implies in_seq(#[trigger] pre[t], pre) by {
                assert(pre[t] == pre[t]);
            }
        }
        let mut i: usize = 0;
        while i < self.clauses.len()
            invariant
                self.nv == old(self).nv,
                self.guessed == old(self).guessed,
                self.deduced == old(self).deduced,
                self.recents@ == old(self).recents@,
                old(self).base_wf(),
                all_wf(self.sview(), self.nv as int),
                self.nv <= VAR_LIMIT,
                self.guessed.wf() && self.guessed.nv == self.nv,
                self.deduced.wf() && self.deduced.nv == self.nv,
                i <= self.sview().len(),
                self.sview().len() <= pre.len(),
                forall|t: int| 0 <= t < i ==> !(#[trigger] self.sview()[t]).tautc(),
                from_among(self.sview(), pre),
                forall|j: int|
                    0 <= j < pre.len() && !(#[trigger] pre[j]).tautc() ==> in_seq(
                        pre[j],
                        self.sview(),
                    ),
            decreases self.sview().len() - i,
        {
            let taut = self.clauses.get(i).tautologous();
            if taut {
                let ghost mid = self.sview();
                let _ = self.clauses.remove_at(i);
                proof {
                    assert forall|t: int|
                        0 <= t < self.sview().len() implies in_seq(
                        #[trigger] self.sview()[t],
                        pre,
                    ) by {
                        if t < i {
                            assert(self.sview()[t] == mid[t]);
                        } else {
                            assert(self.sview()[t] == mid[t + 1]);
                        }
                    }
                    assert forall|j: int|
                        0 <= j < pre.len() && !(#[trigger] pre[j]).tautc() implies in_seq(
                        pre[j],
                        self.sview(),
                    ) by {
                        let w = choose|w: int| 0 <= w < mid.len() && mid[w] == pre[j];
                        // the removed clause was tautologous, so the
                        // witness stands elsewhere
                        assert(w != i);
                        if w < i {
                            assert(self.sview()[w] == pre[j]);
                        } else {
                            assert(self.sview()[w - 1] == pre[j]);
                        }
                    }
                    assert forall|t: int|
                        0 <= t < self.sview().len() implies (#[trigger] self.sview()[t]).wf()
                        && self.sview()[t].nv == self.nv by {
                        if t < i {
                            assert(self.sview()[t] == mid[t]);
                        } else {
                            assert(self.sview()[t] == mid[t + 1]);
                        }
                    }
                }
            } else {
                i = i + 1;
            }
        }
        proof {
            let post = self.sview();
            assert forall|asg: Set<int>|
                respects(asg, self.guessed, self.deduced) && formula_sat(
                    asg,
                    lits_of(post),
                ) implies #[trigger] formula_sat(asg, lits_of(pre)) by {
                assert forall|j: int| 0 <= j < lits_of(pre).len() implies clause_sat(
                    asg,
                    #[trigger] lits_of(pre)[j],
                ) by {
                    assert(lits_of(pre)[j] == pre[j].lits());
                    if pre[j].tautc() {
                        crate::logic::lemma_tautc_is_taut_lits(pre[j]);
                        crate::logic::lemma_taut_clause_sat(asg, pre[j].lits());
                    } else {
                        assert(in_seq(pre[j], post));
                        let w = choose|w: int| 0 <= w < post.len() && post[w] == pre[j];
                        lemma_in_seq_sat(asg, post, post[w], w);
                    }
                }
            }
            lemma_from_among_forward(pre, self.sview());
        }
    }

    /// Sorts the clauses by cardinality, stably, by insertion.
    pub fn sort_clauses(&mut self)
        requires
            old(self).base_wf(),
        ensures
            final(self).base_wf(),
            final(self).nv == old(self).nv,
            final(self).guessed == old(self).guessed,
            final(self).deduced == old(self).deduced,
            final(self).recents@ == old(self).recents@,
            sorted_cards(final(self).sview()),
            final(self).sview().len() == old(self).sview().len(),
            from_among(final(self).sview(), old(self).sview()),
            no_taut(old(self).sview()) ==> no_taut(final(self).sview()),
            forall|j: int|
                0 <= j < old(self).sview().len() ==> in_seq(
                    #[trigger] old(self).sview()[j],
                    final(self).sview(),
                ),
            reflects(
                old(self).sview(),
                final(self).sview(),
                final(self).guessed,
                final(self).deduced,
            ),
            preserved(old(self).sview(), final(self).sview()),
    {
        let ghost pre = self.sview();
        proof {
            assert forall|t: int| 0 <= t < pre.len() implies in_seq(#[trigger] pre[t], pre) by {
                assert(pre[t] == pre[t]);
            }
        }
        let mut k: usize = 1;
        while k < self.clauses.len()
            invariant
                self.nv == old(self).nv,
                self.guessed == old(self).guessed,
                self.deduced == old(self).deduced,
                self.recents@ == old(self).recents@,
                old(self).base_wf(),
                all_wf(self.sview(), self.nv as int),
                self.nv <= VAR_LIMIT,
                self.guessed.wf() && self.guessed.nv == self.nv,
                self.deduced.wf() && self.deduced.nv == self.nv,
                1 <= k,
                self.sview().len() == pre.len(),
                crate::utils::sorted_prefix(cards_of(self.sview()), k as int),
                from_among(self.sview(), pre),
                no_taut(pre) ==> no_taut(self.sview()),
                forall|j: int| 0 <= j < pre.len() ==> in_seq(#[trigger] pre[j], self.sview()),
            decreases self.sview().len() - k,
        {
            let ghost mid = self.sview();
            let idx = self.clauses.descend_clause(k);
            proof {
                let post = self.sview();
                assert forall|j: int| 0 <= j < pre.len() implies in_seq(
                    #[trigger] pre[j],
                    post,
                ) by {
                    let w = choose|w: int| 0 <= w < mid.len() && mid[w] == pre[j];
                    if w < idx {
                        assert(post[w] == pre[j]);
                    } else if w == k as int {
                        assert(post[idx as int] == pre[j]);
                    } else if w <= k {
                        assert(post[w + 1] == pre[j]);
                    } else {
                        assert(post[w] == pre[j]);
                    }
                }
                assert forall|i: int| 0 <= i < post.len() implies in_seq(
                    #[trigger] post[i],
                    mid,
                ) by {
                    if i < idx {
                        assert(post[i] == mid[i]);
                    } else if i == idx {
                        assert(post[i] == mid[k as int]);
                    } else if i <= k {
                        assert(post[i] == mid[i - 1]);
                    } else {
                        assert(post[i] == mid[i]);
                    }
                }
                assert forall|i: int|
                    0 <= i < post.len() implies in_seq(#[trigger] post[i], pre) && (
                #[trigger] post[i]).wf() && post[i].nv == self.nv && (no_taut(pre)
                    ==> !post[i].tautc()) by {
                    let j = choose|j: int| 0 <= j < mid.len() && mid[j] == post[i];
                    assert(in_seq(mid[j], pre));
                    let j2 = choose|j2: int| 0 <= j2 < pre.len() && pre[j2] == mid[j];
                }
            }
            k = k + 1;
        }
        proof {
            if self.sview().len() > 1 {
                assert(crate::utils::sorted_prefix(cards_of(self.sview()), self.sview().len() as int));
            }
            assert forall|i: int, j: int|
                0 <= i < j < self.sview().len() implies (#[trigger] self.sview()[i]).cardc() <= (
            #[trigger] self.sview()[j]).cardc() by {
                assert(cards_of(self.sview())[i] <= cards_of(self.sview())[j]);
            }
            lemma_in_seq_covers(self.sview(), pre);
            lemma_covers_reflects(pre, self.sview(), self.guessed, self.deduced);
            lemma_from_among_forward(pre, self.sview());
        }
    }

    /// Pairs with first index below `upto` are free of subsumption.
    pub open spec fn swept(s: Seq<Clause>, upto: int) -> bool {
        forall|a: int, b: int|
            0 <= a < b < s.len() && a < upto ==> !subset_lits(#[trigger] s[a], #[trigger] s[b])
    }

    /// What dropping one clause preserves.
    proof fn lemma_removal_step(mid: Seq<Clause>, j: int, nv: int)
        requires
            0 <= j < mid.len(),
        ensures
            all_wf(mid, nv) ==> all_wf(mid.remove(j), nv),
            sorted_cards(mid) ==> sorted_cards(mid.remove(j)),
            no_taut(mid) ==> no_taut(mid.remove(j)),
            total_cards(mid.remove(j)) <= total_cards(mid),
            forall|v: int| var_in(mid.remove(j), v) ==> var_in(mid, v),
            from_among(mid.remove(j), mid),
            no_subsumption(mid) ==> no_subsumption(mid.remove(j)),
            no_symmetry(mid) ==> no_symmetry(mid.remove(j)),
    {
        let t = mid.remove(j);
        crate::clause_set::lemma_total_cards_remove(mid, j);
        assert forall|i: int| 0 <= i < t.len() implies in_seq(#[trigger] t[i], mid) by {
            let i2 = if i < j {
                i
            } else {
                i + 1
            };
            assert(t[i] == mid[i2]);
        }
        assert forall|i: int|
            0 <= i < t.len() implies ((all_wf(mid, nv) ==> (#[trigger] t[i]).wf() && t[i].nv == nv)
            && (no_taut(mid) ==> !t[i].tautc())) by {
            let i2 = if i < j {
                i
            } else {
                i + 1
            };
            assert(t[i] == mid[i2]);
        }
        assert forall|v: int| var_in(t, v) implies var_in(mid, v) by {
            let i = choose|i: int| 0 <= i < t.len() && (#[trigger] t[i]).varb(v);
            let i2 = if i < j {
                i
            } else {
                i + 1
            };
            assert(mid[i2].varb(v));
        }
        assert forall|a: int, b: int|
            0 <= a < b < t.len() implies ((sorted_cards(mid) ==> (#[trigger] t[a]).cardc() <= (
        #[trigger] t[b]).cardc()) && (no_subsumption(mid) ==> !subset_lits(t[a], t[b])) && (
        no_symmetry(mid) ==> t[a].sym_clear(t[b]))) by {
            let a2 = if a < j {
                a
            } else {
                a + 1
            };
            let b2 = if b < j {
                b
            } else {
                b + 1
            };
            assert(t[a] == mid[a2] && t[b] == mid[b2]);
            if sorted_cards(mid) {
                assert(mid[a2].cardc() <= mid[b2].cardc());
            }
            if no_subsumption(mid) {
                assert(!subset_lits(mid[a2], mid[b2]));
            }
            if no_symmetry(mid) {
                assert(mid[a2].sym_clear(mid[b2]));
            }
        }
    }

    /// `from_among` carries the element-wise facts over.
    proof fn lemma_from_among_props(s: Seq<Clause>, orig: Seq<Clause>, nv: int)
        requires
            from_among(s, orig),
        ensures
            all_wf(orig, nv) ==> all_wf(s, nv),
            no_taut(orig) ==> no_taut(s),
            forall|v: int| var_in(s, v) ==> var_in(orig, v),
    {
        assert forall|i: int|
            0 <= i < s.len() implies ((all_wf(orig, nv) ==> (#[trigger] s[i]).wf() && s[i].nv == nv)
            && (no_taut(orig) ==> !s[i].tautc())) by {
            let j = choose|j: int| 0 <= j < orig.len() && orig[j] == s[i];
        }
        assert forall|v: int| var_in(s, v) implies var_in(orig, v) by {
            let i = choose|i: int| 0 <= i < s.len() && (#[trigger] s[i]).varb(v);
            let j = choose|j: int| 0 <= j < orig.len() && orig[j] == s[i];
            assert(orig[j].varb(v));
        }
    }

    proof fn lemma_from_among_trans(a: Seq<Clause>, b: Seq<Clause>, c: Seq<Clause>)
        requires
            from_among(a, b),
            from_among(b, c),
        ensures
            from_among(a, c),
    {
        assert forall|i: int| 0 <= i < a.len() implies in_seq(#[trigger] a[i], c) by {
            let j = choose|j: int| 0 <= j < b.len() && b[j] == a[i];
            assert(in_seq(b[j], c));
            let j2 = choose|j2: int| 0 <= j2 < c.len() && c[j2] == b[j];
        }
    }

    /// Deletes, for each earlier clause, every later clause that
    /// contains it.
    pub fn subsumption_sweep(&mut self)
        requires
            old(self).base_wf(),
            sorted_cards(old(self).sview()),
        ensures
            final(self).nv == old(self).nv,
            final(self).guessed == old(self).guessed,
            final(self).deduced == old(self).deduced,
            final(self).recents@ == old(self).recents@,
            all_wf(final(self).sview(), old(self).nv as int),
            sorted_cards(final(self).sview()),
            no_subsumption(final(self).sview()),
            from_among(final(self).sview(), old(self).sview()),
            total_cards(final(self).sview()) <= total_cards(old(self).sview()),
            final(self).sview().len() <= old(self).sview().len(),
            old(self).sview().len() > 0 ==> final(self).sview().len() > 0,
            covers(final(self).sview(), old(self).sview()),
            preserved(old(self).sview(), final(self).sview()),
    {
        let ghost pre = self.sview();
        proof {
            assert forall|t: int| 0 <= t < pre.len() implies in_seq(#[trigger] pre[t], pre) by {
                assert(pre[t] == pre[t]);
            }
            lemma_in_seq_covers(pre, pre);
        }
        let mut i: usize = 0;
        while i < self.clauses.len()
            invariant
                self.nv == old(self).nv,
                self.guessed == old(self).guessed,
                self.deduced == old(self).deduced,
                self.recents@ == old(self).recents@,
                old(self).nv <= VAR_LIMIT,
                all_wf(self.sview(), self.nv as int),
                sorted_cards(self.sview()),
                from_among(self.sview(), pre),
                i <= self.sview().len(),
                Problem::swept(self.sview(), i as int),
                total_cards(self.sview()) <= total_cards(pre),
                self.sview().len() <= pre.len(),
                pre.len() > 0 ==> self.sview().len() > 0,
                covers(self.sview(), pre),
            decreases self.sview().len() - i,
        {
            let ghost len0 = self.sview().len();
            let mut j: usize = i + 1;
            while j < self.clauses.len()
                invariant
                    self.nv == old(self).nv,
                    self.guessed == old(self).guessed,
                    self.deduced == old(self).deduced,
                    self.recents@ == old(self).recents@,
                    old(self).nv <= VAR_LIMIT,
                    all_wf(self.sview(), self.nv as int),
                    sorted_cards(self.sview()),
                    from_among(self.sview(), pre),
                    i < self.sview().len(),
                    i + 1 <= j <= self.sview().len(),
                    Problem::swept(self.sview(), i as int),
                    forall|b: int|
                        i < b < j ==> !subset_lits(
                            self.sview()[i as int],
                            #[trigger] self.sview()[b],
                        ),
                    total_cards(self.sview()) <= total_cards(pre),
                    self.sview().len() <= pre.len(),
                    self.sview().len() <= len0,
                    covers(self.sview(), pre),
                decreases self.sview().len() - j,
            {
                let a = self.clauses.get(i);
                let b = self.clauses.get(j);
                let sub = a.subset_of(b);
                if sub {
                    let ghost mid = self.sview();
                    let _ = self.clauses.remove_at(j);
                    proof {
                        Problem::lemma_removal_step(mid, j as int, self.nv as int);
                        Problem::lemma_from_among_trans(self.sview(), mid, pre);
                        lemma_covers_after_removal(mid, j as int, i as int);
                        lemma_covers_trans(self.sview(), mid, pre);
                        assert forall|a2: int, b2: int|
                            0 <= a2 < b2 < self.sview().len() && a2 < i as int implies !subset_lits(
                            #[trigger] self.sview()[a2],
                            #[trigger] self.sview()[b2],
                        ) by {
                            let bb = if b2 < j {
                                b2
                            } else {
                                b2 + 1
                            };
                            assert(self.sview()[a2] == mid[a2] && self.sview()[b2] == mid[bb]);
                            assert(!subset_lits(mid[a2], mid[bb]));
                        }
                        assert forall|b2: int|
                            i < b2 < j implies !subset_lits(
                            self.sview()[i as int],
                            #[trigger] self.sview()[b2],
                        ) by {
                            assert(self.sview()[b2] == mid[b2]);
                            assert(self.sview()[i as int] == mid[i as int]);
                        }
                    }
                } else {
                    j = j + 1;
                }
            }
            proof {
                assert forall|a2: int, b2: int|
                    0 <= a2 < b2 < self.sview().len() && a2 < i as int + 1 implies !subset_lits(
                    #[trigger] self.sview()[a2],
                    #[trigger] self.sview()[b2],
                ) by {
                    if a2 == i as int {
                        assert(!subset_lits(self.sview()[i as int], self.sview()[b2]));
                    }
                }
            }
            i = i + 1;
        }
        proof {
            lemma_from_among_forward(pre, self.sview());
        }
    }

    /// Scans for the first ordered pair admitting a self-subsumption
    /// step; returns the pair and the literal the later clause drops.
    pub fn find_symmetry(&self) -> (r: Option<(usize, usize, isize)>)
        requires
            self.base_wf(),
        ensures
            r matches Some(t) ==> t.0 < t.1 < self.sview().len() && valid_lit(
                t.2 as int,
                self.nv as int,
            ) && self.sview()[t.0 as int].sym_gives(self.sview()[t.1 as int], t.2 as int)
                && self.sview()[t.1 as int].lit_in(t.2 as int),
            r is None ==> no_symmetry(self.sview()),
    {
        let n = self.clauses.len();
        let mut i: usize = 0;
        while i < n
            invariant
                self.base_wf(),
                n == self.sview().len(),
                i <= n,
                forall|a: int, b: int|
                    0 <= a < b < n && a < i ==> (#[trigger] self.sview()[a]).sym_clear(
                        #[trigger] self.sview()[b],
                    ),
            decreases n - i,
        {
            let mut j: usize = i + 1;
            while j < n
                invariant
                    self.base_wf(),
                    n == self.sview().len(),
                    i < n,
                    i + 1 <= j <= n,
                    forall|b: int|
                        i < b < j ==> (self.sview()[i as int]).sym_clear(
                            #[trigger] self.sview()[b],
                        ),
            decreases n - j,
            {
                let a = self.clauses.get(i);
                let b = self.clauses.get(j);
                let res = a.symmetry_in(b);
                match res {
                    Some(bad) => {
                        return Some((i, j, bad));
                    },
                    None => {
                        j = j + 1;
                    },
                }
            }
            i = i + 1;
        }
        None
    }

    /// Records a shrunk clause's index, keeping the stack ascending.
    fn insert_recent(&mut self, k: usize)
        ensures
            final(self).nv == old(self).nv,
            final(self).clauses == old(self).clauses,
            final(self).guessed == old(self).guessed,
            final(self).deduced == old(self).deduced,
            final(self).recents@.len() == old(self).recents@.len() + 1,
    {
        let n = self.recents.len();
        let mut p: usize = n;
        while p > 0 && self.recents[p - 1] > k
            invariant
                p <= n,
                n == self.recents@.len(),
            decreases p,
        {
            p = p - 1;
        }
        self.recents.insert(p, k);
    }

    /// Removes literal `bad` from the clause at `j`, restores the sort
    /// order by descending the shrunk clause, and records its new index
    /// on `recents`.
    #[verifier::rlimit(60)]
    pub fn delete_literal(&mut self, j: usize, bad: isize)
        requires
            old(self).base_wf(),
            sorted_cards(old(self).sview()),
            j < old(self).sview().len(),
            old(self).sview()[j as int].lit_in(bad as int),
            valid_lit(bad as int, old(self).nv as int),
        ensures
            final(self).nv == old(self).nv,
            final(self).guessed == old(self).guessed,
            final(self).deduced == old(self).deduced,
            all_wf(final(self).sview(), old(self).nv as int),
            sorted_cards(final(self).sview()),
            total_cards(final(self).sview()) + 1 == total_cards(old(self).sview()),
            final(self).sview().len() == old(self).sview().len(),
            forall|v: int| var_in(final(self).sview(), v) ==> var_in(old(self).sview(), v),
            no_taut(old(self).sview()) ==> no_taut(final(self).sview()),
            final(self).recents@.len() == old(self).recents@.len() + 1,
            forall|t: int|
                j < t < old(self).sview().len() ==> final(self).sview()[t] == old(self).sview()[t],
            forall|t: int, m: int|
                #![trigger final(self).sview()[t].lit_in(m)]
                0 <= t <= j && final(self).sview()[t].lit_in(m) ==> ((exists|u: int|
                    0 <= u < j && (#[trigger] old(self).sview()[u]).lit_in(m)) || (m != bad as int
                    && old(self).sview()[j as int].lit_in(m))),
            covers(final(self).sview(), old(self).sview()),
            forall|asg: Set<int>|
                formula_sat(asg, lits_of(old(self).sview())) && clause_sat(
                    asg,
                    old(self).sview()[j as int].lits().remove(bad as int),
                ) ==> #[trigger] formula_sat(asg, lits_of(final(self).sview())),
    {
        let ghost pre = self.sview();
        let cref = &mut self.clauses.items[j];
        cref.unset_literal(bad);
        let ghost c2 = self.sview()[j as int];
        proof {
            assert(self.sview() =~= pre.update(j as int, c2));
            crate::clause_set::lemma_total_cards_update(pre, j as int, c2);
            assert(c2.cardc() + 1 == pre[j as int].cardc());
            assert forall|t: int|
                0 <= t < self.sview().len() implies (#[trigger] self.sview()[t]).wf()
                && self.sview()[t].nv == self.nv by {
                if t != j {
                    assert(self.sview()[t] == pre[t]);
                }
            }
            assert forall|a: int, b: int|
                0 <= a < b < j as int implies cards_of(self.sview())[a] <= cards_of(
                self.sview(),
            )[b] by {
                assert(self.sview()[a] == pre[a] && self.sview()[b] == pre[b]);
                assert(pre[a].cardc() <= pre[b].cardc());
            }
        }
        let ghost mid = self.sview();
        let idx = self.clauses.descend_clause(j);
        proof {
            let post = self.sview();
            crate::clause_set::lemma_total_cards_remove(mid, j as int);
            crate::clause_set::lemma_total_cards_insert(
                mid.remove(j as int),
                idx as int,
                mid[j as int],
            );
            // each new position holds an old clause or the shrunk one
            assert forall|t: int|
                0 <= t < post.len() implies (#[trigger] post[t]) == c2 || in_seq(post[t], pre) by {
                if t < idx {
                    assert(post[t] == mid[t] && mid[t] == pre[t]);
                } else if t == idx {
                    assert(post[t] == c2);
                } else if t <= j {
                    assert(post[t] == mid[t - 1] && mid[t - 1] == pre[t - 1]);
                } else {
                    assert(post[t] == mid[t] && mid[t] == pre[t]);
                }
            }
            assert forall|t: int|
                0 <= t < post.len() implies (#[trigger] post[t]).wf() && post[t].nv == self.nv && (
                no_taut(pre) ==> !post[t].tautc()) by {
                if post[t] == c2 {
                    if no_taut(pre) {
                        assert(!pre[j as int].tautc());
                        if c2.tautc() {
                            let v = choose|v: int| c2.posb(v) && c2.negb(v);
                            assert(c2.lit_in(v) && c2.lit_in(-v));
                            assert(pre[j as int].lit_in(v) && pre[j as int].lit_in(-v));
                            assert(pre[j as int].posb(v) && pre[j as int].negb(v));
                        }
                    }
                } else {
                    let u = choose|u: int| 0 <= u < pre.len() && pre[u] == post[t];
                }
            }
            assert forall|v: int| var_in(post, v) implies var_in(pre, v) by {
                let t = choose|t: int| 0 <= t < post.len() && (#[trigger] post[t]).varb(v);
                if post[t] == c2 {
                    if v > 0 {
                        if c2.posb(v) {
                            assert(pre[j as int].lit_in(v));
                            assert(pre[j as int].posb(v));
                        } else {
                            assert(c2.negb(v));
                            assert(pre[j as int].lit_in(-v));
                            assert(pre[j as int].negb(v));
                        }
                        assert(pre[j as int].varb(v));
                    } else {
                        assert(!c2.varb(v));
                    }
                } else {
                    let u = choose|u: int| 0 <= u < pre.len() && pre[u] == post[t];
                    assert(pre[u].varb(v));
                }
            }
            // full sortedness: the prefix is sorted by the descend, the
            // suffix was untouched, and everything left of `j` stays
            // at most the untouched suffix
            assert forall|a: int, b: int|
                0 <= a < b < post.len() implies (#[trigger] post[a]).cardc() <= (
            #[trigger] post[b]).cardc() by {
                if b <= j {
                    assert(cards_of(post)[a] <= cards_of(post)[b]);
                } else {
                    assert(post[b] == pre[b]);
                    if a == idx {
                        assert(post[a] == c2);
                        assert(c2.cardc() <= pre[j as int].cardc());
                        assert(pre[j as int].cardc() <= pre[b].cardc());
                    } else {
                        let a2 = if a < idx {
                            a
                        } else if a <= j {
                            a - 1
                        } else {
                            a
                        };
                        assert(post[a] == pre[a2]);
                        assert(pre[a2].cardc() <= pre[b].cardc());
                    }
                }
            }
        }
        proof {
            let post = self.sview();
            assert forall|t: int| j < t < pre.len() implies post[t] == pre[t] by {
                assert(post[t] == mid[t]);
            }
            assert forall|t: int, m: int|
                #![trigger post[t].lit_in(m)]
                0 <= t <= j && post[t].lit_in(m) implies ((exists|u: int|
                    0 <= u < j && (#[trigger] pre[u]).lit_in(m)) || (m != bad as int
                    && pre[j as int].lit_in(m))) by {
                if t < idx {
                    assert(post[t] == pre[t]);
                    assert(pre[t].lit_in(m));
                } else if t == idx {
                    assert(post[t] == c2);
                } else {
                    assert(post[t] == mid[t - 1] && mid[t - 1] == pre[t - 1]);
                    assert(pre[t - 1].lit_in(m));
                }
            }
            assert(covers(post, pre)) by {
                reveal(covers);
                reveal(covered);
                assert forall|jj: int| 0 <= jj < pre.len() implies covered(
                    post,
                    #[trigger] pre[jj],
                ) by {
                    if jj == j {
                        assert(post[idx as int] == c2);
                        assert(subset_lits(post[idx as int], pre[jj]));
                    } else if jj < idx {
                        assert(post[jj] == pre[jj]);
                        assert(subset_lits(post[jj], pre[jj]));
                    } else if jj < j {
                        assert(post[jj + 1] == mid[jj] && mid[jj] == pre[jj]);
                        assert(subset_lits(post[jj + 1], pre[jj]));
                    } else {
                        assert(post[jj] == pre[jj]);
                        assert(subset_lits(post[jj], pre[jj]));
                    }
                }
            }
            assert(c2.lits() =~= pre[j as int].lits().remove(bad as int));
            assert forall|asg: Set<int>|
                formula_sat(asg, lits_of(pre)) && clause_sat(
                    asg,
                    pre[j as int].lits().remove(bad as int),
                ) implies #[trigger] formula_sat(asg, lits_of(post)) by {
                assert forall|t: int| 0 <= t < lits_of(post).len() implies clause_sat(
                    asg,
                    #[trigger] lits_of(post)[t],
                ) by {
                    assert(lits_of(post)[t] == post[t].lits());
                    if post[t] == c2 {
                        assert(clause_sat(asg, c2.lits()));
                    } else {
                        assert(in_seq(post[t], pre));
                        let u = choose|u: int| 0 <= u < pre.len() && pre[u] == post[t];
                        lemma_in_seq_sat(asg, pre, pre[u], u);
                    }
                }
            }
        }
        self.insert_recent(idx);
    }

    /// Sweeps subsumption and self-subsumption to a fixpoint, then
    /// drains the stack of shrunk indices.
    pub fn reduce(&mut self)
        requires
            old(self).base_wf(),
            sorted_cards(old(self).sview()),
            no_taut(old(self).sview()),
        ensures
            final(self).nv == old(self).nv,
            final(self).guessed == old(self).guessed,
            final(self).deduced == old(self).deduced,
            all_wf(final(self).sview(), old(self).nv as int),
            sorted_cards(final(self).sview()),
            no_subsumption(final(self).sview()),
            no_symmetry(final(self).sview()),
            final(self).recents@.len() == 0,
            forall|v: int| var_in(final(self).sview(), v) ==> var_in(old(self).sview(), v),
            no_taut(old(self).sview()) ==> no_taut(final(self).sview()),
            final(self).sview().len() <= old(self).sview().len(),
            old(self).sview().len() > 0 ==> final(self).sview().len() > 0,
            covers(final(self).sview(), old(self).sview()),
            preserved(old(self).sview(), final(self).sview()),
    {
        proof {
            assert forall|t: int|
                0 <= t < old(self).sview().len() implies in_seq(
                #[trigger] old(self).sview()[t],
                old(self).sview(),
            ) by {
                assert(old(self).sview()[t] == old(self).sview()[t]);
            }
            lemma_in_seq_covers(old(self).sview(), old(self).sview());
            assert forall|asg: Set<int>|
                formula_sat(asg, lits_of(old(self).sview())) implies #[trigger] formula_sat(
                asg,
                lits_of(self.sview()),
            ) by {}
        }
        loop
            invariant_except_break
                self.nv == old(self).nv,
                self.guessed == old(self).guessed,
                self.deduced == old(self).deduced,
                old(self).nv <= VAR_LIMIT,
                self.nv <= VAR_LIMIT,
                self.guessed.wf() && self.guessed.nv == self.nv,
                self.deduced.wf() && self.deduced.nv == self.nv,
                all_wf(self.sview(), self.nv as int),
                sorted_cards(self.sview()),
                forall|v: int| var_in(self.sview(), v) ==> var_in(old(self).sview(), v),
                no_taut(self.sview()),
                self.sview().len() <= old(self).sview().len(),
                old(self).sview().len() > 0 ==> self.sview().len() > 0,
                covers(self.sview(), old(self).sview()),
                preserved(old(self).sview(), self.sview()),
            ensures
                self.nv == old(self).nv,
                self.guessed == old(self).guessed,
                self.deduced == old(self).deduced,
                all_wf(self.sview(), self.nv as int),
                sorted_cards(self.sview()),
                no_subsumption(self.sview()),
                no_symmetry(self.sview()),
                forall|v: int| var_in(self.sview(), v) ==> var_in(old(self).sview(), v),
                no_taut(old(self).sview()) ==> no_taut(self.sview()),
                self.sview().len() <= old(self).sview().len(),
                old(self).sview().len() > 0 ==> self.sview().len() > 0,
                covers(self.sview(), old(self).sview()),
                preserved(old(self).sview(), self.sview()),
            decreases total_cards(self.sview()),
        {
            let ghost at_head = self.sview();
            self.subsumption_sweep();
            proof {
                Problem::lemma_from_among_props(self.sview(), at_head, self.nv as int);
                assert forall|v: int|
                    var_in(self.sview(), v) implies var_in(old(self).sview(), v) by {
                }
                lemma_covers_trans(self.sview(), at_head, old(self).sview());
                lemma_preserved_trans(old(self).sview(), at_head, self.sview());
            }
            let r = self.find_symmetry();
            match r {
                None => {
                    break;
                },
                Some(t) => {
                    let ghost at_mid = self.sview();
                    let (_, tj, bad) = t;
                    self.delete_literal(tj, bad);
                    proof {
                        lemma_covers_trans(self.sview(), at_mid, old(self).sview());
                        // the dropped literal is justified by the
                        // earlier clause, so every model carries over
                        assert(preserved(at_mid, self.sview())) by {
                            assert forall|asg: Set<int>|
                                formula_sat(asg, lits_of(at_mid)) implies #[trigger] formula_sat(
                                asg,
                                lits_of(self.sview()),
                            ) by {
                                lemma_in_seq_sat(asg, at_mid, at_mid[t.0 as int], t.0 as int);
                                lemma_in_seq_sat(asg, at_mid, at_mid[t.1 as int], t.1 as int);
                                lemma_sym_forward(
                                    asg,
                                    at_mid[t.0 as int],
                                    at_mid[t.1 as int],
                                    t.2 as int,
                                );
                            }
                        }
                        lemma_preserved_trans(old(self).sview(), at_mid, self.sview());
                    }
                },
            }
        }
        self.recents.clear();
    }

    /// Drains the recents stack: when any clause has shrunk since the
    /// invariants last held, the sweeps run again to a fixpoint.
    pub fn consume_recents(&mut self)
        requires
            old(self).base_wf(),
            sorted_cards(old(self).sview()),
            no_taut(old(self).sview()),
            old(self).recents@.len() == 0 ==> no_subsumption(old(self).sview()) && no_symmetry(
                old(self).sview(),
            ),
        ensures
            final(self).nv == old(self).nv,
            final(self).guessed == old(self).guessed,
            final(self).deduced == old(self).deduced,
            all_wf(final(self).sview(), old(self).nv as int),
            sorted_cards(final(self).sview()),
            no_subsumption(final(self).sview()),
            no_symmetry(final(self).sview()),
            final(self).recents@.len() == 0,
            forall|v: int| var_in(final(self).sview(), v) ==> var_in(old(self).sview(), v),
            no_taut(old(self).sview()) ==> no_taut(final(self).sview()),
            final(self).sview().len() <= old(self).sview().len(),
            old(self).sview().len() > 0 ==> final(self).sview().len() > 0,
            covers(final(self).sview(), old(self).sview()),
            preserved(old(self).sview(), final(self).sview()),
    {
        if self.recents.len() > 0 {
            self.reduce();
        } else {
            proof {
                assert forall|asg: Set<int>|
                    formula_sat(asg, lits_of(old(self).sview())) implies #[trigger] formula_sat(
                    asg,
                    lits_of(self.sview()),
                ) by {}
                assert forall|t: int|
                    0 <= t < self.sview().len() implies in_seq(
                    #[trigger] self.sview()[t],
                    self.sview(),
                ) by {
                    assert(self.sview()[t] == self.sview()[t]);
                }
                lemma_in_seq_covers(self.sview(), self.sview());
            }
        }
    }

    /// Establishes the engine invariants once building is done.
    pub fn prepare(&mut self)
        requires
            old(self).base_wf(),
            forall|l: int| !old(self).guessed.lit_in(l),
            forall|l: int| !old(self).deduced.lit_in(l),
        ensures
            final(self).prepared(),
            final(self).nv == old(self).nv,
            forall|l: int| !final(self).guessed.lit_in(l),
            forall|l: int| !final(self).deduced.lit_in(l),
            reflects(
                old(self).sview(),
                final(self).sview(),
                final(self).guessed,
                final(self).deduced,
            ),
            preserved(old(self).sview(), final(self).sview()),
    {
        let ghost s0 = self.sview();
        self.remove_tautologies();
        let ghost s1 = self.sview();
        self.sort_clauses();
        let ghost s2 = self.sview();
        self.reduce();
        proof {
            lemma_preserved_trans(s0, s1, s2);
            lemma_preserved_trans(s0, s2, self.sview());
            lemma_covers_reflects(s2, self.sview(), self.guessed, self.deduced);
            lemma_reflects_trans(
                s1,
                s2,
                self.sview(),
                self.guessed,
                self.deduced,
                self.guessed,
                self.deduced,
            );
            lemma_reflects_trans(
                s0,
                s1,
                self.sview(),
                self.guessed,
                self.deduced,
                self.guessed,
                self.deduced,
            );
        }
        proof {
            assert forall|v: int|
                #[trigger] var_in(self.sview(), v) implies !self.guessed.varb(v)
                && !self.deduced.varb(v) by {
                if self.guessed.varb(v) {
                    if self.guessed.posb(v) {
                        assert(self.guessed.lit_in(v));
                    } else {
                        assert(self.guessed.negb(v));
                        assert(self.guessed.lit_in(-v));
                    }
                }
                if self.deduced.varb(v) {
                    if self.deduced.posb(v) {
                        assert(self.deduced.lit_in(v));
                    } else {
                        assert(self.deduced.negb(v));
                        assert(self.deduced.lit_in(-v));
                    }
                }
            }
        }
    }

    /// Drops from the tail every clause whose cardinality is at least
    /// the number of clauses.
    pub fn remove_long_clauses(&mut self)
        requires
            old(self).kernel_wf(),
        ensures
            final(self).kernel_wf(),
            final(self).nv == old(self).nv,
            final(self).guessed == old(self).guessed,
            final(self).deduced == old(self).deduced,
            final(self).recents@ == old(self).recents@,
            no_subsumption(old(self).sview()) ==> no_subsumption(final(self).sview()),
            no_symmetry(old(self).sview()) ==> no_symmetry(final(self).sview()),
            from_among(final(self).sview(), old(self).sview()),
            forall|v: int| var_in(final(self).sview(), v) ==> var_in(old(self).sview(), v),
            final(self).sview().len() <= old(self).sview().len(),
    {
        let ghost pre = self.sview();
        proof {
            assert forall|t: int| 0 <= t < pre.len() implies in_seq(#[trigger] pre[t], pre) by {
                assert(pre[t] == pre[t]);
            }
        }
        while self.clauses.len() > 0 && self.clauses.card_at(self.clauses.len() - 1)
            >= self.clauses.len()
            invariant
                self.nv == old(self).nv,
                self.guessed == old(self).guessed,
                self.deduced == old(self).deduced,
                self.recents@ == old(self).recents@,
                old(self).kernel_wf(),
                all_wf(self.sview(), self.nv as int),
                sorted_cards(self.sview()),
                no_taut(self.sview()),
                no_subsumption(pre) ==> no_subsumption(self.sview()),
                no_symmetry(pre) ==> no_symmetry(self.sview()),
                from_among(self.sview(), pre),
                forall|v: int| var_in(self.sview(), v) ==> var_in(pre, v),
                self.sview().len() <= pre.len(),
                self.sview() == pre.subrange(0, self.sview().len() as int),
            decreases self.sview().len(),
        {
            let ghost mid = self.sview();
            let last = self.clauses.len() - 1;
            let _ = self.clauses.remove_at(last);
            proof {
                Problem::lemma_removal_step(mid, last as int, self.nv as int);
                Problem::lemma_from_among_trans(self.sview(), mid, pre);
                assert forall|v: int| var_in(self.sview(), v) implies var_in(pre, v) by {
                    let i = choose|i: int|
                        0 <= i < self.sview().len() && (#[trigger] self.sview()[i]).varb(v);
                    assert(var_in(mid, v));
                }
                assert(self.sview() =~= pre.subrange(0, self.sview().len() as int));
            }
        }
        proof {
            assert forall|v: int|
                #[trigger] var_in(self.sview(), v) implies !self.guessed.varb(v)
                && !self.deduced.varb(v) by {
                assert(var_in(old(self).sview(), v));
            }
            // the loop stops only once the tail clause, and with it by
            // the sort order every clause, is shorter than the count
            assert forall|i: int|
                0 <= i < self.sview().len() implies (#[trigger] self.sview()[i]).cardc()
                < self.sview().len() by {
                let last = self.sview().len() - 1;
                assert(self.sview()[i].cardc() <= self.sview()[last].cardc());
            }
            lemma_from_among_forward(pre, self.sview());
        }
    }

    /// The clause shares no literal with `p`.
    #[verifier::opaque]
    pub open spec fn avoids_lits(c: Clause, p: Clause) -> bool {
        forall|m: int| #[trigger] c.lit_in(m) ==> !p.lit_in(m)
    }

    /// The clause carries no literal pure in `s`.
    #[verifier::opaque]
    pub open spec fn free_of_pure(s: Seq<Clause>, c: Clause) -> bool {
        forall|m: int| #[trigger] c.lit_in(m) ==> !Problem::pure_lit(s, m)
    }

    /// A literal occurring in some clause, with its complement nowhere.
    pub open spec fn pure_lit(s: Seq<Clause>, m: int) -> bool {
        &&& m != 0
        &&& exists|i: int| 0 <= i < s.len() && (#[trigger] s[i]).lit_in(m)
        &&& forall|i: int| 0 <= i < s.len() ==> !(#[trigger] s[i]).lit_in(-m)
    }

    /// Removes every clause carrying a pure literal, and records those
    /// literals, with their satisfying polarity, in `deduced`.
    pub fn remove_pure_literals(&mut self)
        requires
            old(self).kernel_wf(),
        ensures
            final(self).kernel_wf(),
            final(self).nv == old(self).nv,
            final(self).guessed == old(self).guessed,
            final(self).recents@ == old(self).recents@,
            no_subsumption(old(self).sview()) ==> no_subsumption(final(self).sview()),
            no_symmetry(old(self).sview()) ==> no_symmetry(final(self).sview()),
            from_among(final(self).sview(), old(self).sview()),
            forall|v: int| var_in(final(self).sview(), v) ==> var_in(old(self).sview(), v),
            final(self).sview().len() <= old(self).sview().len(),
            forall|m: int|
                final(self).deduced.lit_in(m) == (old(self).deduced.lit_in(m) || Problem::pure_lit(
                    old(self).sview(),
                    m,
                )),
            forall|v: int|
                #[trigger] final(self).deduced.varb(v) ==> old(self).deduced.varb(v) || var_in(
                    old(self).sview(),
                    v,
                ),
            forall|t: int, m: int|
                #![trigger final(self).sview()[t].lit_in(m)]
                0 <= t < final(self).sview().len() && final(self).sview()[t].lit_in(m)
                    ==> !Problem::pure_lit(old(self).sview(), m),
            forall|j: int|
                0 <= j < old(self).sview().len() && Problem::free_of_pure(
                    old(self).sview(),
                    #[trigger] old(self).sview()[j],
                ) ==> in_seq(old(self).sview()[j], final(self).sview()),
            reflects(
                old(self).sview(),
                final(self).sview(),
                final(self).guessed,
                final(self).deduced,
            ),
            preserved(old(self).sview(), final(self).sview()),
            final(self).sview().len() == old(self).sview().len() ==> final(self).sview() == old(
                self,
            ).sview(),
    {
        let ghost pre = self.sview();
        proof {
            assert forall|t: int| 0 <= t < pre.len() implies in_seq(#[trigger] pre[t], pre) by {
                assert(pre[t] == pre[t]);
            }
        }
        // accumulate every literal of the set
        let mut acc = Clause::new(self.nv);
        let mut i: usize = 0;
        while i < self.clauses.len()
            invariant
                old(self).kernel_wf(),
                self == old(self),
                pre == self.sview(),
                acc.wf(),
                acc.nv == self.nv,
                i <= pre.len(),
                forall|m: int|
                    acc.lit_in(m) == exists|t: int| 0 <= t < i && (#[trigger] pre[t]).lit_in(m),
            decreases pre.len() - i,
        {
            let ghost acc0 = acc;
            acc.union_in(self.clauses.get(i));
            proof {
                assert forall|m: int|
                    acc.lit_in(m) == exists|t: int|
                        0 <= t < i + 1 && (#[trigger] pre[t]).lit_in(m) by {
                    if acc.lit_in(m) {
                        if acc0.lit_in(m) {
                            let t = choose|t: int| 0 <= t < i && (#[trigger] pre[t]).lit_in(m);
                            assert(pre[t].lit_in(m));
                        } else {
                            assert(pre[i as int].lit_in(m));
                        }
                    } else {
                        if exists|t: int| 0 <= t < i + 1 && (#[trigger] pre[t]).lit_in(m) {
                            let t = choose|t: int|
                                0 <= t < i + 1 && (#[trigger] pre[t]).lit_in(m);
                            if t < i {
                                assert(acc0.lit_in(m));
                            }
                            assert(acc.lit_in(m));
                        }
                    }
                }
            }
            i = i + 1;
        }
        // keep of it the literals pure in the set
        let mut pure = acc;
        let ghost accg = pure;
        pure.difference_switched_self();
        proof {
            assert forall|m: int| pure.lit_in(m) == Problem::pure_lit(pre, m) by {
                if m > 0 {
                    assert(pure.lit_in(m) == (pure.posb(m)));
                    assert(pure.posb(m) == (accg.posb(m) && !accg.negb(m)));
                    assert(accg.posb(m) == accg.lit_in(m));
                    assert(accg.negb(m) == accg.lit_in(-m));
                } else if m < 0 {
                    assert(pure.lit_in(m) == pure.negb(-m));
                    assert(pure.negb(-m) == (accg.negb(-m) && !accg.posb(-m)));
                    assert(accg.negb(-m) == accg.lit_in(m));
                    assert(accg.posb(-m) == accg.lit_in(-m));
                } else {
                    assert(!pure.lit_in(0));
                }
            }
        }
        // drop every clause meeting a pure literal
        let mut k: usize = 0;
        while k < self.clauses.len()
            invariant
                self.nv == old(self).nv,
                self.guessed == old(self).guessed,
                self.deduced == old(self).deduced,
                self.recents@ == old(self).recents@,
                old(self).kernel_wf(),
                pure.wf(),
                pure.nv == self.nv,
                forall|m: int| pure.lit_in(m) == Problem::pure_lit(pre, m),
                all_wf(self.sview(), self.nv as int),
                sorted_cards(self.sview()),
                no_taut(self.sview()),
                no_subsumption(pre) ==> no_subsumption(self.sview()),
                no_symmetry(pre) ==> no_symmetry(self.sview()),
                from_among(self.sview(), pre),
                forall|v: int| var_in(self.sview(), v) ==> var_in(pre, v),
                self.sview().len() <= pre.len(),
                k <= self.sview().len(),
                forall|t: int, m: int|
                    #![trigger self.sview()[t].lit_in(m)]
                    0 <= t < k ==> !(self.sview()[t].lit_in(m) && pure.lit_in(m)),
                forall|j: int|
                    0 <= j < pre.len() && Problem::avoids_lits(#[trigger] pre[j], pure) ==> in_seq(
                        pre[j],
                        self.sview(),
                    ),
                self.sview().len() == pre.len() ==> self.sview() == pre,
            decreases self.sview().len() - k,
        {
            let c = self.clauses.get(k);
            let dis = c.disjoint(&pure);
            if dis {
                k = k + 1;
            } else {
                let ghost mid = self.sview();
                let _ = self.clauses.remove_at(k);
                proof {
                    Problem::lemma_removal_step(mid, k as int, self.nv as int);
                    Problem::lemma_from_among_trans(self.sview(), mid, pre);
                    assert forall|v: int| var_in(self.sview(), v) implies var_in(pre, v) by {
                        let i2 = choose|i2: int|
                            0 <= i2 < self.sview().len() && (#[trigger] self.sview()[i2]).varb(v);
                        assert(var_in(mid, v));
                    }
                    assert forall|t: int, m: int|
                        #![trigger self.sview()[t].lit_in(m)]
                        0 <= t < k implies !(self.sview()[t].lit_in(m) && pure.lit_in(m)) by {
                        assert(self.sview()[t] == mid[t]);
                    }
                    assert forall|j: int|
                        0 <= j < pre.len() && Problem::avoids_lits(
                            #[trigger] pre[j],
                            pure,
                        ) implies in_seq(pre[j], self.sview()) by {
                        let w = choose|w: int| 0 <= w < mid.len() && mid[w] == pre[j];
                        // the removed clause met a pure literal, this
                        // one meets none, so the witness is elsewhere
                        assert(w != k as int) by {
                            reveal(Problem::avoids_lits);
                            if w == k as int {
                                let m0 = choose|m0: int|
                                    #[trigger] mid[k as int].lit_in(m0) && pure.lit_in(m0);
                                assert(pre[j].lit_in(m0));
                            }
                        }
                        if w < k as int {
                            assert(self.sview()[w] == pre[j]);
                        } else {
                            assert(self.sview()[w - 1] == pre[j]);
                        }
                    }
                }
            }
        }
        // record the eliminated polarities
        let ghost ded0 = self.deduced;
        self.deduced.union_in(&pure);
        proof {
            assert forall|j: int|
                0 <= j < pre.len() && Problem::free_of_pure(pre, #[trigger] pre[j]) implies in_seq(
                pre[j],
                self.sview(),
            ) by {
                reveal(Problem::avoids_lits);
                reveal(Problem::free_of_pure);
                assert(Problem::avoids_lits(pre[j], pure)) by {
                    reveal(Problem::avoids_lits);
                    reveal(Problem::free_of_pure);
                    assert forall|m: int| #[trigger] pre[j].lit_in(m) implies !pure.lit_in(m) by {
                        assert(pure.lit_in(m) == Problem::pure_lit(pre, m));
                    }
                }
            }
            lemma_from_among_forward(pre, self.sview());
            assert forall|m: int|
                self.deduced.lit_in(m) == (old(self).deduced.lit_in(m) || Problem::pure_lit(
                    pre,
                    m,
                )) by {
                assert(self.deduced.lit_in(m) == (ded0.lit_in(m) || pure.lit_in(m)));
                assert(pure.lit_in(m) == Problem::pure_lit(pre, m));
            }
            assert forall|v: int|
                #[trigger] self.deduced.varb(v) implies ded0.varb(v) || var_in(pre, v) by {
                if self.deduced.posb(v) {
                    assert(self.deduced.lit_in(v));
                    if ded0.lit_in(v) {
                        assert(ded0.posb(v));
                    } else {
                        assert(pure.lit_in(v));
                        assert(Problem::pure_lit(pre, v));
                        let t = choose|t: int| 0 <= t < pre.len() && (#[trigger] pre[t]).lit_in(v);
                        assert(pre[t].posb(v));
                        assert(pre[t].varb(v));
                    }
                } else if self.deduced.negb(v) {
                    assert(self.deduced.lit_in(-v));
                    if ded0.lit_in(-v) {
                        assert(ded0.negb(v));
                    } else {
                        assert(pure.lit_in(-v));
                        assert(Problem::pure_lit(pre, -v));
                        let t = choose|t: int|
                            0 <= t < pre.len() && (#[trigger] pre[t]).lit_in(-v);
                        assert(pre[t].negb(v));
                        assert(pre[t].varb(v));
                    }
                }
            }
            // the remaining clauses touch no pure variable at all
            assert forall|v: int|
                #[trigger] var_in(self.sview(), v) implies !self.guessed.varb(v)
                && !self.deduced.varb(v) by {
                assert(var_in(pre, v));
                assert(var_in(old(self).sview(), v));
                assert(!self.guessed.varb(v) && !ded0.varb(v));
                let t = choose|t: int|
                    0 <= t < self.sview().len() && (#[trigger] self.sview()[t]).varb(v);
                if self.deduced.varb(v) {
                    assert(v >= 1);
                    if self.deduced.posb(v) {
                        assert(self.deduced.lit_in(v));
                        assert(!ded0.lit_in(v));
                        assert(pure.lit_in(v));
                        assert(Problem::pure_lit(pre, v));
                        if self.sview()[t].posb(v) {
                            assert(self.sview()[t].lit_in(v) && pure.lit_in(v));
                        } else {
                            assert(self.sview()[t].negb(v));
                            assert(self.sview()[t].lit_in(-v));
                            let u = choose|u: int|
                                0 <= u < pre.len() && pre[u] == self.sview()[t];
                            assert(pre[u].lit_in(-v));
                        }
                    } else {
                        assert(self.deduced.negb(v));
                        assert(self.deduced.lit_in(-v));
                        assert(!ded0.lit_in(-v));
                        assert(pure.lit_in(-v));
                        assert(Problem::pure_lit(pre, -v));
                        if self.sview()[t].negb(v) {
                            assert(self.sview()[t].lit_in(-v) && pure.lit_in(-v));
                        } else {
                            assert(self.sview()[t].posb(v));
                            assert(self.sview()[t].lit_in(v));
                            let u = choose|u: int|
                                0 <= u < pre.len() && pre[u] == self.sview()[t];
                            assert(pre[u].lit_in(v));
                        }
                    }
                }
            }
            // the grown accumulator stays self-consistent
            assert forall|l: int|
                #![trigger self.guessed.lit_in(l)]
                #![trigger self.deduced.lit_in(l)]
                (self.guessed.lit_in(l) || self.deduced.lit_in(l)) implies !(self.guessed.lit_in(
                    -l,
                ) || self.deduced.lit_in(-l)) by {
                if self.guessed.lit_in(l) || self.deduced.lit_in(l) {
                    if pure.lit_in(l) || pure.lit_in(-l) {
                        let m = if pure.lit_in(l) {
                            l
                        } else {
                            -l
                        };
                        assert(Problem::pure_lit(pre, m));
                        let t = choose|t: int| 0 <= t < pre.len() && (#[trigger] pre[t]).lit_in(m);
                        assert(var_in(pre, vabs(m)));
                        if pre[t].posb(vabs(m)) || pre[t].negb(vabs(m)) {
                        }
                        assert(pre[t].varb(vabs(m)));
                        assert(!self.guessed.varb(vabs(m)) && !ded0.varb(vabs(m)));
                    }
                    if pure.lit_in(l) {
                        // `-l` occurs in no clause, in the old pair's
                        // variables neither
                        assert(!pure.lit_in(-l)) by {
                            if pure.lit_in(-l) {
                                assert(Problem::pure_lit(pre, -l));
                                let t = choose|t: int|
                                    0 <= t < pre.len() && (#[trigger] pre[t]).lit_in(-l);
                                assert(Problem::pure_lit(pre, l));
                            }
                        }
                        assert(!self.guessed.lit_in(-l) && !ded0.lit_in(-l)) by {
                            if vabs(l) >= 1 {
                                assert(!self.guessed.varb(vabs(-l)) && !ded0.varb(vabs(-l)));
                                if self.guessed.lit_in(-l) {
                                    if -l > 0 {
                                        assert(self.guessed.posb(-l));
                                    } else {
                                        assert(self.guessed.negb(l));
                                    }
                                    assert(self.guessed.varb(vabs(-l)));
                                }
                                if ded0.lit_in(-l) {
                                    if -l > 0 {
                                        assert(ded0.posb(-l));
                                    } else {
                                        assert(ded0.negb(l));
                                    }
                                    assert(ded0.varb(vabs(-l)));
                                }
                            }
                        }
                    } else {
                        assert(self.guessed.lit_in(l) || ded0.lit_in(l));
                        assert(!(self.guessed.lit_in(-l) || ded0.lit_in(-l)));
                        if self.deduced.lit_in(-l) && !ded0.lit_in(-l) {
                            assert(pure.lit_in(-l));
                            assert(!self.guessed.varb(vabs(l)) && !ded0.varb(vabs(l)));
                            if self.guessed.lit_in(l) {
                                if l > 0 {
                                    assert(self.guessed.posb(l));
                                } else {
                                    assert(self.guessed.negb(-l));
                                }
                                assert(self.guessed.varb(vabs(l)));
                            }
                            if ded0.lit_in(l) {
                                if l > 0 {
                                    assert(ded0.posb(l));
                                } else {
                                    assert(ded0.negb(-l));
                                }
                                assert(ded0.varb(vabs(l)));
                            }
                        }
                    }
                }
            }
        }

        proof {
            let post = self.sview();
            assert forall|asg: Set<int>|
                respects(asg, self.guessed, self.deduced) && formula_sat(
                    asg,
                    lits_of(post),
                ) implies #[trigger] formula_sat(asg, lits_of(pre)) by {
                assert forall|j: int| 0 <= j < lits_of(pre).len() implies clause_sat(
                    asg,
                    #[trigger] lits_of(pre)[j],
                ) by {
                    assert(lits_of(pre)[j] == pre[j].lits());
                    reveal(Problem::free_of_pure);
                    if Problem::free_of_pure(pre, pre[j]) {
                        assert(in_seq(pre[j], post));
                        let w = choose|w: int| 0 <= w < post.len() && post[w] == pre[j];
                        lemma_in_seq_sat(asg, post, post[w], w);
                    } else {
                        let m = choose|m: int|
                            #[trigger] pre[j].lit_in(m) && Problem::pure_lit(pre, m);
                        assert(self.deduced.lit_in(m));
                        assert(lit_sat(asg, m));
                        assert(pre[j].lits().contains(m) && lit_sat(asg, m));
                    }
                }
            }
        }
    }

    /// Kernelization: pure-literal elimination to a fixpoint.  (Long
    /// clauses can also be dropped, by `remove_long_clauses`; that step
    /// preserves satisfiability but not the reported model, so the
    /// solving path leaves it out.)
    pub fn kernelize(&mut self)
        requires
            old(self).prepared(),
        ensures
            final(self).prepared(),
            final(self).nv == old(self).nv,
            final(self).guessed == old(self).guessed,
            forall|v: int| var_in(final(self).sview(), v) ==> var_in(old(self).sview(), v),
            final(self).sview().len() <= old(self).sview().len(),
            forall|m: int| old(self).deduced.lit_in(m) ==> final(self).deduced.lit_in(m),
            forall|v: int|
                #[trigger] final(self).deduced.varb(v) ==> old(self).deduced.varb(v) || var_in(
                    old(self).sview(),
                    v,
                ),
            reflects(
                old(self).sview(),
                final(self).sview(),
                final(self).guessed,
                final(self).deduced,
            ),
            preserved(old(self).sview(), final(self).sview()),
            forall|m: int| !Problem::pure_lit(final(self).sview(), m),
    {
        proof {
            assert forall|asg: Set<int>|
                respects(asg, self.guessed, self.deduced) && formula_sat(
                    asg,
                    lits_of(self.sview()),
                ) implies #[trigger] formula_sat(asg, lits_of(old(self).sview())) by {
            }
            assert forall|asg: Set<int>|
                formula_sat(asg, lits_of(old(self).sview())) implies #[trigger] formula_sat(
                asg,
                lits_of(self.sview()),
            ) by {}
        }
        loop
            invariant_except_break
                self.nv == old(self).nv,
                self.guessed == old(self).guessed,
                self.recents@ == old(self).recents@,
                old(self).prepared(),
                self.kernel_wf(),
                no_subsumption(self.sview()),
                no_symmetry(self.sview()),
                forall|v: int| var_in(self.sview(), v) ==> var_in(old(self).sview(), v),
                self.sview().len() <= old(self).sview().len(),
                forall|m: int| old(self).deduced.lit_in(m) ==> self.deduced.lit_in(m),
                forall|v: int|
                    #[trigger] self.deduced.varb(v) ==> old(self).deduced.varb(v) || var_in(
                        old(self).sview(),
                        v,
                    ),
                reflects(old(self).sview(), self.sview(), self.guessed, self.deduced),
                preserved(old(self).sview(), self.sview()),
            ensures
                forall|m: int| !Problem::pure_lit(self.sview(), m),
                self.nv == old(self).nv,
                self.guessed == old(self).guessed,
                self.recents@ == old(self).recents@,
                self.kernel_wf(),
                no_subsumption(self.sview()),
                no_symmetry(self.sview()),
                forall|v: int| var_in(self.sview(), v) ==> var_in(old(self).sview(), v),
                self.sview().len() <= old(self).sview().len(),
                forall|m: int| old(self).deduced.lit_in(m) ==> self.deduced.lit_in(m),
                forall|v: int|
                    #[trigger] self.deduced.varb(v) ==> old(self).deduced.varb(v) || var_in(
                        old(self).sview(),
                        v,
                    ),
                reflects(old(self).sview(), self.sview(), self.guessed, self.deduced),
                preserved(old(self).sview(), self.sview()),
            decreases self.sview().len(),
        {
            let n0 = self.clauses.len();
            let ghost at_head = self.sview();
            let ghost d_head = self.deduced;
            self.remove_pure_literals();
            proof {
                assert forall|v: int|
                    var_in(self.sview(), v) implies var_in(old(self).sview(), v) by {
                }
                lemma_reflects_trans(
                    old(self).sview(),
                    at_head,
                    self.sview(),
                    self.guessed,
                    d_head,
                    self.guessed,
                    self.deduced,
                );
                lemma_preserved_trans(old(self).sview(), at_head, self.sview());
            }
            if self.clauses.len() == n0 {
                proof {
                    // nothing was removed, so the set is unchanged and
                    // carries no pure literal at all
                    assert(self.sview() == at_head);
                    assert forall|m: int| !Problem::pure_lit(self.sview(), m) by {
                        if Problem::pure_lit(self.sview(), m) {
                            let i = choose|i: int|
                                0 <= i < self.sview().len() && (#[trigger] self.sview()[i]).lit_in(
                                    m,
                                );
                            assert(self.sview()[i].lit_in(m));
                            assert(!Problem::pure_lit(at_head, m));
                        }
                    }
                }
                break;
            }
        }
    }

    /// Two clauses over the same bits.
    pub open spec fn ceq(a: Clause, b: Clause) -> bool {
        a.nv == b.nv && a.bits.words@ == b.bits.words@
    }

    /// Everything a clause's contracts speak of is a function of its
    /// variable count and its bits.
    pub proof fn lemma_ceq_clause(a: Clause, b: Clause)
        requires
            Problem::ceq(a, b),
        ensures
            a.wf() == b.wf(),
            a.cardc() == b.cardc(),
            a.tautc() == b.tautc(),
            forall|m: int| #[trigger] a.lit_in(m) == b.lit_in(m),
            forall|v: int| #[trigger] a.varb(v) == b.varb(v),
    {
        assert(a.half() == b.half());
        assert forall|m: int| #[trigger] a.lit_in(m) == b.lit_in(m) by {
            assert(a.bits.bitat(a.lit_index(m)) == b.bits.bitat(a.lit_index(m)));
        }
        assert forall|v: int| #[trigger] a.varb(v) == b.varb(v) by {
            assert(a.bits.bitat(v - 1) == b.bits.bitat(v - 1));
            assert(a.bits.bitat(64 * a.half() + v - 1) == b.bits.bitat(64 * b.half() + v - 1));
        }
        assert(a.wf() == b.wf()) by {
            if a.wf() {
                assert forall|v: int| #[trigger] b.posb(v) implies v <= b.nv by {
                    assert(a.posb(v));
                }
                assert forall|v: int| #[trigger] b.negb(v) implies v <= b.nv by {
                    assert(a.negb(v));
                }
            }
            if b.wf() {
                assert forall|v: int| #[trigger] a.posb(v) implies v <= a.nv by {
                    assert(b.posb(v));
                }
                assert forall|v: int| #[trigger] a.negb(v) implies v <= a.nv by {
                    assert(b.negb(v));
                }
            }
        }
        if a.tautc() {
            let v = choose|v: int| a.posb(v) && a.negb(v);
            assert(b.posb(v) && b.negb(v));
        }
        if b.tautc() {
            let v = choose|v: int| b.posb(v) && b.negb(v);
            assert(a.posb(v) && a.negb(v));
        }
    }

    /// Pair predicates over equal bits agree.
    pub proof fn lemma_ceq_pair(a1: Clause, a2: Clause, b1: Clause, b2: Clause)
        requires
            Problem::ceq(a1, b1),
            Problem::ceq(a2, b2),
        ensures
            subset_lits(a1, a2) == subset_lits(b1, b2),
            a1.sym_clear(a2) == b1.sym_clear(b2),
    {
        Problem::lemma_ceq_clause(a1, b1);
        Problem::lemma_ceq_clause(a2, b2);
        assert(subset_lits(a1, a2) == subset_lits(b1, b2)) by {
            if subset_lits(a1, a2) {
                assert forall|m: int| b1.lit_in(m) implies b2.lit_in(m) by {
                    assert(a1.lit_in(m) == b1.lit_in(m));
                }
            }
            if subset_lits(b1, b2) {
                assert forall|m: int| a1.lit_in(m) implies a2.lit_in(m) by {
                    assert(b1.lit_in(m) == a1.lit_in(m));
                }
            }
        }
        assert(a1.sym_clear(a2) == b1.sym_clear(b2)) by {
            if a1.sym_clear(a2) {
                assert forall|beta: int| !b1.sym_gives(b2, beta) by {
                    if b1.sym_gives(b2, beta) {
                        assert(a2.lit_in(beta));
                        assert(a1.diff_lit(a2, -beta)) by {
                            assert(b1.diff_lit(b2, -beta));
                        }
                        assert forall|m: int| #[trigger] a1.diff_lit(a2, m) implies m == -beta by {
                            assert(b1.diff_lit(b2, m));
                        }
                        assert(a1.sym_gives(a2, beta));
                    }
                }
            }
            if b1.sym_clear(b2) {
                assert forall|beta: int| !a1.sym_gives(a2, beta) by {
                    if a1.sym_gives(a2, beta) {
                        assert(b2.lit_in(beta));
                        assert(b1.diff_lit(b2, -beta)) by {
                            assert(a1.diff_lit(a2, -beta));
                        }
                        assert forall|m: int| #[trigger] b1.diff_lit(b2, m) implies m == -beta by {
                            assert(a1.diff_lit(a2, m));
                        }
                        assert(b1.sym_gives(b2, beta));
                    }
                }
            }
        }
    }

    /// The engine's invariants carry over a clause-by-clause copy.
    pub proof fn lemma_ceq_seq(a: Seq<Clause>, b: Seq<Clause>, nv: int)
        requires
            a.len() == b.len(),
            forall|i: int| 0 <= i < a.len() ==> Problem::ceq(#[trigger] a[i], b[i]),
        ensures
            all_wf(a, nv) == all_wf(b, nv),
            sorted_cards(a) == sorted_cards(b),
            no_taut(a) == no_taut(b),
            no_subsumption(a) == no_subsumption(b),
            no_symmetry(a) == no_symmetry(b),
            forall|v: int| #[trigger] var_in(a, v) == var_in(b, v),
    {
        assert(all_wf(a, nv) == all_wf(b, nv) && no_taut(a) == no_taut(b)) by {
            assert forall|i: int|
                0 <= i < a.len() implies ((#[trigger] a[i]).wf() == b[i].wf() && a[i].tautc()
                == b[i].tautc() && a[i].nv == b[i].nv) by {
                Problem::lemma_ceq_clause(a[i], b[i]);
            }
            if all_wf(a, nv) {
                assert forall|i: int| 0 <= i < b.len() implies (#[trigger] b[i]).wf() && b[i].nv
                    == nv by {
                    assert(a[i].wf() && a[i].nv == nv);
                }
            }
            if all_wf(b, nv) {
                assert forall|i: int| 0 <= i < a.len() implies (#[trigger] a[i]).wf() && a[i].nv
                    == nv by {
                    assert(b[i].wf() && b[i].nv == nv);
                }
            }
            if no_taut(a) {
                assert forall|i: int| 0 <= i < b.len() implies !(#[trigger] b[i]).tautc() by {
                    assert(!a[i].tautc());
                }
            }
            if no_taut(b) {
                assert forall|i: int| 0 <= i < a.len() implies !(#[trigger] a[i]).tautc() by {
                    assert(!b[i].tautc());
                }
            }
        }
        assert(sorted_cards(a) == sorted_cards(b)) by {
            assert forall|i: int|
                0 <= i < a.len() implies (#[trigger] a[i]).cardc() == b[i].cardc() by {
                Problem::lemma_ceq_clause(a[i], b[i]);
            }
            if sorted_cards(a) {
                assert forall|i: int, j: int|
                    0 <= i < j < b.len() implies (#[trigger] b[i]).cardc() <= (
                #[trigger] b[j]).cardc() by {
                    assert(a[i].cardc() <= a[j].cardc());
                }
            }
            if sorted_cards(b) {
                assert forall|i: int, j: int|
                    0 <= i < j < a.len() implies (#[trigger] a[i]).cardc() <= (
                #[trigger] a[j]).cardc() by {
                    assert(b[i].cardc() <= b[j].cardc());
                }
            }
        }
        assert(no_subsumption(a) == no_subsumption(b)) by {
            if no_subsumption(a) {
                assert forall|i: int, j: int|
                    0 <= i < j < b.len() implies !subset_lits(#[trigger] b[i], #[trigger] b[j]) by {
                    Problem::lemma_ceq_pair(a[i], a[j], b[i], b[j]);
                    assert(!subset_lits(a[i], a[j]));
                }
            }
            if no_subsumption(b) {
                assert forall|i: int, j: int|
                    0 <= i < j < a.len() implies !subset_lits(#[trigger] a[i], #[trigger] a[j]) by {
                    Problem::lemma_ceq_pair(a[i], a[j], b[i], b[j]);
                    assert(!subset_lits(b[i], b[j]));
                }
            }
        }
        assert(no_symmetry(a) == no_symmetry(b)) by {
            if no_symmetry(a) {
                assert forall|i: int, j: int|
                    0 <= i < j < b.len() implies (#[trigger] b[i]).sym_clear(#[trigger] b[j]) by {
                    Problem::lemma_ceq_pair(a[i], a[j], b[i], b[j]);
                    assert(a[i].sym_clear(a[j]));
                }
            }
            if no_symmetry(b) {
                assert forall|i: int, j: int|
                    0 <= i < j < a.len() implies (#[trigger] a[i]).sym_clear(#[trigger] a[j]) by {
                    Problem::lemma_ceq_pair(a[i], a[j], b[i], b[j]);
                    assert(b[i].sym_clear(b[j]));
                }
            }
        }
        assert forall|v: int| #[trigger] var_in(a, v) == var_in(b, v) by {
            if var_in(a, v) {
                let i = choose|i: int| 0 <= i < a.len() && (#[trigger] a[i]).varb(v);
                Problem::lemma_ceq_clause(a[i], b[i]);
                assert(b[i].varb(v));
            }
            if var_in(b, v) {
                let i = choose|i: int| 0 <= i < b.len() && (#[trigger] b[i]).varb(v);
                Problem::lemma_ceq_clause(a[i], b[i]);
                assert(a[i].varb(v));
            }
        }
    }

    /// Clause-by-clause copies carry the same literal sets.
    pub proof fn lemma_ceq_lits_of(a: Seq<Clause>, b: Seq<Clause>)
        requires
            a.len() == b.len(),
            forall|i: int| 0 <= i < a.len() ==> Problem::ceq(#[trigger] a[i], b[i]),
        ensures
            lits_of(a) == lits_of(b),
    {
        assert forall|i: int| 0 <= i < a.len() implies lits_of(a)[i] == lits_of(b)[i] by {
            Problem::lemma_ceq_clause(a[i], b[i]);
            assert(a[i].lits() =~= b[i].lits());
        }
        assert(lits_of(a) =~= lits_of(b));
    }

    /// The set of variables alive in the clause sequence.
    pub open spec fn vars_set(s: Seq<Clause>) -> Set<int> {
        Set::new(|v: int| var_in(s, v))
    }

    /// The variable set of a well-formed sequence is finite.
    pub proof fn lemma_vars_finite(s: Seq<Clause>, nv: int)
        requires
            all_wf(s, nv),
            0 <= nv,
        ensures
            Problem::vars_set(s).finite(),
    {
        let range = vstd::set_lib::set_int_range(1, nv + 1);
        vstd::set_lib::lemma_int_range(1, nv + 1);
        assert forall|v: int| Problem::vars_set(s).contains(v) implies range.contains(v) by {
            let i = choose|i: int| 0 <= i < s.len() && (#[trigger] s[i]).varb(v);
            if s[i].posb(v) || s[i].negb(v) {
            }
            assert(1 <= v <= nv);
        }
        assert(Problem::vars_set(s).subset_of(range));
        vstd::set_lib::lemma_len_subset(Problem::vars_set(s), range);
    }

    /// Losing a variable strictly shrinks the variable set.
    pub proof fn lemma_vars_lt(sub: Seq<Clause>, sup: Seq<Clause>, nv: int, v: int)
        requires
            all_wf(sup, nv),
            0 <= nv,
            forall|u: int| var_in(sub, u) ==> var_in(sup, u),
            var_in(sup, v),
            !var_in(sub, v),
        ensures
            Problem::vars_set(sub).len() < Problem::vars_set(sup).len(),
    {
        Problem::lemma_vars_finite(sup, nv);
        let big = Problem::vars_set(sup);
        let small = Problem::vars_set(sub);
        assert(small.subset_of(big.remove(v)));
        assert(big.remove(v).finite());
        vstd::set_lib::lemma_len_subset(small, big.remove(v));
        assert(big.contains(v));
        assert(big.remove(v).len() == big.len() - 1);
    }

    /// A clause-by-clause copy, sharing nothing with the original.
    pub fn duplicate_problem(&self) -> (r: Problem)
        requires
            self.base_wf(),
        ensures
            r.nv == self.nv,
            r.recents@.len() == 0,
            Problem::ceq(r.guessed, self.guessed),
            Problem::ceq(r.deduced, self.deduced),
            r.sview().len() == self.sview().len(),
            forall|i: int|
                0 <= i < self.sview().len() ==> Problem::ceq(
                    #[trigger] r.sview()[i],
                    self.sview()[i],
                ),
    {
        let mut items: Vec<Clause> = Vec::new();
        let mut i: usize = 0;
        while i < self.clauses.len()
            invariant
                i <= self.sview().len(),
                items@.len() == i,
                forall|t: int|
                    0 <= t < i ==> Problem::ceq(#[trigger] items@[t], self.sview()[t]),
            decreases self.sview().len() - i,
        {
            let c = self.clauses.get(i).duplicate();
            items.push(c);
            i = i + 1;
        }
        Problem {
            nv: self.nv,
            clauses: ClauseSet { items },
            guessed: self.guessed.duplicate(),
            deduced: self.deduced.duplicate(),
            recents: Vec::new(),
        }
    }

    /// Picks a literal of the smallest clause, steered by `seed`.
    pub fn choice(&self, seed: u64) -> (r: (isize, u64))
        requires
            self.base_wf(),
            self.sview().len() > 0,
            exists|m: int| self.sview()[0].lit_in(m),
        ensures
            valid_lit(r.0 as int, self.nv as int),
            self.sview()[0].lit_in(r.0 as int),
    {
        let lits = self.clauses.get(0).iter_literals();
        proof {
            let m = choose|m: int| self.sview()[0].lit_in(m);
            let t = choose|t: int| 0 <= t < lits@.len() && lits@[t] as int == m;
            assert(lits@.len() > 0);
        }
        let mut x: u64 = seed;
        x = x ^ (x << 13);
        x = x ^ (x >> 7);
        x = x ^ (x << 17);
        let idx = (x % (lits.len() as u64)) as usize;
        (lits[idx], x)
    }

    /// Commits literal `l`: adds it to `guessed`, drops the clauses it
    /// satisfies, strips its complement from the rest, and restores the
    /// engine invariants.  Afterwards the variable of `l` is gone from
    /// the clause set.
    pub fn resolve(&mut self, l: isize)
        requires
            old(self).prepared(),
            valid_lit(l as int, old(self).nv as int),
            var_in(old(self).sview(), vabs(l as int)),
        ensures
            final(self).prepared(),
            final(self).nv == old(self).nv,
            final(self).deduced == old(self).deduced,
            forall|m: int|
                #![trigger final(self).guessed.lit_in(m)]
                final(self).guessed.lit_in(m) == (m == l as int || old(self).guessed.lit_in(m)),
            !var_in(final(self).sview(), vabs(l as int)),
            forall|v: int| var_in(final(self).sview(), v) ==> var_in(old(self).sview(), v),
            final(self).sview().len() <= old(self).sview().len(),
            reflects(
                old(self).sview(),
                final(self).sview(),
                final(self).guessed,
                final(self).deduced,
            ),
            forall|asg: Set<int>|
                formula_sat(asg, lits_of(old(self).sview())) && lit_sat(asg, l as int)
                    ==> #[trigger] formula_sat(asg, lits_of(final(self).sview())),
            forall|asg: Set<int>|
                #[trigger] formula_sat(asg, lits_of(final(self).sview())) ==> formula_sat(
                    crate::logic::assign_lit(asg, l as int),
                    lits_of(old(self).sview()),
                ),
    {
        let ghost pre = self.sview();
        proof {
            assert(!old(self).guessed.varb(vabs(l as int)) && !old(self).deduced.varb(
                vabs(l as int),
            ));
            assert forall|j: int| 0 <= j < pre.len() implies in_seq(#[trigger] pre[j], pre) by {
                assert(pre[j] == pre[j]);
            }
        }
        self.guessed.set_literal(l);
        proof {
            // the new commitment cannot contradict the accumulators
            assert forall|m: int|
                #![trigger self.guessed.lit_in(m)]
                #![trigger self.deduced.lit_in(m)]
                (self.guessed.lit_in(m) || self.deduced.lit_in(m)) implies !(self.guessed.lit_in(
                    -m,
                ) || self.deduced.lit_in(-m)) by {
                let v = vabs(l as int);
                if m == l as int {
                    if self.guessed.lit_in(-m) && -m != l as int {
                        assert(old(self).guessed.lit_in(-m));
                        if -m > 0 {
                            assert(old(self).guessed.posb(-m));
                        } else {
                            assert(old(self).guessed.negb(m));
                        }
                        assert(old(self).guessed.varb(v));
                    }
                    if self.deduced.lit_in(-m) {
                        if -m > 0 {
                            assert(self.deduced.posb(-m));
                        } else {
                            assert(self.deduced.negb(m));
                        }
                        assert(old(self).deduced.varb(v));
                    }
                } else {
                    assert(old(self).guessed.lit_in(m) || old(self).deduced.lit_in(m));
                    if self.guessed.lit_in(-m) && -m != l as int {
                        assert(old(self).guessed.lit_in(-m));
                    }
                    if -m == l as int {
                        // then `m == -l`, yet the accumulators avoid the
                        // variable of `l`
                        if old(self).guessed.lit_in(m) {
                            if m > 0 {
                                assert(old(self).guessed.posb(m));
                            } else {
                                assert(old(self).guessed.negb(-m));
                            }
                            assert(old(self).guessed.varb(vabs(m)));
                        }
                        if old(self).deduced.lit_in(m) {
                            if m > 0 {
                                assert(old(self).deduced.posb(m));
                            } else {
                                assert(old(self).deduced.negb(-m));
                            }
                            assert(old(self).deduced.varb(vabs(m)));
                        }
                        assert(vabs(m) == vabs(l as int));
                        assert(false);
                    }
                }
            }
        }
        // drop the clauses satisfied by `l`
        let mut i: usize = 0;
        while i < self.clauses.len()
            invariant
                self.nv == old(self).nv,
                self.deduced == old(self).deduced,
                self.guessed.wf() && self.guessed.nv == self.nv,
                forall|m: int|
                    #[trigger] self.guessed.lit_in(m) == (m == l as int || old(
                        self,
                    ).guessed.lit_in(m)),
                self.recents@ == old(self).recents@,
                self.recents@.len() == 0,
                old(self).prepared(),
                valid_lit(l as int, self.nv as int),
                all_wf(self.sview(), self.nv as int),
                sorted_cards(self.sview()),
                no_taut(self.sview()),
                no_subsumption(self.sview()),
                no_symmetry(self.sview()),
                from_among(self.sview(), pre),
                forall|v: int| var_in(self.sview(), v) ==> var_in(pre, v),
                self.sview().len() <= pre.len(),
                i <= self.sview().len(),
                forall|t: int| 0 <= t < i ==> !(#[trigger] self.sview()[t]).lit_in(l as int),
                forall|j: int|
                    0 <= j < pre.len() ==> in_seq(#[trigger] pre[j], self.sview()) || pre[j].lit_in(
                        l as int,
                    ),
            decreases self.sview().len() - i,
        {
            let has = self.clauses.get(i).read_literal(l);
            if has {
                let ghost mid = self.sview();
                let _ = self.clauses.remove_at(i);
                proof {
                    Problem::lemma_removal_step(mid, i as int, self.nv as int);
                    Problem::lemma_from_among_trans(self.sview(), mid, pre);
                    assert forall|v: int| var_in(self.sview(), v) implies var_in(pre, v) by {
                        let t = choose|t: int|
                            0 <= t < self.sview().len() && (#[trigger] self.sview()[t]).varb(v);
                        assert(var_in(mid, v));
                    }
                    assert forall|t: int|
                        0 <= t < i implies !(#[trigger] self.sview()[t]).lit_in(l as int) by {
                        assert(self.sview()[t] == mid[t]);
                    }
                    assert forall|j: int|
                        0 <= j < pre.len() implies in_seq(#[trigger] pre[j], self.sview())
                        || pre[j].lit_in(l as int) by {
                        if in_seq(pre[j], mid) {
                            let w = choose|w: int| 0 <= w < mid.len() && mid[w] == pre[j];
                            if w == i as int {
                                assert(pre[j].lit_in(l as int));
                            } else if w < i as int {
                                assert(self.sview()[w] == pre[j]);
                            } else {
                                assert(self.sview()[w - 1] == pre[j]);
                            }
                        }
                    }
                }
            } else {
                i = i + 1;
            }
        }
        // strip the complement from the clauses that carry it
        let ghost pre2 = self.sview();
        proof {
            assert forall|j: int| 0 <= j < pre2.len() implies in_seq(#[trigger] pre2[j], pre2) by {
                assert(pre2[j] == pre2[j]);
            }
            lemma_in_seq_covers(pre2, pre2);
            lemma_from_among_forward(pre, pre2);
            assert forall|j: int|
                0 <= j < pre.len() implies in_seq(#[trigger] pre[j], pre2) || pre[j].lit_in(
                l as int,
            ) by {}
        }
        let neg: isize = -l;
        let mut k: usize = self.clauses.len();
        while k > 0
            invariant
                self.nv == old(self).nv,
                self.deduced == old(self).deduced,
                self.guessed.wf() && self.guessed.nv == self.nv,
                forall|m: int|
                    #[trigger] self.guessed.lit_in(m) == (m == l as int || old(
                        self,
                    ).guessed.lit_in(m)),
                old(self).prepared(),
                valid_lit(l as int, self.nv as int),
                neg as int == -(l as int),
                all_wf(self.sview(), self.nv as int),
                sorted_cards(self.sview()),
                no_taut(self.sview()),
                self.recents@.len() == 0 ==> no_subsumption(self.sview()) && no_symmetry(
                    self.sview(),
                ),
                forall|v: int| var_in(self.sview(), v) ==> var_in(pre, v),
                self.sview().len() == pre2.len(),
                k <= self.sview().len(),
                forall|t: int| 0 <= t < self.sview().len() ==> !(#[trigger] self.sview()[t]).lit_in(
                    l as int,
                ),
                forall|t: int|
                    k <= t < self.sview().len() ==> !(#[trigger] self.sview()[t]).lit_in(
                        neg as int,
                    ),
                covers(self.sview(), pre2),
                forall|asg: Set<int>|
                    formula_sat(asg, lits_of(pre2)) && lit_sat(asg, l as int)
                        ==> #[trigger] formula_sat(asg, lits_of(self.sview())),
            decreases total_cards(self.sview()), k,
        {
            let t = k - 1;
            let has = self.clauses.get(t).read_literal(neg);
            if has {
                let ghost mid = self.sview();
                self.delete_literal(t, neg);
                proof {
                    lemma_covers_trans(self.sview(), mid, pre2);
                    assert forall|asg: Set<int>|
                        formula_sat(asg, lits_of(pre2)) && lit_sat(asg, l as int)
                            implies #[trigger] formula_sat(asg, lits_of(self.sview())) by {
                        assert(formula_sat(asg, lits_of(mid)));
                        lemma_in_seq_sat(asg, mid, mid[t as int], t as int);
                        assert(clause_sat(asg, mid[t as int].lits().remove(neg as int))) by {
                            let m = choose|m: int|
                                #[trigger] mid[t as int].lits().contains(m) && lit_sat(asg, m);
                            assert(m != neg as int);
                            assert(mid[t as int].lits().remove(neg as int).contains(m)
                                && lit_sat(asg, m));
                        }
                    }
                    assert forall|u: int|
                        0 <= u < self.sview().len() implies !(#[trigger] self.sview()[u]).lit_in(
                        l as int,
                    ) by {
                        if u > t {
                            assert(self.sview()[u] == mid[u]);
                        } else {
                            if self.sview()[u].lit_in(l as int) {
                                assert((exists|w: int|
                                    0 <= w < t && (#[trigger] mid[w]).lit_in(l as int)) || (
                                l as int != neg as int && mid[t as int].lit_in(l as int)));
                            }
                        }
                    }
                    assert forall|u: int|
                        k <= u < self.sview().len() implies !(#[trigger] self.sview()[u]).lit_in(
                        neg as int,
                    ) by {
                        assert(u > t);
                        assert(self.sview()[u] == mid[u]);
                    }
                    assert forall|v: int| var_in(self.sview(), v) implies var_in(pre, v) by {
                        assert(var_in(mid, v));
                    }
                }
            } else {
                k = k - 1;
            }
        }
        // restore subsumption- and symmetry-freedom
        let ghost pre3 = self.sview();
        self.consume_recents();
        proof {
            lemma_covers_trans(self.sview(), pre3, pre2);
            lemma_covers_reflects(pre2, self.sview(), self.guessed, self.deduced);
            // committing `l` preserves every model that makes it hold
            assert forall|asg: Set<int>|
                formula_sat(asg, lits_of(pre)) && lit_sat(asg, l as int)
                    implies #[trigger] formula_sat(asg, lits_of(self.sview())) by {
                assert(formula_sat(asg, lits_of(pre2)));
                assert(formula_sat(asg, lits_of(pre3)));
            }
            // and a model of the result extends to one of the input by
            // making `l` hold, since its variable is gone from the set
            assert forall|asg: Set<int>|
                #[trigger] formula_sat(asg, lits_of(self.sview())) implies formula_sat(
                crate::logic::assign_lit(asg, l as int),
                lits_of(pre),
            ) by {
                let asg2 = crate::logic::assign_lit(asg, l as int);
                assert(lit_sat(asg2, l as int));
                assert(formula_sat(asg2, lits_of(self.sview()))) by {
                    assert forall|u: int|
                        0 <= u < lits_of(self.sview()).len() implies clause_sat(
                        asg2,
                        #[trigger] lits_of(self.sview())[u],
                    ) by {
                        let cu = self.sview()[u];
                        assert(lits_of(self.sview())[u] == cu.lits());
                        assert(!cu.lit_in(l as int) && !cu.lit_in(-(l as int))) by {
                            let vl = vabs(l as int);
                            assert(!var_in(self.sview(), vl));
                            if cu.lit_in(l as int) || cu.lit_in(-(l as int)) {
                                assert(cu.posb(vl) || cu.negb(vl));
                                assert(cu.varb(vl));
                            }
                        }
                        lemma_in_seq_sat(asg, self.sview(), cu, u);
                        crate::logic::lemma_clause_sat_foreign_lit(asg, cu.lits(), l as int);
                    }
                }
                assert forall|j: int| 0 <= j < lits_of(pre).len() implies clause_sat(
                    asg2,
                    #[trigger] lits_of(pre)[j],
                ) by {
                    assert(lits_of(pre)[j] == pre[j].lits());
                    if pre[j].lit_in(l as int) {
                        assert(pre[j].lits().contains(l as int) && lit_sat(asg2, l as int));
                    } else {
                        assert(in_seq(pre[j], pre2));
                        lemma_covers_member(self.sview(), pre2, pre[j]);
                        lemma_covered_sat(asg2, self.sview(), pre[j]);
                    }
                }
            }
            assert forall|asg: Set<int>|
                respects(asg, self.guessed, self.deduced) && formula_sat(
                    asg,
                    lits_of(self.sview()),
                ) implies #[trigger] formula_sat(asg, lits_of(pre)) by {
                assert(formula_sat(asg, lits_of(pre2)));
                assert forall|j: int| 0 <= j < lits_of(pre).len() implies clause_sat(
                    asg,
                    #[trigger] lits_of(pre)[j],
                ) by {
                    assert(lits_of(pre)[j] == pre[j].lits());
                    if in_seq(pre[j], pre2) {
                        let w = choose|w: int| 0 <= w < pre2.len() && pre2[w] == pre[j];
                        lemma_in_seq_sat(asg, pre2, pre2[w], w);
                    } else {
                        assert(pre[j].lit_in(l as int));
                        assert(self.guessed.lit_in(l as int));
                        assert(lit_sat(asg, l as int));
                        assert(pre[j].lits().contains(l as int) && lit_sat(asg, l as int));
                    }
                }
            }
        }
        proof {
            let v = vabs(l as int);
            assert(!var_in(pre3, v)) by {
                if var_in(pre3, v) {
                    let t = choose|t: int|
                        0 <= t < pre3.len() && (#[trigger] pre3[t]).varb(v);
                    if pre3[t].posb(v) {
                        if l > 0 {
                            assert(pre3[t].lit_in(l as int));
                        } else {
                            assert(pre3[t].lit_in(neg as int));
                        }
                    } else {
                        assert(pre3[t].negb(v));
                        if l > 0 {
                            assert(pre3[t].lit_in(neg as int));
                        } else {
                            assert(pre3[t].lit_in(l as int));
                        }
                    }
                }
            }
            assert forall|v2: int|
                #[trigger] var_in(self.sview(), v2) implies !self.guessed.varb(v2)
                && !self.deduced.varb(v2) by {
                assert(var_in(pre3, v2));
                assert(var_in(pre, v2));
                assert(var_in(old(self).sview(), v2));
                assert(!old(self).guessed.varb(v2) && !old(self).deduced.varb(v2));
                assert(v2 != vabs(l as int));
                if self.guessed.varb(v2) {
                    if self.guessed.posb(v2) {
                        assert(self.guessed.lit_in(v2));
                        assert(v2 != l as int);
                        assert(old(self).guessed.lit_in(v2));
                        assert(old(self).guessed.posb(v2));
                    } else {
                        assert(self.guessed.negb(v2));
                        assert(self.guessed.lit_in(-v2));
                        assert(-v2 != l as int);
                        assert(old(self).guessed.lit_in(-v2));
                        assert(old(self).guessed.negb(v2));
                    }
                }
            }
        }
    }

    /// The clause carries at least one literal.
    pub open spec fn has_lit(c: Clause) -> bool {
        exists|m: int| c.lit_in(m)
    }

    /// No clause of the sequence is empty.
    pub open spec fn no_null(s: Seq<Clause>) -> bool {
        forall|i: int| 0 <= i < s.len() ==> Problem::has_lit(#[trigger] s[i])
    }

    /// The clause shares a variable with the footprint.
    pub open spec fn touches(c: Clause, fp: &crate::bitvec::BitVec) -> bool {
        exists|k: int| #[trigger] fp.bitat(k) && c.varb(k + 1)
    }

    /// Splits off the connected component of the first clause: clauses
    /// sharing a variable, transitively.  The component comes back as a
    /// problem of its own, with fresh accumulators and its invariants
    /// established; the remainder keeps no variable of the component.
    pub fn extract_component(&mut self) -> (comp: Problem)
        requires
            old(self).prepared(),
            old(self).sview().len() > 0,
            Problem::no_null(old(self).sview()),
        ensures
            comp.prepared(),
            comp.nv == old(self).nv,
            forall|l: int| !comp.guessed.lit_in(l),
            forall|l: int| !comp.deduced.lit_in(l),
            comp.sview().len() >= 1,
            final(self).prepared(),
            final(self).nv == old(self).nv,
            final(self).guessed == old(self).guessed,
            final(self).deduced == old(self).deduced,
            final(self).sview().len() < old(self).sview().len(),
            Problem::no_null(final(self).sview()),
            forall|v: int| var_in(comp.sview(), v) ==> var_in(old(self).sview(), v),
            forall|v: int| var_in(final(self).sview(), v) ==> var_in(old(self).sview(), v),
            forall|v: int| !(var_in(comp.sview(), v) && var_in(final(self).sview(), v)),
            forall|j: int|
                0 <= j < old(self).sview().len() ==> in_seq(
                    #[trigger] old(self).sview()[j],
                    final(self).sview(),
                ) || covered(comp.sview(), old(self).sview()[j]),
            preserved(old(self).sview(), final(self).sview()),
            preserved(old(self).sview(), comp.sview()),
    {
        let ghost pre = self.sview();
        proof {
            assert forall|t: int| 0 <= t < pre.len() implies in_seq(#[trigger] pre[t], pre) by {
                assert(pre[t] == pre[t]);
            }
        }
        let mut fp = self.clauses.get(0).variables();
        let mut picked = ClauseSet::new();
        loop
            invariant_except_break
                self.nv == old(self).nv,
                self.guessed == old(self).guessed,
                self.deduced == old(self).deduced,
                self.recents@ == old(self).recents@,
                old(self).prepared(),
                pre.len() > 0,
                Problem::no_null(pre),
                fp.words@.len() == crate::clause::blocks64(self.nv as int),
                all_wf(self.sview(), self.nv as int),
                sorted_cards(self.sview()),
                no_taut(self.sview()),
                no_subsumption(self.sview()),
                no_symmetry(self.sview()),
                from_among(self.sview(), pre),
                from_among(picked.items@, pre),
                picked.items@.len() + self.sview().len() == pre.len(),
                forall|j: int|
                    0 <= j < pre.len() ==> in_seq(#[trigger] pre[j], self.sview()) || in_seq(
                        pre[j],
                        picked.items@,
                    ),
                forall|t: int, v: int|
                    #![trigger picked.items@[t].varb(v)]
                    0 <= t < picked.items@.len() && picked.items@[t].varb(v) ==> fp.bitat(v - 1),
                forall|v: int| #[trigger] fp.bitat(v - 1) ==> var_in(pre, v),
                picked.items@.len() == 0 ==> self.sview() == pre && (forall|k: int|
                    #[trigger] fp.bitat(k) == pre[0].varb(k + 1)),
            ensures
                self.nv == old(self).nv,
                self.guessed == old(self).guessed,
                self.deduced == old(self).deduced,
                self.recents@ == old(self).recents@,
                fp.words@.len() == crate::clause::blocks64(self.nv as int),
                all_wf(self.sview(), self.nv as int),
                sorted_cards(self.sview()),
                no_taut(self.sview()),
                no_subsumption(self.sview()),
                no_symmetry(self.sview()),
                from_among(self.sview(), pre),
                from_among(picked.items@, pre),
                picked.items@.len() + self.sview().len() == pre.len(),
                forall|j: int|
                    0 <= j < pre.len() ==> in_seq(#[trigger] pre[j], self.sview()) || in_seq(
                        pre[j],
                        picked.items@,
                    ),
                forall|t: int, v: int|
                    #![trigger picked.items@[t].varb(v)]
                    0 <= t < picked.items@.len() && picked.items@[t].varb(v) ==> fp.bitat(v - 1),
                forall|v: int| #[trigger] fp.bitat(v - 1) ==> var_in(pre, v),
                picked.items@.len() == 0 ==> self.sview() == pre && (forall|k: int|
                    #[trigger] fp.bitat(k) == pre[0].varb(k + 1)),
                forall|t: int|
                    0 <= t < self.sview().len() ==> !Problem::touches(
                        #[trigger] self.sview()[t],
                        &fp,
                    ),
            decreases self.sview().len(),
        {
            let n0 = self.clauses.len();
            let ghost pass_pre = self.sview();
            let ghost fpw_pre = fp.words@;
            let mut i: usize = 0;
            while i < self.clauses.len()
                invariant
                    self.nv == old(self).nv,
                    self.guessed == old(self).guessed,
                    self.deduced == old(self).deduced,
                    self.recents@ == old(self).recents@,
                    old(self).prepared(),
                    pre.len() > 0,
                    fp.words@.len() == crate::clause::blocks64(self.nv as int),
                    all_wf(self.sview(), self.nv as int),
                    sorted_cards(self.sview()),
                    no_taut(self.sview()),
                    no_subsumption(self.sview()),
                    no_symmetry(self.sview()),
                    from_among(self.sview(), pre),
                    from_among(picked.items@, pre),
                    picked.items@.len() + self.sview().len() == pre.len(),
                    forall|j: int|
                        0 <= j < pre.len() ==> in_seq(#[trigger] pre[j], self.sview()) || in_seq(
                            pre[j],
                            picked.items@,
                        ),
                    forall|t: int, v: int|
                        #![trigger picked.items@[t].varb(v)]
                        0 <= t < picked.items@.len() && picked.items@[t].varb(v) ==> fp.bitat(
                            v - 1,
                        ),
                    forall|v: int| #[trigger] fp.bitat(v - 1) ==> var_in(pre, v),
                    picked.items@.len() == 0 ==> self.sview() == pre && (forall|k: int|
                        #[trigger] fp.bitat(k) == pre[0].varb(k + 1)),
                    i <= self.sview().len(),
                    self.sview().len() <= pass_pre.len(),
                    self.sview().len() == pass_pre.len() ==> self.sview() == pass_pre
                        && fp.words@ == fpw_pre && (forall|t: int|
                        0 <= t < i ==> !Problem::touches(#[trigger] self.sview()[t], &fp)),
                decreases self.sview().len() - i,
            {
                let hit = self.clauses.get(i).has_variables(&fp);
                if hit {
                    let ghost mid = self.sview();
                    let ghost pk0 = picked.items@;
                    let c = self.clauses.remove_at(i);
                    let ghost fpw0 = fp.words@;
                    c.enrich_variables(&mut fp);
                    picked.push(c);
                    proof {
                        Problem::lemma_removal_step(mid, i as int, self.nv as int);
                        Problem::lemma_from_among_trans(self.sview(), mid, pre);
                        let pk = picked.items@;
                        assert forall|j: int|
                            0 <= j < pre.len() implies in_seq(#[trigger] pre[j], self.sview())
                            || in_seq(pre[j], pk) by {
                            assert(pk == pk0.push(c));
                            if in_seq(pre[j], mid) {
                                let w = choose|w: int| 0 <= w < mid.len() && mid[w] == pre[j];
                                if w == i as int {
                                    assert(c == pre[j]);
                                    assert(pk[pk.len() - 1] == pre[j]);
                                } else if w < i as int {
                                    assert(self.sview()[w] == pre[j]);
                                } else {
                                    assert(self.sview()[w - 1] == pre[j]);
                                }
                            } else {
                                assert(in_seq(pre[j], pk0));
                                let w = choose|w: int| 0 <= w < pk0.len() && pk0[w] == pre[j];
                                assert(pk[w] == pre[j]);
                            }
                        }
                        assert forall|t: int| 0 <= t < pk.len() implies in_seq(
                            #[trigger] pk[t],
                            pre,
                        ) by {
                            if t < pk.len() - 1 {
                                assert(pk[t] == pk.drop_last()[t]);
                            } else {
                                assert(pk[t] == c);
                                assert(in_seq(mid[i as int], pre));
                            }
                        }
                        assert forall|t: int, v: int|
                            #![trigger pk[t].varb(v)]
                            0 <= t < pk.len() && pk[t].varb(v) implies fp.bitat(v - 1) by {
                            if t < pk.len() - 1 {
                                assert(pk.drop_last()[t].varb(v));
                            } else {
                                assert(c.varb(v));
                            }
                        }
                        assert forall|v: int| #[trigger] fp.bitat(v - 1) implies var_in(
                            pre,
                            v,
                        ) by {
                            if c.varb(v) {
                                assert(var_in(mid, v));
                            }
                        }
                    }
                } else {
                    i = i + 1;
                }
            }
            if self.clauses.len() == n0 {
                proof {
                    assert(self.sview().len() == pass_pre.len());
                }
                break;
            }
        }
        // the component cannot be empty: the seed clause itself shares
        // its variables with the footprint
        proof {
            if picked.items@.len() == 0 {
                assert(Problem::has_lit(pre[0]));
                let m = choose|m: int| pre[0].lit_in(m);
                let v = vabs(m);
                assert(pre[0].varb(v)) by {
                    if m > 0 {
                        assert(pre[0].posb(m));
                    } else {
                        assert(pre[0].negb(-m));
                    }
                }
                assert(fp.bitat(v - 1));
                assert(Problem::touches(self.sview()[0], &fp));
            }
        }
        let mut comp = Problem {
            nv: self.nv,
            clauses: picked,
            guessed: Clause::new(self.nv),
            deduced: Clause::new(self.nv),
            recents: Vec::new(),
        };
        let ghost comp0 = comp.sview();
        comp.sort_clauses();
        let ghost comp1 = comp.sview();
        comp.reduce();
        proof {
            lemma_from_among_forward(pre, self.sview());
            lemma_from_among_forward(pre, comp0);
            lemma_preserved_trans(pre, comp0, comp1);
            lemma_preserved_trans(pre, comp1, comp.sview());
            assert forall|j: int|
                0 <= j < pre.len() implies in_seq(#[trigger] pre[j], self.sview()) || covered(
                    comp.sview(),
                    pre[j],
                ) by {
                if !in_seq(pre[j], self.sview()) {
                    assert(in_seq(pre[j], comp0));
                    let w0 = choose|w0: int| 0 <= w0 < comp0.len() && comp0[w0] == pre[j];
                    assert(in_seq(comp0[w0], comp1));
                    lemma_covers_member(comp.sview(), comp1, pre[j]);
                }
            }
            // the component's clauses all came from the original set
            Problem::lemma_from_among_props(comp1, comp0, self.nv as int);
            Problem::lemma_from_among_props(comp0, pre, self.nv as int);
            assert(no_taut(comp0)) by {
                assert forall|t: int| 0 <= t < comp0.len() implies !(
                #[trigger] comp0[t]).tautc() by {
                    let u = choose|u: int| 0 <= u < pre.len() && pre[u] == comp0[t];
                }
            }
            // accumulators carry nothing, so they cannot clash
            assert forall|v: int|
                #[trigger] var_in(comp.sview(), v) implies !comp.guessed.varb(v)
                && !comp.deduced.varb(v) by {
                if comp.guessed.varb(v) {
                    if comp.guessed.posb(v) {
                        assert(comp.guessed.lit_in(v));
                    } else {
                        assert(comp.guessed.negb(v));
                        assert(comp.guessed.lit_in(-v));
                    }
                }
                if comp.deduced.varb(v) {
                    if comp.deduced.posb(v) {
                        assert(comp.deduced.lit_in(v));
                    } else {
                        assert(comp.deduced.negb(v));
                        assert(comp.deduced.lit_in(-v));
                    }
                }
            }
            assert forall|l: int|
                #![trigger comp.guessed.lit_in(l)]
                #![trigger comp.deduced.lit_in(l)]
                (comp.guessed.lit_in(l) || comp.deduced.lit_in(l)) implies !(
                comp.guessed.lit_in(-l) || comp.deduced.lit_in(-l)) by {}
            // the component's variables stay inside the footprint
            assert forall|v: int| var_in(comp.sview(), v) implies fp.bitat(v - 1) && var_in(
                pre,
                v,
            ) by {
                let t = choose|t: int|
                    0 <= t < comp.sview().len() && (#[trigger] comp.sview()[t]).varb(v);
                assert(var_in(comp1, v));
                assert(var_in(comp0, v));
                let t0 = choose|t0: int| 0 <= t0 < comp0.len() && (#[trigger] comp0[t0]).varb(v);
            }
            // the remainder never meets the footprint
            assert forall|v: int| !(var_in(comp.sview(), v) && var_in(
                self.sview(),
                v,
            )) by {
                if var_in(comp.sview(), v) && var_in(self.sview(), v) {
                    assert(fp.bitat(v - 1));
                    let t = choose|t: int|
                        0 <= t < self.sview().len() && (#[trigger] self.sview()[t]).varb(v);
                    assert(!Problem::touches(self.sview()[t], &fp));
                    assert(fp.bitat(v - 1) && self.sview()[t].varb((v - 1) + 1));
                }
            }
            // the remainder keeps the engine invariants
            Problem::lemma_from_among_props(self.sview(), pre, self.nv as int);
            assert forall|v: int|
                #[trigger] var_in(self.sview(), v) implies !self.guessed.varb(v)
                && !self.deduced.varb(v) by {
                assert(var_in(old(self).sview(), v));
            }
            assert forall|t: int|
                0 <= t < self.sview().len() implies Problem::has_lit(
                #[trigger] self.sview()[t]) by {
                let u = choose|u: int| 0 <= u < pre.len() && pre[u] == self.sview()[t];
                assert(Problem::has_lit(pre[u]));
                let m = choose|m: int| pre[u].lit_in(m);
                assert(self.sview()[t].lit_in(m));
            }
        }
        comp
    }

    /// Merges a sub-problem's model into the accumulators.  The merged
    /// literals must come from variables foreign to this problem's
    /// remaining clauses and to its own accumulators.
    fn merge_model(&mut self, g: &Clause, d: &Clause)
        requires
            old(self).prepared(),
            g.wf(),
            g.nv == old(self).nv,
            d.wf(),
            d.nv == old(self).nv,
            consistent_pair(*g, *d),
            forall|v: int|
                #![trigger g.varb(v)]
                #![trigger d.varb(v)]
                (g.varb(v) || d.varb(v)) ==> !old(self).guessed.varb(v) && !old(
                    self,
                ).deduced.varb(v) && !var_in(old(self).sview(), v),
        ensures
            final(self).prepared(),
            final(self).nv == old(self).nv,
            final(self).clauses == old(self).clauses,
            forall|m: int|
                #[trigger] final(self).guessed.lit_in(m) == (old(self).guessed.lit_in(m)
                    || g.lit_in(m)),
            forall|m: int|
                #[trigger] final(self).deduced.lit_in(m) == (old(self).deduced.lit_in(m)
                    || d.lit_in(m)),
            forall|v: int|
                #[trigger] final(self).guessed.varb(v) ==> old(self).guessed.varb(v) || g.varb(v),
            forall|v: int|
                #[trigger] final(self).deduced.varb(v) ==> old(self).deduced.varb(v) || d.varb(v),
    {
        self.guessed.union_in(g);
        self.deduced.union_in(d);
        proof {
            assert forall|v: int|
                #[trigger] self.guessed.varb(v) implies old(self).guessed.varb(v) || g.varb(
                    v,
                ) by {
                if self.guessed.posb(v) {
                    assert(self.guessed.lit_in(v));
                    if old(self).guessed.lit_in(v) {
                        assert(old(self).guessed.posb(v));
                    } else {
                        assert(g.lit_in(v));
                        assert(g.posb(v));
                    }
                } else if self.guessed.negb(v) {
                    assert(self.guessed.lit_in(-v));
                    if old(self).guessed.lit_in(-v) {
                        assert(old(self).guessed.negb(v));
                    } else {
                        assert(g.lit_in(-v));
                        assert(g.negb(v));
                    }
                }
            }
            assert forall|v: int|
                #[trigger] self.deduced.varb(v) implies old(self).deduced.varb(v) || d.varb(
                    v,
                ) by {
                if self.deduced.posb(v) {
                    assert(self.deduced.lit_in(v));
                    if old(self).deduced.lit_in(v) {
                        assert(old(self).deduced.posb(v));
                    } else {
                        assert(d.lit_in(v));
                        assert(d.posb(v));
                    }
                } else if self.deduced.negb(v) {
                    assert(self.deduced.lit_in(-v));
                    if old(self).deduced.lit_in(-v) {
                        assert(old(self).deduced.negb(v));
                    } else {
                        assert(d.lit_in(-v));
                        assert(d.negb(v));
                    }
                }
            }
            assert forall|l: int|
                #![trigger self.guessed.lit_in(l)]
                #![trigger self.deduced.lit_in(l)]
                (self.guessed.lit_in(l) || self.deduced.lit_in(l)) implies !(self.guessed.lit_in(
                    -l,
                ) || self.deduced.lit_in(-l)) by {
                let lv = vabs(l);
                if self.guessed.lit_in(l) || self.deduced.lit_in(l) {
                    let from_old = old(self).guessed.lit_in(l) || old(self).deduced.lit_in(l);
                    let from_new = g.lit_in(l) || d.lit_in(l);
                    assert(from_old || from_new);
                    if self.guessed.lit_in(-l) || self.deduced.lit_in(-l) {
                        let c_old = old(self).guessed.lit_in(-l) || old(self).deduced.lit_in(-l);
                        let c_new = g.lit_in(-l) || d.lit_in(-l);
                        assert(c_old || c_new);
                        // a literal names its variable in its carrier
                        assert(from_old ==> old(self).guessed.varb(lv) || old(
                            self,
                        ).deduced.varb(lv)) by {
                            if l > 0 {
                                if old(self).guessed.lit_in(l) {
                                    assert(old(self).guessed.posb(l));
                                }
                                if old(self).deduced.lit_in(l) {
                                    assert(old(self).deduced.posb(l));
                                }
                            } else {
                                if old(self).guessed.lit_in(l) {
                                    assert(old(self).guessed.negb(-l));
                                }
                                if old(self).deduced.lit_in(l) {
                                    assert(old(self).deduced.negb(-l));
                                }
                            }
                        }
                        assert(from_new ==> g.varb(lv) || d.varb(lv)) by {
                            if l > 0 {
                                if g.lit_in(l) {
                                    assert(g.posb(l));
                                }
                                if d.lit_in(l) {
                                    assert(d.posb(l));
                                }
                            } else {
                                if g.lit_in(l) {
                                    assert(g.negb(-l));
                                }
                                if d.lit_in(l) {
                                    assert(d.negb(-l));
                                }
                            }
                        }
                        assert(c_old ==> old(self).guessed.varb(lv) || old(self).deduced.varb(
                            lv,
                        )) by {
                            if -l > 0 {
                                if old(self).guessed.lit_in(-l) {
                                    assert(old(self).guessed.posb(-l));
                                }
                                if old(self).deduced.lit_in(-l) {
                                    assert(old(self).deduced.posb(-l));
                                }
                            } else {
                                if old(self).guessed.lit_in(-l) {
                                    assert(old(self).guessed.negb(l));
                                }
                                if old(self).deduced.lit_in(-l) {
                                    assert(old(self).deduced.negb(l));
                                }
                            }
                        }
                        assert(c_new ==> g.varb(lv) || d.varb(lv)) by {
                            if -l > 0 {
                                if g.lit_in(-l) {
                                    assert(g.posb(-l));
                                }
                                if d.lit_in(-l) {
                                    assert(d.posb(-l));
                                }
                            } else {
                                if g.lit_in(-l) {
                                    assert(g.negb(l));
                                }
                                if d.lit_in(-l) {
                                    assert(d.negb(l));
                                }
                            }
                        }
                        if from_old && c_old {
                            assert(false);
                        } else if from_new && c_new {
                            assert(false);
                        } else {
                            // one side old, the other new: the variable
                            // would stand on both sides of the divide
                            assert((old(self).guessed.varb(lv) || old(self).deduced.varb(lv)) && (
                            g.varb(lv) || d.varb(lv)));
                            assert(false);
                        }
                    }
                }
            }
            assert forall|v: int|
                #[trigger] var_in(self.sview(), v) implies !self.guessed.varb(v)
                && !self.deduced.varb(v) by {
                assert(var_in(old(self).sview(), v));
            }
        }
    }

    /// Decides the problem: kernelize, stop on an empty set (satisfied)
    /// or an empty clause (contradiction), otherwise split off a
    /// component and branch on a literal of its smallest clause.  A
    /// satisfying outcome hands back the accumulated `guessed` and
    /// `deduced` literals, a consistent partial assignment over the
    /// problem's variables.
    pub fn solve_problem(p: Problem, seed: u64) -> (res: (Option<(Clause, Clause)>, u64))
        requires
            p.prepared(),
        ensures
            res.0 matches Some(gd) ==> gd.0.wf() && gd.0.nv == p.nv && gd.1.wf() && gd.1.nv == p.nv
                && consistent_pair(gd.0, gd.1) && (forall|m: int|
                #[trigger] p.guessed.lit_in(m) ==> gd.0.lit_in(m)) && (forall|m: int|
                #[trigger] p.deduced.lit_in(m) ==> gd.1.lit_in(m)) && (forall|v: int|
                #[trigger] gd.0.varb(v) ==> var_in(p.sview(), v) || p.guessed.varb(v)) && (
            forall|v: int| #[trigger] gd.1.varb(v) ==> var_in(p.sview(), v) || p.deduced.varb(v))
                && (forall|asg: Set<int>|
                respects(asg, gd.0, gd.1) ==> #[trigger] formula_sat(asg, lits_of(p.sview()))),
            res.0 is None ==> !satisfiable(lits_of(p.sview())),
        decreases Problem::vars_set(p.sview()).len(),
    {
        let ghost orig = p;
        let mut q = p;
        let mut sd = seed;
        q.kernelize();
        if q.clause_count() == 0 {
            return (Some((q.guessed, q.deduced)), sd);
        }
        let first_null = q.clauses.get(0).is_null();
        if first_null {
            proof {
                assert forall|asg: Set<int>| !formula_sat(asg, lits_of(q.sview())) by {
                    if formula_sat(asg, lits_of(q.sview())) {
                        lemma_in_seq_sat(asg, q.sview(), q.sview()[0], 0);
                        let ml = choose|ml: int|
                            #[trigger] q.sview()[0].lits().contains(ml) && lit_sat(asg, ml);
                        assert(q.sview()[0].lit_in(ml));
                    }
                }
                assert(!satisfiable(lits_of(p.sview()))) by {
                    if satisfiable(lits_of(p.sview())) {
                        let asg = choose|asg: Set<int>| formula_sat(asg, lits_of(p.sview()));
                        assert(formula_sat(asg, lits_of(q.sview())));
                    }
                }
            }
            return (None, sd);
        }
        proof {
            Clause::lemma_card_lit(q.sview()[0]);
            assert forall|i: int|
                0 <= i < q.sview().len() implies Problem::has_lit(#[trigger] q.sview()[i]) by {
                assert(q.sview()[0].cardc() <= q.sview()[i].cardc());
                Clause::lemma_card_lit(q.sview()[i]);
            }
        }
        loop
            invariant
                orig == p,
                q.prepared(),
                orig.prepared(),
                q.nv == orig.nv,
                Problem::no_null(q.sview()),
                reflects(orig.sview(), q.sview(), q.guessed, q.deduced),
                preserved(orig.sview(), q.sview()),
                forall|v: int| var_in(q.sview(), v) ==> var_in(orig.sview(), v),
                forall|m: int| #[trigger] orig.guessed.lit_in(m) ==> q.guessed.lit_in(m),
                forall|m: int| #[trigger] orig.deduced.lit_in(m) ==> q.deduced.lit_in(m),
                forall|v: int|
                    #[trigger] q.guessed.varb(v) ==> orig.guessed.varb(v) || var_in(
                        orig.sview(),
                        v,
                    ),
                forall|v: int|
                    #[trigger] q.deduced.varb(v) ==> orig.deduced.varb(v) || var_in(
                        orig.sview(),
                        v,
                    ),
            decreases q.sview().len(),
        {
            if q.clause_count() == 0 {
                return (Some((q.guessed, q.deduced)), sd);
            }
            let ghost q_iter = q;
            let mut comp = q.extract_component();
            let ghost comp_pre = comp.sview();
            proof {
                lemma_preserved_trans(orig.sview(), q_iter.sview(), q.sview());
            }
            let comp_null = comp.clauses.get(0).is_null();
            if comp_null {
                proof {
                    assert forall|asg: Set<int>| !formula_sat(asg, lits_of(comp_pre)) by {
                        if formula_sat(asg, lits_of(comp_pre)) {
                            lemma_in_seq_sat(asg, comp_pre, comp_pre[0], 0);
                            let ml = choose|ml: int|
                                #[trigger] comp_pre[0].lits().contains(ml) && lit_sat(asg, ml);
                            assert(comp_pre[0].lit_in(ml));
                        }
                    }
                    assert(!satisfiable(lits_of(p.sview()))) by {
                        if satisfiable(lits_of(p.sview())) {
                            let asg = choose|asg: Set<int>| formula_sat(asg, lits_of(p.sview()));
                            assert(formula_sat(asg, lits_of(q_iter.sview())));
                            assert(formula_sat(asg, lits_of(comp_pre)));
                        }
                    }
                }
                return (None, sd);
            }
            let pick = comp.choice(sd);
            let lit = pick.0;
            sd = pick.1;
            let mut other = comp.duplicate_problem();
            proof {
                Problem::lemma_ceq_seq(other.sview(), comp.sview(), comp.nv as int);
                Problem::lemma_ceq_clause(other.guessed, comp.guessed);
                Problem::lemma_ceq_clause(other.deduced, comp.deduced);
                assert(other.prepared()) by {
                    assert forall|v: int|
                        #[trigger] var_in(other.sview(), v) implies !other.guessed.varb(v)
                        && !other.deduced.varb(v) by {
                        assert(var_in(comp.sview(), v));
                    }
                }
                // the chosen literal's variable lives in the component
                let lv = vabs(lit as int);
                assert(comp.sview()[0].varb(lv)) by {
                    if lit > 0 {
                        assert(comp.sview()[0].posb(lit as int));
                    } else {
                        assert(comp.sview()[0].negb(-(lit as int)));
                    }
                }
                assert(var_in(comp.sview(), lv));
                assert(var_in(other.sview(), lv));
            }
            let ghost lv = vabs(lit as int);
            comp.resolve(lit);
            proof {
                assert forall|u: int| var_in(comp.sview(), u) implies var_in(
                    orig.sview(),
                    u,
                ) by {
                    assert(var_in(comp_pre, u));
                    assert(var_in(q_iter.sview(), u));
                }
                assert(var_in(orig.sview(), lv)) by {
                    assert(var_in(comp_pre, lv));
                    assert(var_in(q_iter.sview(), lv));
                }
                Problem::lemma_vars_lt(comp.sview(), orig.sview(), orig.nv as int, lv);
            }
            let ghost comp_call = comp;
            let r1 = Problem::solve_problem(comp, sd);
            sd = r1.1;
            let sat1 = r1.0;
            match sat1 {
                Some(gd) => {
                    let (g, d) = gd;
                    proof {
                        assert forall|v: int|
                            #![trigger g.varb(v)]
                            #![trigger d.varb(v)]
                            (g.varb(v) || d.varb(v)) implies var_in(comp_pre, v)
                            && !q.guessed.varb(v) && !q.deduced.varb(v) && !var_in(
                            q.sview(),
                            v,
                        ) by {
                            assert(var_in(comp_pre, v)) by {
                                if g.varb(v) {
                                    assert(var_in(comp_call.sview(), v)
                                        || comp_call.guessed.varb(v));
                                    if comp_call.guessed.varb(v) {
                                        if comp_call.guessed.posb(v) {
                                            assert(comp_call.guessed.lit_in(v));
                                            assert(v == lit as int);
                                        } else {
                                            assert(comp_call.guessed.negb(v));
                                            assert(comp_call.guessed.lit_in(-v));
                                            assert(-v == lit as int);
                                        }
                                        assert(v == lv);
                                        assert(var_in(comp_pre, lv));
                                    }
                                } else {
                                    assert(d.varb(v));
                                    assert(var_in(comp_call.sview(), v)
                                        || comp_call.deduced.varb(v));
                                    if comp_call.deduced.varb(v) {
                                        if comp_call.deduced.posb(v) {
                                            assert(comp_call.deduced.lit_in(v));
                                        } else {
                                            assert(comp_call.deduced.negb(v));
                                            assert(comp_call.deduced.lit_in(-v));
                                        }
                                        assert(false);
                                    }
                                }
                            }
                            assert(var_in(q_iter.sview(), v));
                        }
                    }
                    q.merge_model(&g, &d);
                    proof {
                        assert forall|v: int|
                            #[trigger] q.guessed.varb(v) implies orig.guessed.varb(v) || var_in(
                                orig.sview(),
                                v,
                            ) by {
                            if g.varb(v) {
                                assert(var_in(comp_pre, v));
                                assert(var_in(q_iter.sview(), v));
                            }
                        }
                        assert forall|v: int|
                            #[trigger] q.deduced.varb(v) implies orig.deduced.varb(v) || var_in(
                                orig.sview(),
                                v,
                            ) by {
                            if d.varb(v) {
                                assert(var_in(comp_pre, v));
                                assert(var_in(q_iter.sview(), v));
                            }
                        }
                        assert forall|asg: Set<int>|
                            respects(asg, q.guessed, q.deduced) && formula_sat(
                                asg,
                                lits_of(q.sview()),
                            ) implies #[trigger] formula_sat(asg, lits_of(orig.sview())) by {
                            assert(respects(asg, g, d)) by {
                                assert forall|m: int|
                                    #![trigger g.lit_in(m)]
                                    #![trigger d.lit_in(m)]
                                    (g.lit_in(m) || d.lit_in(m)) implies lit_sat(asg, m) by {
                                    assert(q.guessed.lit_in(m) || q.deduced.lit_in(m));
                                }
                            }
                            assert(formula_sat(asg, lits_of(comp_call.sview())));
                            assert(respects(asg, comp_call.guessed, comp_call.deduced)) by {
                                assert forall|m: int|
                                    #![trigger comp_call.guessed.lit_in(m)]
                                    #![trigger comp_call.deduced.lit_in(m)]
                                    (comp_call.guessed.lit_in(m) || comp_call.deduced.lit_in(
                                        m,
                                    )) implies lit_sat(asg, m) by {
                                    if comp_call.guessed.lit_in(m) {
                                        assert(g.lit_in(m));
                                    } else {
                                        assert(d.lit_in(m));
                                    }
                                }
                            }
                            assert(formula_sat(asg, lits_of(comp_pre)));
                            assert(formula_sat(asg, lits_of(q_iter.sview()))) by {
                                assert forall|j: int|
                                    0 <= j < lits_of(q_iter.sview()).len() implies clause_sat(
                                    asg,
                                    #[trigger] lits_of(q_iter.sview())[j],
                                ) by {
                                    assert(lits_of(q_iter.sview())[j]
                                        == q_iter.sview()[j].lits());
                                    if in_seq(q_iter.sview()[j], q.sview()) {
                                        let w = choose|w: int|
                                            0 <= w < q.sview().len() && q.sview()[w]
                                                == q_iter.sview()[j];
                                        lemma_in_seq_sat(asg, q.sview(), q.sview()[w], w);
                                    } else {
                                        lemma_covered_sat(asg, comp_pre, q_iter.sview()[j]);
                                    }
                                }
                            }
                            assert(respects(asg, q_iter.guessed, q_iter.deduced)) by {
                                assert forall|m: int|
                                    #![trigger q_iter.guessed.lit_in(m)]
                                    #![trigger q_iter.deduced.lit_in(m)]
                                    (q_iter.guessed.lit_in(m) || q_iter.deduced.lit_in(
                                        m,
                                    )) implies lit_sat(asg, m) by {
                                    if q_iter.guessed.lit_in(m) {
                                        assert(q.guessed.lit_in(m));
                                    } else {
                                        assert(q.deduced.lit_in(m));
                                    }
                                }
                            }
                            assert(formula_sat(asg, lits_of(orig.sview())));
                        }
                    }
                },
                None => {
                    proof {
                        assert(var_in(other.sview(), lv));
                    }
                    let neg: isize = -lit;
                    let ghost other_pre = other;
                    other.resolve(neg);
                    proof {
                        assert forall|u: int| var_in(other.sview(), u) implies var_in(
                            orig.sview(),
                            u,
                        ) by {
                            assert(var_in(comp_pre, u));
                            assert(var_in(q_iter.sview(), u));
                        }
                        Problem::lemma_vars_lt(other.sview(), orig.sview(), orig.nv as int, lv);
                    }
                    let ghost other_call = other;
                    let r2 = Problem::solve_problem(other, sd);
                    sd = r2.1;
                    let sat2 = r2.0;
                    match sat2 {
                        Some(gd) => {
                            let (g, d) = gd;
                            proof {
                                assert forall|v: int|
                                    #![trigger g.varb(v)]
                                    #![trigger d.varb(v)]
                                    (g.varb(v) || d.varb(v)) implies var_in(comp_pre, v)
                                    && !q.guessed.varb(v) && !q.deduced.varb(v) && !var_in(
                                    q.sview(),
                                    v,
                                ) by {
                                    assert(var_in(comp_pre, v)) by {
                                        if g.varb(v) {
                                            assert(var_in(other_call.sview(), v)
                                                || other_call.guessed.varb(v));
                                            if other_call.guessed.varb(v) {
                                                if other_call.guessed.posb(v) {
                                                    assert(other_call.guessed.lit_in(v));
                                                    assert(v == -(lit as int));
                                                } else {
                                                    assert(other_call.guessed.negb(v));
                                                    assert(other_call.guessed.lit_in(-v));
                                                    assert(-v == -(lit as int));
                                                }
                                                assert(v == lv);
                                                assert(var_in(comp_pre, lv));
                                            }
                                        } else {
                                            assert(d.varb(v));
                                            assert(var_in(other_call.sview(), v)
                                                || other_call.deduced.varb(v));
                                            if other_call.deduced.varb(v) {
                                                if other_call.deduced.posb(v) {
                                                    assert(other_call.deduced.lit_in(v));
                                                } else {
                                                    assert(other_call.deduced.negb(v));
                                                    assert(other_call.deduced.lit_in(-v));
                                                }
                                                assert(false);
                                            }
                                        }
                                    }
                                    assert(var_in(q_iter.sview(), v));
                                }
                            }
                            q.merge_model(&g, &d);
                            proof {
                                assert forall|v: int|
                                    #[trigger] q.guessed.varb(v) implies orig.guessed.varb(v)
                                    || var_in(orig.sview(), v) by {
                                    if g.varb(v) {
                                        assert(var_in(comp_pre, v));
                                        assert(var_in(q_iter.sview(), v));
                                    }
                                }
                                assert forall|v: int|
                                    #[trigger] q.deduced.varb(v) implies orig.deduced.varb(v)
                                    || var_in(orig.sview(), v) by {
                                    if d.varb(v) {
                                        assert(var_in(comp_pre, v));
                                        assert(var_in(q_iter.sview(), v));
                                    }
                                }
                                Problem::lemma_ceq_lits_of(other_pre.sview(), comp_pre);
                                assert forall|asg: Set<int>|
                                    respects(asg, q.guessed, q.deduced) && formula_sat(
                                        asg,
                                        lits_of(q.sview()),
                                    ) implies #[trigger] formula_sat(
                                    asg,
                                    lits_of(orig.sview()),
                                ) by {
                                    assert(respects(asg, g, d)) by {
                                        assert forall|m: int|
                                            #![trigger g.lit_in(m)]
                                            #![trigger d.lit_in(m)]
                                            (g.lit_in(m) || d.lit_in(m)) implies lit_sat(
                                            asg,
                                            m,
                                        ) by {
                                            assert(q.guessed.lit_in(m) || q.deduced.lit_in(m));
                                        }
                                    }
                                    assert(formula_sat(asg, lits_of(other_call.sview())));
                                    assert(respects(
                                        asg,
                                        other_call.guessed,
                                        other_call.deduced,
                                    )) by {
                                        assert forall|m: int|
                                            #![trigger other_call.guessed.lit_in(m)]
                                            #![trigger other_call.deduced.lit_in(m)]
                                            (other_call.guessed.lit_in(m)
                                                || other_call.deduced.lit_in(m)) implies lit_sat(
                                            asg,
                                            m,
                                        ) by {
                                            if other_call.guessed.lit_in(m) {
                                                assert(g.lit_in(m));
                                            } else {
                                                assert(d.lit_in(m));
                                            }
                                        }
                                    }
                                    assert(formula_sat(asg, lits_of(other_pre.sview())));
                                    assert(formula_sat(asg, lits_of(comp_pre)));
                                    assert(formula_sat(asg, lits_of(q_iter.sview()))) by {
                                        assert forall|j: int|
                                            0 <= j < lits_of(q_iter.sview()).len() implies
                                            clause_sat(
                                            asg,
                                            #[trigger] lits_of(q_iter.sview())[j],
                                        ) by {
                                            assert(lits_of(q_iter.sview())[j]
                                                == q_iter.sview()[j].lits());
                                            if in_seq(q_iter.sview()[j], q.sview()) {
                                                let w = choose|w: int|
                                                    0 <= w < q.sview().len() && q.sview()[w]
                                                        == q_iter.sview()[j];
                                                lemma_in_seq_sat(asg, q.sview(), q.sview()[w], w);
                                            } else {
                                                lemma_covered_sat(
                                                    asg,
                                                    comp_pre,
                                                    q_iter.sview()[j],
                                                );
                                            }
                                        }
                                    }
                                    assert(respects(asg, q_iter.guessed, q_iter.deduced)) by {
                                        assert forall|m: int|
                                            #![trigger q_iter.guessed.lit_in(m)]
                                            #![trigger q_iter.deduced.lit_in(m)]
                                            (q_iter.guessed.lit_in(m) || q_iter.deduced.lit_in(
                                                m,
                                            )) implies lit_sat(asg, m) by {
                                            if q_iter.guessed.lit_in(m) {
                                                assert(q.guessed.lit_in(m));
                                            } else {
                                                assert(q.deduced.lit_in(m));
                                            }
                                        }
                                    }
                                    assert(formula_sat(asg, lits_of(orig.sview())));
                                }
                            }
                        },
                        None => {
                            proof {
                                Problem::lemma_ceq_lits_of(other_pre.sview(), comp_pre);
                                // neither polarity of the branch literal
                                // leads to a model, so the component, and
                                // with it the whole input, has none
                                assert forall|asg: Set<int>| !formula_sat(
                                    asg,
                                    lits_of(comp_pre),
                                ) by {
                                    if formula_sat(asg, lits_of(comp_pre)) {
                                        if lit_sat(asg, lit as int) {
                                            assert(formula_sat(asg, lits_of(comp_call.sview())));
                                            assert(satisfiable(lits_of(comp_call.sview())));
                                        } else {
                                            assert(lit_sat(asg, -(lit as int)));
                                            assert(formula_sat(asg, lits_of(other_pre.sview())));
                                            assert(formula_sat(asg, lits_of(other_call.sview())));
                                            assert(satisfiable(lits_of(other_call.sview())));
                                        }
                                    }
                                }
                                assert(!satisfiable(lits_of(p.sview()))) by {
                                    if satisfiable(lits_of(p.sview())) {
                                        let asg = choose|asg: Set<int>|
                                            formula_sat(asg, lits_of(p.sview()));
                                        assert(formula_sat(asg, lits_of(q_iter.sview())));
                                        assert(formula_sat(asg, lits_of(comp_pre)));
                                    }
                                }
                            }
                            return (None, sd);
                        },
                    }
                },
            }
        }
    }
}

} // verus!
