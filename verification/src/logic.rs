//! The meaning of a formula, and the soundness laws behind the
//! kernelizers: a clause is a set of literals, an assignment the set of
//! variables holding true, and each simplification step is proved to
//! preserve the satisfying assignments, or satisfiability itself.

use vstd::prelude::*;

use crate::clause::Clause;

verus! {

/// Literal `l` holds under the assignment `asg` (the set of true
/// variables).
pub open spec fn lit_sat(asg: Set<int>, l: int) -> bool {
    if l > 0 {
        asg.contains(l)
    } else {
        !asg.contains(-l)
    }
}

/// Some literal of the clause holds.
pub open spec fn clause_sat(asg: Set<int>, c: Set<int>) -> bool {
    exists|l: int| #[trigger] c.contains(l) && lit_sat(asg, l)
}

/// Every clause of the formula holds.
pub open spec fn formula_sat(asg: Set<int>, f: Seq<Set<int>>) -> bool {
    forall|i: int| 0 <= i < f.len() ==> clause_sat(asg, #[trigger] f[i])
}

/// Some assignment satisfies the formula.
pub open spec fn satisfiable(f: Seq<Set<int>>) -> bool {
    exists|asg: Set<int>| formula_sat(asg, f)
}

/// The clause contains some literal together with its complement.
pub open spec fn taut_lits(c: Set<int>) -> bool {
    exists|l: int| l != 0 && #[trigger] c.contains(l) && c.contains(-l)
}

/// The clause stands somewhere in the formula.
pub open spec fn in_fml(c: Set<int>, f: Seq<Set<int>>) -> bool {
    exists|k: int| 0 <= k < f.len() && (#[trigger] f[k]) == c
}

/// The assignment updated so that literal `l` holds.
pub open spec fn assign_lit(asg: Set<int>, l: int) -> Set<int> {
    if l > 0 {
        asg.insert(l)
    } else {
        asg.remove(-l)
    }
}

/// The bit-level tautology test agrees with the literal-set one.
pub proof fn lemma_tautc_is_taut_lits(c: Clause)
    ensures
        c.tautc() == taut_lits(c.lits()),
{
    if c.tautc() {
        let v = choose|v: int| c.posb(v) && c.negb(v);
        assert(c.lits().contains(v) && c.lits().contains(-v));
    }
    if taut_lits(c.lits()) {
        let l = choose|l: int| l != 0 && #[trigger] c.lits().contains(l) && c.lits().contains(-l);
        if l > 0 {
            assert(c.posb(l) && c.negb(l));
        } else {
            assert(c.posb(-l) && c.negb(-l));
        }
    }
}

/// A tautologous clause holds under every assignment.
pub proof fn lemma_taut_clause_sat(asg: Set<int>, c: Set<int>)
    requires
        taut_lits(c),
    ensures
        clause_sat(asg, c),
{
    let l = choose|l: int| l != 0 && #[trigger] c.contains(l) && c.contains(-l);
    if lit_sat(asg, l) {
        assert(c.contains(l) && lit_sat(asg, l));
    } else {
        assert(c.contains(-l) && lit_sat(asg, -l));
    }
}

/// Removing a tautologous clause changes no assignment's verdict, so
/// satisfiability is preserved.
pub proof fn lemma_tautology_removal(f: Seq<Set<int>>, i: int)
    requires
        0 <= i < f.len(),
        taut_lits(f[i]),
    ensures
        forall|asg: Set<int>| formula_sat(asg, f) == formula_sat(asg, f.remove(i)),
        satisfiable(f) == satisfiable(f.remove(i)),
{
    let g = f.remove(i);
    assert forall|asg: Set<int>| formula_sat(asg, f) == formula_sat(asg, g) by {
        if formula_sat(asg, f) {
            assert forall|k: int| 0 <= k < g.len() implies clause_sat(asg, #[trigger] g[k]) by {
                if k < i {
                    assert(g[k] == f[k]);
                } else {
                    assert(g[k] == f[k + 1]);
                }
            }
        }
        if formula_sat(asg, g) {
            assert forall|k: int| 0 <= k < f.len() implies clause_sat(asg, #[trigger] f[k]) by {
                if k == i {
                    lemma_taut_clause_sat(asg, f[i]);
                } else if k < i {
                    assert(f[k] == g[k]);
                } else {
                    assert(f[k] == g[k - 1]);
                }
            }
        }
    }
    if satisfiable(f) {
        let asg = choose|asg: Set<int>| formula_sat(asg, f);
        assert(formula_sat(asg, g));
    }
    if satisfiable(g) {
        let asg = choose|asg: Set<int>| formula_sat(asg, g);
        assert(formula_sat(asg, f));
    }
}

/// Changing the polarity of a variable foreign to a clause does not
/// change the clause's verdict.
pub proof fn lemma_clause_sat_foreign_lit(asg: Set<int>, c: Set<int>, l: int)
    requires
        l != 0,
        !c.contains(l),
        !c.contains(-l),
    ensures
        clause_sat(assign_lit(asg, l), c) == clause_sat(asg, c),
{
    let asg2 = assign_lit(asg, l);
    if clause_sat(asg, c) {
        let m = choose|m: int| #[trigger] c.contains(m) && lit_sat(asg, m);
        assert(m != l && m != -l);
        assert(lit_sat(asg2, m));
    }
    if clause_sat(asg2, c) {
        let m = choose|m: int| #[trigger] c.contains(m) && lit_sat(asg2, m);
        assert(m != l && m != -l);
        assert(lit_sat(asg, m));
    }
}

/// Pure-literal elimination.  When no clause carries `-l`, dropping the
/// clauses that carry `l` preserves satisfiability, and any model of
/// the reduced formula extends to one of the whole formula by making
/// `l` hold — the polarity recorded for the eliminated literal.
pub proof fn lemma_pure_literal(f: Seq<Set<int>>, g: Seq<Set<int>>, l: int)
    requires
        l != 0,
        // `l` is pure in `f`
        forall|k: int| 0 <= k < f.len() ==> !(#[trigger] f[k]).contains(-l),
        // `g` holds exactly the clauses of `f` free of `l`
        forall|k: int| 0 <= k < g.len() ==> in_fml(#[trigger] g[k], f),
        forall|k: int| 0 <= k < g.len() ==> !(#[trigger] g[k]).contains(l),
        forall|k: int| 0 <= k < f.len() && !(#[trigger] f[k]).contains(l) ==> in_fml(f[k], g),
    ensures
        forall|asg: Set<int>| formula_sat(asg, f) ==> formula_sat(asg, g),
        forall|asg: Set<int>| formula_sat(asg, g) ==> formula_sat(assign_lit(asg, l), f),
        satisfiable(f) == satisfiable(g),
{
    assert forall|asg: Set<int>| formula_sat(asg, f) implies formula_sat(asg, g) by {
        assert forall|k: int| 0 <= k < g.len() implies clause_sat(asg, #[trigger] g[k]) by {
            assert(in_fml(g[k], f));
            let k2 = choose|k2: int| 0 <= k2 < f.len() && (#[trigger] f[k2]) == g[k];
            assert(clause_sat(asg, f[k2]));
        }
    }
    assert forall|asg: Set<int>| formula_sat(asg, g) implies formula_sat(
        assign_lit(asg, l),
        f,
    ) by {
        let asg2 = assign_lit(asg, l);
        assert forall|k: int| 0 <= k < f.len() implies clause_sat(asg2, #[trigger] f[k]) by {
            if f[k].contains(l) {
                assert(lit_sat(asg2, l));
            } else {
                assert(in_fml(f[k], g));
                let k2 = choose|k2: int| 0 <= k2 < g.len() && (#[trigger] g[k2]) == f[k];
                assert(clause_sat(asg, f[k]));
                lemma_clause_sat_foreign_lit(asg, f[k], l);
            }
        }
    }
    if satisfiable(f) {
        let asg = choose|asg: Set<int>| formula_sat(asg, f);
        assert(formula_sat(asg, g));
    }
    if satisfiable(g) {
        let asg = choose|asg: Set<int>| formula_sat(asg, g);
        assert(formula_sat(assign_lit(asg, l), f));
    }
}

/// Self-subsumption by resolution.  When clause `C = f[i]` exceeds
/// clause `D = f[j]` by the one literal `l`, while `D` carries `-l`
/// and `C` is no tautology, then `D` may drop `-l`: an assignment
/// satisfies the new formula whenever it satisfies the old one.
pub proof fn lemma_self_subsumption(f: Seq<Set<int>>, i: int, j: int, l: int)
    requires
        0 <= i < f.len(),
        0 <= j < f.len(),
        i != j,
        l != 0,
        f[i].contains(l),
        !f[j].contains(l),
        forall|m: int| (#[trigger] f[i].contains(m)) && m != l ==> f[j].contains(m),
        f[j].contains(-l),
        !taut_lits(f[i]),
    ensures
        forall|asg: Set<int>|
            formula_sat(asg, f) == formula_sat(asg, f.update(j, f[j].remove(-l))),
{
    let g = f.update(j, f[j].remove(-l));
    assert forall|asg: Set<int>| formula_sat(asg, f) == formula_sat(asg, g) by {
        if formula_sat(asg, f) {
            assert forall|k: int| 0 <= k < g.len() implies clause_sat(asg, #[trigger] g[k]) by {
                if k == j {
                    let m = choose|m: int| #[trigger] f[j].contains(m) && lit_sat(asg, m);
                    if m != -l {
                        assert(g[j].contains(m) && lit_sat(asg, m));
                    } else {
                        // `-l` satisfied `D`, so `l` fails; `C` must be
                        // satisfied by another of its literals, which
                        // also stands in `D` and differs from `-l`.
                        assert(!lit_sat(asg, l));
                        let m2 = choose|m2: int| #[trigger] f[i].contains(m2) && lit_sat(asg, m2);
                        assert(m2 != l);
                        assert(f[j].contains(m2));
                        if m2 == -l {
                            assert(f[i].contains(-l) && f[i].contains(l));
                            assert(taut_lits(f[i]));
                        }
                        assert(g[j].contains(m2) && lit_sat(asg, m2));
                    }
                } else {
                    assert(g[k] == f[k]);
                }
            }
        }
        if formula_sat(asg, g) {
            assert forall|k: int| 0 <= k < f.len() implies clause_sat(asg, #[trigger] f[k]) by {
                if k == j {
                    let m = choose|m: int| #[trigger] g[j].contains(m) && lit_sat(asg, m);
                    assert(f[j].contains(m));
                } else {
                    assert(f[k] == g[k]);
                }
            }
        }
    }
}

/// Setting a literal and then unsetting it leaves a clause unchanged,
/// provided the clause did not carry the literal to begin with.  The
/// hypotheses are exactly what `set_literal` and `unset_literal`
/// guarantee.
pub proof fn lemma_set_unset_identity(c0: Clause, c1: Clause, c2: Clause, l: int)
    requires
        forall|m: int| c1.lit_in(m) == (m == l || c0.lit_in(m)),
        forall|m: int| c2.lit_in(m) == (m != l && c1.lit_in(m)),
        !c0.lit_in(l),
    ensures
        forall|m: int| c2.lit_in(m) == c0.lit_in(m),
        c2.lits() =~= c0.lits(),
{
    assert forall|m: int| c2.lit_in(m) == c0.lit_in(m) by {}
}

/// Swapping the polarities twice restores every literal.  The
/// hypotheses are exactly what `flip_polarity` guarantees.
pub proof fn lemma_flip_flip_identity(c0: Clause, c1: Clause, c2: Clause)
    requires
        forall|v: int| #[trigger] c1.posb(v) == c0.negb(v),
        forall|v: int| #[trigger] c1.negb(v) == c0.posb(v),
        forall|v: int| #[trigger] c2.posb(v) == c1.negb(v),
        forall|v: int| #[trigger] c2.negb(v) == c1.posb(v),
    ensures
        forall|m: int| c2.lit_in(m) == c0.lit_in(m),
        c2.lits() =~= c0.lits(),
{
    assert forall|m: int| c2.lit_in(m) == c0.lit_in(m) by {
        if m >= 0 {
            assert(c2.posb(m) == c1.negb(m) && c1.negb(m) == c0.posb(m));
        } else {
            assert(c2.negb(-m) == c1.posb(-m) && c1.posb(-m) == c0.negb(-m));
        }
    }
}

/// Every clause is a subset of itself, and no clause shares a literal
/// with the empty clause: what `subset_of(c, c)` and
/// `disjoint(c, empty)` compute is always true.
pub proof fn lemma_subset_self_disjoint_empty(c: Clause, empty: Clause)
    requires
        forall|m: int| !empty.lit_in(m),
    ensures
        forall|m: int| c.lit_in(m) ==> c.lit_in(m),
        forall|m: int| !(c.lit_in(m) && empty.lit_in(m)),
{
}

} // verus!
