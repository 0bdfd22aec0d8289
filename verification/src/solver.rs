//! The solver facade: declared variable and clause counts, clause
//! intake with input validation, and the decision call with its cached
//! verdict.

use vstd::prelude::*;

use crate::clause::valid_lit;
use crate::clause::Clause;
use crate::clause::VAR_LIMIT;
use crate::logic::clause_sat;
use crate::logic::formula_sat;
use crate::logic::lit_sat;
use crate::logic::satisfiable;
use crate::problem::consistent_pair;
use crate::problem::lits_of;
use crate::problem::respects;
use crate::problem::vabs;
use crate::problem::Problem;

verus! {

/// The branching seed; any value serves.
pub const CHOICE_SEED: u64 = 0x9E37_79B9_7F4A_7C15;

#[derive(Debug)]
pub enum Solution {
    Satisfiable(Vec<isize>),
    Unsatisfiable,
}

#[derive(Debug)]
pub enum SolverError {
    VariableIsZero,
    VariableTooLarge(isize),
    TooManyClauses,
    TooFewClauses,
}

/// The assignment a model stands for: exactly the variables listed
/// positively hold, every other variable is false.
pub open spec fn asg_of(m: Seq<isize>) -> Set<int> {
    Set::new(|v: int| v > 0 && exists|t: int| 0 <= t < m.len() && #[trigger] m[t] as int == v)
}

/// A model as handed outward: literals ascending by variable, one per
/// assigned variable, each within the declared range.
pub open spec fn model_ok(m: Seq<isize>, nv: int) -> bool {
    &&& forall|t: int| 0 <= t < m.len() ==> valid_lit(#[trigger] m[t] as int, nv)
    &&& forall|t1: int, t2: int|
        #![trigger m[t1], m[t2]]
        0 <= t1 < t2 < m.len() ==> vabs(m[t1] as int) < vabs(m[t2] as int)
}

pub struct Solver {
    pub var_numbr: usize,
    pub cls_numbr: usize,
    pub work_onto: Option<Problem>,
    pub verdict: Option<Option<Vec<isize>>>,
}

impl Solver {
    /// The solver is either still holding a problem being built, or a
    /// cached verdict.
    pub open spec fn wf(self) -> bool {
        &&& self.var_numbr <= VAR_LIMIT
        &&& match self.work_onto {
            Some(p) => {
                &&& p.base_wf()
                &&& p.nv == self.var_numbr
                &&& p.sview().len() <= self.cls_numbr
                &&& p.recents@.len() == 0
                &&& (forall|l: int| !p.guessed.lit_in(l))
                &&& (forall|l: int| !p.deduced.lit_in(l))
                &&& self.verdict is None
            },
            None => {
                match self.verdict {
                    Some(v) => match v {
                        Some(m) => model_ok(m@, self.var_numbr as int),
                        None => true,
                    },
                    None => false,
                }
            },
        }
    }

    /// Whether a clause may still be added.
    pub open spec fn can_accept(self) -> bool {
        match self.work_onto {
            Some(p) => p.sview().len() < self.cls_numbr,
            None => false,
        }
    }

    pub fn new(var_numbr: usize, cls_numbr: usize) -> (r: Solver)
        requires
            var_numbr <= VAR_LIMIT,
        ensures
            r.wf(),
            r.var_numbr == var_numbr,
            r.cls_numbr == cls_numbr,
            r.work_onto matches Some(p) && p.sview().len() == 0,
    {
        Solver {
            var_numbr,
            cls_numbr,
            work_onto: Some(Problem::new(var_numbr)),
            verdict: None,
        }
    }

    /// True while fewer clauses were added than were declared.
    pub fn need_to_add(&self) -> (r: bool)
        ensures
            r == self.can_accept(),
    {
        match &self.work_onto {
            Some(p) => p.clause_count() < self.cls_numbr,
            None => false,
        }
    }

    /// Adds one clause.  Rejects a zero literal, then a literal beyond
    /// the declared variable count, then any clause past the declared
    /// clause count; otherwise the clause joins the set.
    pub fn add_clause(&mut self, literals: Vec<isize>) -> (r: Result<(), SolverError>)
        requires
            old(self).wf(),
        ensures
            final(self).wf(),
            final(self).var_numbr == old(self).var_numbr,
            final(self).cls_numbr == old(self).cls_numbr,
            r matches Err(e) ==> *final(self) == *old(self) && (e is VariableIsZero <==> (old(
                self,
            ).can_accept() && exists|t: int| 0 <= t < literals@.len() && literals@[t] == 0)),
            !old(self).can_accept() ==> r matches Err(SolverError::TooManyClauses),
            r matches Err(SolverError::TooManyClauses) ==> !old(self).can_accept(),
            r matches Err(SolverError::VariableTooLarge(x)) ==> exists|t: int|
                0 <= t < literals@.len() && literals@[t] == x && !valid_lit(
                    x as int,
                    old(self).var_numbr as int,
                ),
            r is Ok <==> (old(self).can_accept() && forall|t: int|
                0 <= t < literals@.len() ==> valid_lit(
                    #[trigger] literals@[t] as int,
                    old(self).var_numbr as int,
                )),
            r is Ok ==> (final(self).work_onto matches Some(p) && p.sview().len() == old(
                self,
            ).work_onto.unwrap().sview().len() + 1 && (forall|m: int|
                p.sview().last().lit_in(m) == exists|t: int|
                    0 <= t < literals@.len() && literals@[t] as int == m)),
    {
        let accept = self.need_to_add();
        if !accept {
            return Err(SolverError::TooManyClauses);
        }
        let n = literals.len();
        let mut t: usize = 0;
        while t < n
            invariant
                *self == *old(self),
                old(self).wf(),
                old(self).can_accept(),
                n == literals@.len(),
                t <= n,
                forall|u: int| 0 <= u < t ==> literals@[u] != 0,
            decreases n - t,
        {
            if literals[t] == 0 {
                return Err(SolverError::VariableIsZero);
            }
            t = t + 1;
        }
        let bound = self.var_numbr as isize;
        let mut t2: usize = 0;
        while t2 < n
            invariant
                *self == *old(self),
                old(self).wf(),
                old(self).can_accept(),
                n == literals@.len(),
                bound == self.var_numbr as isize,
                self.var_numbr <= VAR_LIMIT,
                t2 <= n,
                forall|u: int| 0 <= u < n ==> literals@[u] != 0,
                forall|u: int|
                    0 <= u < t2 ==> valid_lit(#[trigger] literals@[u] as int, self.var_numbr as int),
            decreases n - t2,
        {
            let l = literals[t2];
            if l < -bound || l > bound {
                return Err(SolverError::VariableTooLarge(l));
            }
            t2 = t2 + 1;
        }
        match &mut self.work_onto {
            Some(p) => {
                p.add_clause(&literals);
                Ok(())
            },
            None => {
                proof {
                    assert(false);
                }
                Err(SolverError::TooManyClauses)
            },
        }
    }

    /// Decides the problem, or hands back the cached verdict.  A
    /// satisfiable verdict carries a model: one literal per assigned
    /// variable, ascending by variable.
    pub fn solve(&mut self) -> (r: Result<Solution, SolverError>)
        requires
            old(self).wf(),
        ensures
            final(self).wf(),
            final(self).var_numbr == old(self).var_numbr,
            final(self).cls_numbr == old(self).cls_numbr,
            r matches Err(e) ==> e is TooFewClauses && old(self).can_accept() && *final(self)
                == *old(self),
            r is Err <==> old(self).can_accept(),
            r matches Ok(s) ==> !final(self).can_accept() && final(self).verdict is Some && (
            s matches Solution::Satisfiable(m) ==> model_ok(m@, final(self).var_numbr as int)),
            // a model satisfies every clause the problem was built from
            r matches Ok(s) ==> (s matches Solution::Satisfiable(m) ==> (old(
                self,
            ).work_onto matches Some(p0) ==> forall|i: int|
                0 <= i < p0.sview().len() ==> clause_sat(
                    asg_of(m@),
                    #[trigger] p0.sview()[i].lits(),
                ))),
            // an unsatisfiable verdict means no assignment at all
            // satisfies the clauses the problem was built from
            r matches Ok(s) ==> (s is Unsatisfiable ==> (old(self).work_onto matches Some(p0)
                ==> !satisfiable(lits_of(p0.sview())))),
            // the verdict is cached, and a cached call changes nothing
            old(self).work_onto is None ==> *final(self) == *old(self),
            r matches Ok(s) ==> (final(self).verdict matches Some(v) && (s is Unsatisfiable <==> v
                is None) && (s matches Solution::Satisfiable(m) ==> (v matches Some(mv) && mv@
                == m@))),
    {
        let cached = self.work_onto.is_none();
        if cached {
            match &self.verdict {
                Some(v) => {
                    match v {
                        Some(m) => {
                            let out = copy_literals(m);
                            return Ok(Solution::Satisfiable(out));
                        },
                        None => {
                            return Ok(Solution::Unsatisfiable);
                        },
                    }
                },
                None => {
                    proof {
                        assert(false);
                    }
                    return Ok(Solution::Unsatisfiable);
                },
            }
        }
        let still = self.need_to_add();
        if still {
            return Err(SolverError::TooFewClauses);
        }
        let p_opt = self.work_onto.take();
        match p_opt {
            Some(mut p) => {
                let ghost p_built = p;
                p.prepare();
                let ghost p_prep = p;
                let res = Problem::solve_problem(p, CHOICE_SEED);
                match res.0 {
                    Some(gd) => {
                        let (g, d) = gd;
                        let model = assemble_model(&g, &d, self.var_numbr);
                        proof {
                            let asg = asg_of(model@);
                            assert(respects(asg, g, d)) by {
                                assert forall|m0: int|
                                    #![trigger g.lit_in(m0)]
                                    #![trigger d.lit_in(m0)]
                                    (g.lit_in(m0) || d.lit_in(m0)) implies lit_sat(asg, m0) by {
                                    let t = choose|t: int|
                                        0 <= t < model@.len() && model@[t] as int == m0;
                                    if m0 > 0 {
                                        assert(asg.contains(m0));
                                    } else {
                                        if asg.contains(-m0) {
                                            let t2 = choose|t2: int|
                                                0 <= t2 < model@.len() && #[trigger] model@[t2]
                                                    as int == -m0;
                                            assert(g.lit_in(-m0) || d.lit_in(-m0));
                                            assert(false);
                                        }
                                    }
                                }
                            }
                            assert(formula_sat(asg, lits_of(p_prep.sview())));
                            assert(respects(asg, p_prep.guessed, p_prep.deduced)) by {
                                assert forall|m0: int|
                                    #![trigger p_prep.guessed.lit_in(m0)]
                                    #![trigger p_prep.deduced.lit_in(m0)]
                                    (p_prep.guessed.lit_in(m0) || p_prep.deduced.lit_in(
                                        m0,
                                    )) implies lit_sat(asg, m0) by {
                                    // the accumulators are empty after
                                    // preparation
                                    assert(!p_prep.guessed.lit_in(m0));
                                    assert(!p_prep.deduced.lit_in(m0));
                                }
                            }
                            assert(formula_sat(asg, lits_of(p_built.sview())));
                            assert forall|i: int|
                                0 <= i < p_built.sview().len() implies clause_sat(
                                asg,
                                #[trigger] p_built.sview()[i].lits(),
                            ) by {
                                assert(lits_of(p_built.sview())[i] == p_built.sview()[i].lits());
                            }
                        }
                        let out = copy_literals(&model);
                        self.verdict = Some(Some(model));
                        Ok(Solution::Satisfiable(out))
                    },
                    None => {
                        proof {
                            assert(!satisfiable(lits_of(p_built.sview()))) by {
                                if satisfiable(lits_of(p_built.sview())) {
                                    let asg = choose|asg: Set<int>|
                                        formula_sat(asg, lits_of(p_built.sview()));
                                    assert(formula_sat(asg, lits_of(p_prep.sview())));
                                    assert(satisfiable(lits_of(p_prep.sview())));
                                }
                            }
                        }
                        self.verdict = Some(None);
                        Ok(Solution::Unsatisfiable)
                    },
                }
            },
            None => {
                proof {
                    assert(false);
                }
                Err(SolverError::TooFewClauses)
            },
        }
    }
}

/// An element-wise copy of a literal vector.
pub fn copy_literals(v: &Vec<isize>) -> (r: Vec<isize>)
    ensures
        r@ == v@,
{
    let mut r: Vec<isize> = Vec::new();
    let mut i: usize = 0;
    while i < v.len()
        invariant
            i <= v@.len(),
            r@ =~= v@.subrange(0, i as int),
        decreases v@.len() - i,
    {
        r.push(v[i]);
        i = i + 1;
    }
    proof {
        assert(r@ =~= v@);
    }
    r
}

/// Reads the assignment out of the two accumulators: for each assigned
/// variable, ascending, the literal that holds.
pub fn assemble_model(g: &Clause, d: &Clause, nv: usize) -> (m: Vec<isize>)
    requires
        g.wf(),
        g.nv == nv,
        d.wf(),
        d.nv == nv,
        nv <= VAR_LIMIT,
        consistent_pair(*g, *d),
    ensures
        model_ok(m@, nv as int),
        forall|t: int|
            0 <= t < m@.len() ==> g.lit_in(#[trigger] m@[t] as int) || d.lit_in(m@[t] as int),
        forall|l: int|
            (g.lit_in(l) || d.lit_in(l)) ==> exists|t: int| 0 <= t < m@.len() && m@[t] as int == l,
{
    let mut m: Vec<isize> = Vec::new();
    let mut v: usize = 1;
    while v <= nv
        invariant
            g.wf() && g.nv == nv && d.wf() && d.nv == nv,
            nv <= VAR_LIMIT,
            consistent_pair(*g, *d),
            1 <= v <= nv + 1,
            forall|t: int|
                #![trigger m@[t]]
                0 <= t < m@.len() ==> valid_lit(m@[t] as int, nv as int) && 0 < vabs(m@[t] as int)
                    < v && (g.lit_in(m@[t] as int) || d.lit_in(m@[t] as int)),
            forall|t1: int, t2: int|
                #![trigger m@[t1], m@[t2]]
                0 <= t1 < t2 < m@.len() ==> vabs(m@[t1] as int) < vabs(m@[t2] as int),
            forall|l: int|
                0 < vabs(l) < v && (g.lit_in(l) || d.lit_in(l)) ==> exists|t: int|
                    0 <= t < m@.len() && m@[t] as int == l,
        decreases nv + 1 - v,
    {
        let ghost m0 = m@;
        let lv = v as isize;
        let pos = if g.read_literal(lv) {
            true
        } else {
            d.read_literal(lv)
        };
        let negl: isize = -lv;
        let neg = if g.read_literal(negl) {
            true
        } else {
            d.read_literal(negl)
        };
        if pos {
            m.push(lv);
        } else if neg {
            m.push(negl);
        }
        proof {
            if pos && neg {
                assert(g.lit_in(lv as int) || d.lit_in(lv as int));
                assert(g.lit_in(-(lv as int)) || d.lit_in(-(lv as int)));
                assert(false);
            }
            assert forall|l: int|
                0 < vabs(l) < v + 1 && (g.lit_in(l) || d.lit_in(l)) implies exists|t: int|
                0 <= t < m@.len() && m@[t] as int == l by {
                if vabs(l) < v {
                    let t0 = choose|t0: int| 0 <= t0 < m0.len() && m0[t0] as int == l;
                    assert(m@[t0] as int == l);
                } else {
                    assert(vabs(l) == v);
                    if l > 0 {
                        assert(pos);
                        assert(m@[m@.len() - 1] as int == l);
                    } else {
                        assert(neg);
                        assert(!pos);
                        assert(m@[m@.len() - 1] as int == l);
                    }
                }
            }
        }
        v = v + 1;
    }
    m
}

} // verus!
