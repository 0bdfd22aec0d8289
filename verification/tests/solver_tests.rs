use sat_solver::solver::Solution;
use sat_solver::solver::Solver;
use sat_solver::solver::SolverError;

/// Evaluates a clause list under a model, reading absent variables as
/// false.
fn model_satisfies(clauses: &[Vec<isize>], model: &[isize]) -> bool {
    clauses.iter().all(|clause| {
        clause.iter().any(|&l| {
            if l > 0 {
                model.contains(&l)
            } else {
                !model.contains(&(-l))
            }
        })
    })
}

fn run_solver(vars: usize, clauses: &[Vec<isize>]) -> Solution {
    let mut solver = Solver::new(vars, clauses.len());
    for c in clauses {
        let r = solver.add_clause(c.clone());
        assert!(matches!(r, Ok(())));
    }
    solver.solve().unwrap()
}

#[test]
fn single_positive_unit_is_sat() {
    let clauses = vec![vec![1]];
    match run_solver(1, &clauses) {
        Solution::Satisfiable(m) => {
            assert_eq!(m, vec![1]);
            assert!(model_satisfies(&clauses, &m));
        }
        Solution::Unsatisfiable => panic!("expected a model"),
    }
}

#[test]
fn contradictory_units_are_unsat() {
    let clauses = vec![vec![1], vec![-1]];
    assert!(matches!(run_solver(1, &clauses), Solution::Unsatisfiable));
}

#[test]
fn three_variable_chain_is_sat() {
    let clauses = vec![vec![1, 2, 3], vec![-1, 2], vec![-2, 3]];
    match run_solver(3, &clauses) {
        Solution::Satisfiable(m) => {
            assert!(model_satisfies(&clauses, &m));
        }
        Solution::Unsatisfiable => panic!("expected a model"),
    }
}

#[test]
fn all_polarity_combinations_are_unsat() {
    let mut clauses = Vec::new();
    for mask in 0..8u32 {
        let mut c = Vec::new();
        for v in 1..=3isize {
            if mask & (1 << (v - 1)) != 0 {
                c.push(v);
            } else {
                c.push(-v);
            }
        }
        clauses.push(c);
    }
    assert!(matches!(run_solver(3, &clauses), Solution::Unsatisfiable));
}

#[test]
fn two_components_are_sat() {
    let clauses = vec![vec![1, 2], vec![-1, 2], vec![3, 4], vec![-3, -4]];
    match run_solver(4, &clauses) {
        Solution::Satisfiable(m) => {
            assert!(model_satisfies(&clauses, &m));
        }
        Solution::Unsatisfiable => panic!("expected a model"),
    }
}

#[test]
fn pigeonhole_three_into_two_is_unsat() {
    // variables: pigeon i in hole h is 2*(i-1) + h, for i in 1..=3, h in 1..=2
    let var = |i: isize, h: isize| 2 * (i - 1) + h;
    let mut clauses = Vec::new();
    for i in 1..=3 {
        clauses.push(vec![var(i, 1), var(i, 2)]);
    }
    for h in 1..=2 {
        for i in 1..=3 {
            for j in (i + 1)..=3 {
                clauses.push(vec![-var(i, h), -var(j, h)]);
            }
        }
    }
    assert!(matches!(run_solver(6, &clauses), Solution::Unsatisfiable));
}

#[test]
fn model_is_ascending_by_variable() {
    let clauses = vec![vec![5], vec![1], vec![-3]];
    match run_solver(5, &clauses) {
        Solution::Satisfiable(m) => {
            assert!(model_satisfies(&clauses, &m));
            for w in m.windows(2) {
                assert!(w[0].abs() < w[1].abs());
            }
        }
        Solution::Unsatisfiable => panic!("expected a model"),
    }
}

#[test]
fn zero_literal_is_rejected() {
    let mut solver = Solver::new(3, 2);
    let r = solver.add_clause(vec![1, 0, 2]);
    assert!(matches!(r, Err(SolverError::VariableIsZero)));
}

#[test]
fn oversized_literal_is_rejected() {
    let mut solver = Solver::new(3, 2);
    let r = solver.add_clause(vec![1, 4]);
    assert!(matches!(r, Err(SolverError::VariableTooLarge(4))));
    let r2 = solver.add_clause(vec![-7]);
    assert!(matches!(r2, Err(SolverError::VariableTooLarge(-7))));
}

#[test]
fn extra_clause_is_rejected() {
    let mut solver = Solver::new(2, 1);
    assert!(matches!(solver.add_clause(vec![1]), Ok(())));
    let r = solver.add_clause(vec![2]);
    assert!(matches!(r, Err(SolverError::TooManyClauses)));
}

#[test]
fn early_solve_is_rejected() {
    let mut solver = Solver::new(2, 2);
    assert!(matches!(solver.add_clause(vec![1]), Ok(())));
    let r = solver.solve();
    assert!(matches!(r, Err(SolverError::TooFewClauses)));
}

#[test]
fn verdict_is_cached() {
    let mut solver = Solver::new(1, 2);
    assert!(matches!(solver.add_clause(vec![1]), Ok(())));
    assert!(matches!(solver.add_clause(vec![-1]), Ok(())));
    assert!(matches!(solver.solve(), Ok(Solution::Unsatisfiable)));
    // a second call answers from the cache
    assert!(matches!(solver.solve(), Ok(Solution::Unsatisfiable)));
    assert!(!solver.need_to_add());
}

/// Exhaustive check over all assignments, as the reference decision.
fn brute_force_sat(vars: usize, clauses: &[Vec<isize>]) -> bool {
    for mask in 0..(1u32 << vars) {
        let holds = clauses.iter().all(|clause| {
            clause.iter().any(|&l| {
                let v = l.unsigned_abs() - 1;
                let bit = mask & (1 << v) != 0;
                if l > 0 {
                    bit
                } else {
                    !bit
                }
            })
        });
        if holds {
            return true;
        }
    }
    false
}

#[test]
fn random_three_cnf_agrees_with_brute_force() {
    let mut state: u64 = 0x2545_F491_4F6C_DD1D;
    let mut next = move || {
        state ^= state << 13;
        state ^= state >> 7;
        state ^= state << 17;
        state
    };
    let vars = 6usize;
    for round in 0..12 {
        // around the hard ratio: 4 to 5 clauses per variable
        let n_clauses = 24 + (round % 7);
        let mut clauses = Vec::new();
        for _ in 0..n_clauses {
            let mut c = Vec::new();
            while c.len() < 3 {
                let v = (next() % vars as u64) as isize + 1;
                let lit = if next() % 2 == 0 { v } else { -v };
                if !c.contains(&lit) && !c.contains(&(-lit)) {
                    c.push(lit);
                }
            }
            clauses.push(c);
        }
        let expected = brute_force_sat(vars, &clauses);
        match run_solver(vars, &clauses) {
            Solution::Satisfiable(m) => {
                assert!(expected, "solver claimed satisfiable, reference disagrees");
                assert!(model_satisfies(&clauses, &m));
            }
            Solution::Unsatisfiable => {
                assert!(!expected, "solver claimed unsatisfiable, reference disagrees");
            }
        }
    }
}
