use sat_solver::arena::PoolAlloc;
use sat_solver::arena::StacklikeAlloc;
use sat_solver::clause::Clause;
use sat_solver::clause_set::ClauseSet;
use sat_solver::problem::Problem;
use sat_solver::utils::Ascent;
use sat_solver::utils::Descent;

fn clause_of(vars: usize, lits: &[isize]) -> Clause {
    let mut c = Clause::new(vars);
    for &l in lits {
        c.set_literal(l);
    }
    c
}

fn cards(s: &ClauseSet) -> Vec<usize> {
    let mut out = Vec::new();
    let mut i = 0;
    while i < s.len() {
        out.push(s.card_at(i));
        i += 1;
    }
    out
}

#[test]
fn descend_moves_a_shrunk_clause_into_place() {
    let mut s = ClauseSet::new();
    s.push(clause_of(9, &[1]));
    s.push(clause_of(9, &[2, 3]));
    s.push(clause_of(9, &[4, 5, 6]));
    s.push(clause_of(9, &[7, 8]));
    // index 3 is out of place in the sorted prefix [0, 3)
    let idx = s.descend(3);
    assert_eq!(idx, 2);
    assert_eq!(cards(&s), vec![1, 2, 2, 3]);
}

#[test]
fn ascend_moves_a_grown_clause_into_place() {
    let mut s = ClauseSet::new();
    s.push(clause_of(9, &[1, 2, 3]));
    s.push(clause_of(9, &[4]));
    s.push(clause_of(9, &[5, 6]));
    s.push(clause_of(9, &[7, 8, 9]));
    // index 0 is out of place in the sorted suffix [1, 4)
    let idx = s.ascend(0);
    assert_eq!(idx, 2);
    assert_eq!(cards(&s), vec![1, 2, 3, 3]);
}

#[test]
fn prepare_sorts_and_removes_tautologies() {
    let mut p = Problem::new(6);
    p.add_clause(&vec![1, 2, 3]);
    p.add_clause(&vec![4, -4, 5]);
    p.add_clause(&vec![6]);
    p.prepare();
    // the tautology is gone, the rest ascend by cardinality
    assert_eq!(p.clause_count(), 2);
    assert_eq!(p.clauses.card_at(0), 1);
    assert_eq!(p.clauses.card_at(1), 3);
}

#[test]
fn prepare_applies_subsumption() {
    let mut p = Problem::new(5);
    p.add_clause(&vec![1, 2, 3]);
    p.add_clause(&vec![1, 2]);
    p.add_clause(&vec![4, 5]);
    p.prepare();
    // {1,2} subsumes {1,2,3}
    assert_eq!(p.clause_count(), 2);
    assert_eq!(p.clauses.card_at(0), 2);
    assert_eq!(p.clauses.card_at(1), 2);
}

#[test]
fn prepare_applies_self_subsumption() {
    let mut p = Problem::new(3);
    p.add_clause(&vec![1]);
    p.add_clause(&vec![-1, 2]);
    p.prepare();
    // {-1, 2} sheds its bad literal against {1}
    assert_eq!(p.clause_count(), 2);
    assert_eq!(p.clauses.card_at(0), 1);
    assert_eq!(p.clauses.card_at(1), 1);
    assert!(p.clauses.get(1).read_literal(2));
    assert!(!p.clauses.get(1).read_literal(-1));
}

#[test]
fn kernelize_eliminates_pure_literals() {
    let mut p = Problem::new(4);
    p.add_clause(&vec![1, 2]);
    p.add_clause(&vec![1, -2]);
    p.prepare();
    p.kernelize();
    // 1 is pure: both clauses go, and the polarity lands in deduced
    assert_eq!(p.clause_count(), 0);
    assert!(p.deduced.read_literal(1));
    assert!(!p.deduced.read_literal(-1));
}

#[test]
fn remove_long_clauses_trims_the_tail() {
    let mut p = Problem::new(6);
    p.add_clause(&vec![6]);
    p.add_clause(&vec![5]);
    p.add_clause(&vec![1, 2]);
    p.add_clause(&vec![-1, -2, 3, 4]);
    p.prepare();
    p.remove_long_clauses();
    // with four clauses the one of cardinality four goes; the rest
    // stay below the shrunken threshold
    assert_eq!(p.clause_count(), 3);
    assert_eq!(p.clauses.card_at(0), 1);
    assert_eq!(p.clauses.card_at(1), 1);
    assert_eq!(p.clauses.card_at(2), 2);
}

#[test]
fn resolve_commits_a_literal_and_purges_its_variable() {
    let mut p = Problem::new(4);
    p.add_clause(&vec![1, 2]);
    p.add_clause(&vec![-1, 3]);
    p.add_clause(&vec![3, 4]);
    p.prepare();
    p.resolve(1);
    assert!(p.guessed.read_literal(1));
    let mut i = 0;
    while i < p.clause_count() {
        assert!(!p.clauses.get(i).read_literal(1));
        assert!(!p.clauses.get(i).read_literal(-1));
        i += 1;
    }
}

#[test]
fn pool_alloc_recycles_blocks() {
    let mut pool = PoolAlloc::from(16, 8, 3).unwrap();
    assert!(PoolAlloc::from(16, 64, 3).is_none());
    // a mismatched layout is refused
    assert!(pool.allocate(8, 8).is_none());
    let a = pool.allocate(16, 8).unwrap();
    let b = pool.allocate(16, 8).unwrap();
    let c = pool.allocate(16, 8).unwrap();
    assert!(pool.allocate(16, 8).is_none());
    assert_ne!(a, b);
    assert_ne!(b, c);
    pool.deallocate(b);
    assert_eq!(pool.allocate(16, 8), Some(b));
}

#[test]
fn stacklike_alloc_bumps_and_rewinds() {
    let mut arena = StacklikeAlloc::new(1024, 16);
    let a = arena.allocate(10, 4).unwrap();
    assert_eq!(a, 0);
    let b = arena.allocate(20, 8).unwrap();
    assert_eq!(b % 8, 0);
    assert!(b >= 10);
    // an over-aligned request is refused
    assert!(arena.allocate(8, 64).is_none());
    // freeing the top block rewinds the offset
    arena.deallocate(b + 20);
    let c = arena.allocate(20, 8).unwrap();
    assert_eq!(c, b);
}

#[test]
fn stacklike_alloc_rewinds_out_of_order_frees() {
    let mut arena = StacklikeAlloc::new(256, 16);
    let a = arena.allocate(8, 4).unwrap();
    let b = arena.allocate(8, 4).unwrap();
    // freeing the lower block first leaves the offset alone; freeing
    // the top one then rewinds past both
    arena.deallocate(a + 8);
    arena.deallocate(b + 8);
    let c = arena.allocate(8, 4).unwrap();
    assert_eq!(c, a);
}

#[test]
fn out_of_space_is_reported() {
    let mut arena = StacklikeAlloc::new(16, 8);
    assert!(arena.allocate(32, 1).is_none());
    let _ = arena.allocate(16, 1).unwrap();
    assert!(arena.allocate(1, 1).is_none());
}
