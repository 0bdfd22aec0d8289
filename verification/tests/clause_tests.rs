use sat_solver::bits::count_word;
use sat_solver::bits::lowest_bit;
use sat_solver::bitvec::BitVec;
use sat_solver::clause::Clause;

fn clause_of(vars: usize, lits: &[isize]) -> Clause {
    let mut c = Clause::new(vars);
    for &l in lits {
        c.set_literal(l);
    }
    c
}

#[test]
fn count_word_counts_bits() {
    assert_eq!(count_word(0), 0);
    assert_eq!(count_word(1), 1);
    assert_eq!(count_word(0b1011_0110), 5);
    assert_eq!(count_word(u64::MAX), 64);
}

#[test]
fn lowest_bit_finds_first() {
    assert_eq!(lowest_bit(1), 0);
    assert_eq!(lowest_bit(0b1010_0000), 5);
    assert_eq!(lowest_bit(1u64 << 63), 63);
}

#[test]
fn bitvec_set_read_unset() {
    let mut b = BitVec::new(3);
    assert!(!b.read_bit(70));
    b.set_bit(70);
    assert!(b.read_bit(70));
    assert!(!b.read_bit(69));
    assert_eq!(b.ones(), 1);
    b.unset_bit(70);
    assert!(!b.read_bit(70));
    assert_eq!(b.ones(), 0);
}

#[test]
fn bitvec_union_and_difference() {
    let mut a = BitVec::new(2);
    let mut b = BitVec::new(2);
    a.set_bit(3);
    a.set_bit(64);
    b.set_bit(64);
    b.set_bit(100);
    a.or_in(&b);
    assert!(a.read_bit(3) && a.read_bit(64) && a.read_bit(100));
    a.diff_in(&b);
    assert!(a.read_bit(3) && !a.read_bit(64) && !a.read_bit(100));
}

#[test]
fn bitvec_subset_and_disjoint() {
    let mut a = BitVec::new(2);
    let mut b = BitVec::new(2);
    a.set_bit(10);
    b.set_bit(10);
    b.set_bit(90);
    assert!(a.subset_of(&b));
    assert!(!b.subset_of(&a));
    let mut c = BitVec::new(2);
    c.set_bit(17);
    assert!(a.disjoint(&c));
    assert!(!a.disjoint(&b));
}

#[test]
fn set_then_unset_restores_the_clause() {
    let mut c = clause_of(90, &[1, -5, 88]);
    let before = c.iter_literals();
    assert!(!c.read_literal(70));
    c.set_literal(70);
    assert!(c.read_literal(70));
    c.unset_literal(70);
    let after = c.iter_literals();
    assert_eq!(before, after);
}

#[test]
fn flip_polarity_twice_is_identity() {
    let mut c = clause_of(70, &[2, -3, 69]);
    let before = c.iter_literals();
    c.flip_polarity();
    assert_eq!(c.iter_literals(), vec![3, -2, -69]);
    c.flip_polarity();
    assert_eq!(c.iter_literals(), before);
}

#[test]
fn every_clause_contains_itself_and_avoids_the_empty_one() {
    let c = clause_of(40, &[7, -9, 33]);
    let empty = Clause::new(40);
    assert!(c.subset_of(&c));
    assert!(c.disjoint(&empty));
    assert!(empty.subset_of(&c));
}

#[test]
fn iter_literals_is_ascending_and_exact() {
    let c = clause_of(150, &[-2, 149, 3, -130, 70]);
    let lits = c.iter_literals();
    assert_eq!(lits, vec![3, 70, 149, -2, -130]);
    // each exactly once
    for (i, a) in lits.iter().enumerate() {
        for (j, b) in lits.iter().enumerate() {
            if i != j {
                assert_ne!(a, b);
            }
        }
    }
}

#[test]
fn cardinality_counts_literals() {
    let c = clause_of(100, &[1, -1, 64, -65]);
    assert_eq!(c.len(), 4);
    assert_eq!(Clause::new(100).len(), 0);
}

#[test]
fn tautology_needs_both_polarities() {
    let c = clause_of(12, &[4, -4]);
    assert!(c.tautologous());
    assert!(!c.disjoint_switched_self());
    let d = clause_of(12, &[4, -5]);
    assert!(!d.tautologous());
    assert!(d.disjoint_switched_self());
}

#[test]
fn difference_switched_self_keeps_pure_sides() {
    let mut c = clause_of(20, &[3, -3, 7, -11]);
    c.difference_switched_self();
    assert_eq!(c.iter_literals(), vec![7, -11]);
}

#[test]
fn union_and_difference_on_clauses() {
    let mut a = clause_of(30, &[1, -2]);
    let b = clause_of(30, &[-2, 25]);
    a.union_in(&b);
    assert_eq!(a.iter_literals(), vec![1, 25, -2]);
    a.difference_in(&b);
    assert_eq!(a.iter_literals(), vec![1]);
}

#[test]
fn symmetry_in_flags_the_droppable_literal() {
    // {1} and {-1, 2}: the first exceeds the second by the literal 1
    // alone, and the second carries its complement, which it may drop
    let c = clause_of(5, &[1]);
    let d = clause_of(5, &[-1, 2]);
    assert_eq!(c.symmetry_in(&d), Some(-1));
    // equal clauses differ by nothing
    assert_eq!(c.symmetry_in(&c), None);
    // a two-literal difference yields nothing
    let e = clause_of(5, &[3, 4]);
    assert_eq!(e.symmetry_in(&d), None);
    // the complement must stand in the other clause
    let f = clause_of(5, &[2, 3]);
    let g = clause_of(5, &[2]);
    assert_eq!(f.symmetry_in(&g), None);
}

#[test]
fn variables_footprint_covers_both_polarities() {
    let c = clause_of(10, &[2, -7]);
    let fp = c.variables();
    assert!(fp.read_bit(1));
    assert!(fp.read_bit(6));
    assert!(!fp.read_bit(3));
    let d = clause_of(10, &[7]);
    assert!(d.has_variables(&fp));
    let e = clause_of(10, &[5]);
    assert!(!e.has_variables(&fp));
    let mut fp2 = e.variables();
    c.enrich_variables(&mut fp2);
    assert!(fp2.read_bit(1) && fp2.read_bit(4) && fp2.read_bit(6));
}
