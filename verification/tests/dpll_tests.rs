use satsolver::dpll::DPLL;

fn values(d: &DPLL) -> Vec<usize> {
    d.variables.iter().map(|v| v.value).collect()
}

#[test]
fn builds_clauses_occurrences_and_queue() {
    let d = DPLL::new("c a comment\np cnf 3 2\n1 -2 0\n2 3 0\n").expect("reads");
    assert_eq!(d.variables.len(), 3);
    assert_eq!(d.clauses.len(), 2);
    assert_eq!(d.clauses[0].variables, vec![0, 1]);
    assert_eq!(d.clauses[0].signs, vec![true, false]);
    assert_eq!(d.clauses[0].sat_by, 3);
    assert_eq!(d.clauses[0].free_variables_qty, 2);
    assert_eq!(d.variables[1].pos_occ, vec![1]);
    assert_eq!(d.variables[1].neg_occ, vec![0]);
    assert_eq!(d.variables[0].pos_occ_not_sat_qty, 1);
    assert_eq!(d.variables[0].neg_occ_not_sat_qty, 0);
    // pure literals: variable 0 only positive, variable 2 only positive
    assert_eq!(d.queue, vec![(0, true), (2, true)]);
    assert!(d.backtracking_stack.is_empty());
    assert!(!d.unsat);
    assert!(values(&d).iter().all(|v| *v == 2));
}

#[test]
fn unit_clauses_are_queued_first() {
    let d = DPLL::new("p cnf 2 2\n-2 0\n1 2 0\n").expect("reads");
    assert_eq!(d.queue[0], (1, false));
}

#[test]
fn repeated_literal_is_kept_once() {
    let d = DPLL::new("p cnf 2 1\n1 1 2 0\n").expect("reads");
    assert_eq!(d.clauses[0].variables, vec![0, 1]);
    assert_eq!(d.variables[0].pos_occ, vec![0]);
}

#[test]
fn tautology_is_dropped() {
    let d = DPLL::new("p cnf 2 1\n1 -1 2 0\n").expect("reads");
    assert_eq!(d.clauses.len(), 0);
    assert!(d.variables[0].pos_occ.is_empty());
    assert!(d.variables[1].pos_occ.is_empty());
    assert_eq!(d.variables[1].pos_occ_not_sat_qty, 0);
}

#[test]
fn tautology_ends_the_reading_of_its_line() {
    // the word after the tautology is never read
    assert!(DPLL::new("p cnf 1 1\n1 -1 x 0\n").is_some());
    assert!(DPLL::new("p cnf 1 1\nx 1 0\n").is_none());
}

#[test]
fn rejects_bad_input() {
    assert!(DPLL::new("p cnf 1 1\n2 0\n").is_none());
    assert!(DPLL::new("p cnf 1 1\n0 1 0\n").is_none());
    assert!(DPLL::new("p cnf\n").is_none());
    assert!(DPLL::new("p cnf x 1\n").is_none());
}

#[test]
fn solves_and_validates() {
    let mut d = DPLL::new("p cnf 3 3\n1 -2 0\n2 3 0\n-1 -3 0\n").expect("reads");
    d.dpll().expect("no halt");
    assert!(!d.unsat);
    assert!(d.validate());
    let v = values(&d);
    let lit = |x: i32| if x > 0 { v[(x - 1) as usize] == 1 } else { v[(-x - 1) as usize] == 0 };
    assert!(lit(1) || lit(-2));
    assert!(lit(2) || lit(3));
    assert!(lit(-1) || lit(-3));
}

#[test]
fn detects_unsatisfiable_units() {
    let mut d = DPLL::new("p cnf 1 2\n1 0\n-1 0\n").expect("reads");
    d.dpll().expect("no halt");
    assert!(d.unsat);
}

#[test]
fn pure_literal_found_during_search() {
    // satisfying -1 ∨ 3 by 3 leaves 1 only positive: it is queued and set true
    let mut d = DPLL::new("p cnf 3 2\n1 2 0\n-1 3 0\n").expect("reads");
    d.dpll().expect("no halt");
    assert!(!d.unsat);
    assert!(d.validate());
    assert_eq!(values(&d), vec![1, 1, 1]);
}

#[test]
fn validate_fails_on_fresh_state() {
    let d = DPLL::new("p cnf 1 1\n1 0\n").expect("reads");
    assert!(!d.validate());
}

#[test]
fn unused_variable_queues_both_literals() {
    // a variable in no clause is pure both ways; the two queued literals
    // clash and the search declares the formula unsatisfiable
    let mut d = DPLL::new("p cnf 1 0\n").expect("reads");
    assert_eq!(d.queue, vec![(0, false), (0, true)]);
    d.dpll().expect("no halt");
    assert!(d.unsat);
}
