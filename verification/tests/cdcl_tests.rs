use satsolver::cdcl::heuristics::{set_restart_criterium, update_r};
use satsolver::cdcl::preprocess::{delete_variable, preprocessing1, preprocessing2};
use satsolver::cdcl::search::clause_learning;
use satsolver::cdcl::literals::{get_rest, intersection, remove_duplicate_vars, resolvent_candidates, subsumption};
use satsolver::cdcl::solver::{init, CdclSolver, Outcome};
use satsolver::cdcl::types::get_resolvent;
use satsolver::cdcl::{Clause, Variable};
use satsolver::dimacs::parse_dimacs;

fn clause(vars: Vec<usize>, signs: Vec<bool>) -> Clause {
    Clause { variables: vars, signs, watched: [0, 0], learned: false }
}

fn run(text: &str) -> (Outcome, Vec<i32>) {
    let items = parse_dimacs(text, 1, false).expect("text reads");
    let (clauses, variables): (Vec<Clause>, Vec<Variable>) = init(&items).expect("clauses read");
    let mut solver = CdclSolver::prepare(clauses, variables, &|| false).expect("prepared");
    loop {
        match solver.step().expect("no halt") {
            Outcome::Running => continue,
            o => return (o, solver.model()),
        }
    }
}

fn satisfies(model: &Vec<i32>, clauses: &[&[i32]]) -> bool {
    clauses.iter().all(|c| c.iter().any(|l| model.contains(l)))
}

#[test]
fn luby_intervals() {
    let expected = [32usize, 32, 64, 32, 32, 64, 128, 32, 32, 64, 32, 32, 64, 128, 256];
    for (k, e) in expected.iter().enumerate() {
        let mut c: usize = 0;
        set_restart_criterium(&mut c, k);
        assert_eq!(c, *e, "restart {}", k);
    }
}

#[test]
fn subsumption_cases() {
    assert_eq!(subsumption(&vec![1, -2], &vec![-2, 3, 1]), 1);
    assert_eq!(subsumption(&vec![1, -2, 4], &vec![4, 1]), 2);
    assert_eq!(subsumption(&vec![1, 2], &vec![1, 3]), 0);
    assert_eq!(subsumption(&vec![5], &vec![5]), 1);
}

#[test]
fn rest_and_intersection() {
    assert_eq!(get_rest(&vec![3, -1, 4, -1], -1), vec![3, 4]);
    assert!(intersection(&vec![1, 5, 9], &vec![2, 9]));
    assert!(!intersection(&vec![1, 5], &vec![2, 6]));
}

#[test]
fn duplicates_and_tautologies() {
    let mut c = vec![3, -1, 3, 2, -1];
    assert!(remove_duplicate_vars(&mut c));
    assert_eq!(c, vec![-1, 2, 3]);
    let mut t = vec![2, -3, 3];
    assert!(!remove_duplicate_vars(&mut t));
    assert_eq!(t, vec![-3, 2, 3]);
}

#[test]
fn resolvent_candidate_positions() {
    // resolving on 1 leaves the same rest on both sides
    assert_eq!(resolvent_candidates(&vec![1, 2], &vec![-1, 2]), (1, 0));
    // the rest of the second clause is smaller
    assert_eq!(resolvent_candidates(&vec![1, 2, 3], &vec![-1, 2]), (1, 2));
    // the rest of the first clause is smaller
    assert_eq!(resolvent_candidates(&vec![1, 2], &vec![-1, 2, 3]), (-1, 1));
    // nothing to resolve on
    assert_eq!(resolvent_candidates(&vec![1], &vec![2]), (0, 3));
}

#[test]
fn resolvent_of_two_clauses() {
    // (x1 ∨ ¬x2 ∨ x3) and (x2 ∨ x3 ∨ ¬x4) on x2: x1 ∨ x3 ∨ ¬x4
    let c1 = clause(vec![1, 2, 3], vec![true, false, true]);
    let c2 = clause(vec![2, 3, 4], vec![true, true, false]);
    let r = get_resolvent(&c1, &c2, 2);
    assert_eq!(r.variables, vec![1, 3, 4]);
    assert_eq!(r.signs, vec![true, true, false]);
    assert!(!r.learned);
}

#[test]
fn resolution_keeps_satisfying_assignments() {
    let c1 = clause(vec![1, 2], vec![true, true]);
    let c2 = clause(vec![2, 3], vec![false, true]);
    let r = get_resolvent(&c1, &c2, 2);
    for bits in 0..16u32 {
        let a: Vec<bool> = (0..4).map(|i| bits >> i & 1 == 1).collect();
        let sat = |c: &Clause| c.variables.iter().zip(c.signs.iter()).any(|(v, s)| a[*v] == *s);
        if sat(&c1) && sat(&c2) {
            assert!(sat(&r));
        }
    }
}

#[test]
fn solves_small_satisfiable_formula() {
    let text = "c example\np cnf 3 3\n1 -2 0\n2 3 0\n-1 -3 0\n";
    let (o, model) = run(text);
    assert_eq!(o, Outcome::Satisfiable);
    assert_eq!(model.len(), 3);
    assert!(satisfies(&model, &[&[1, -2], &[2, 3], &[-1, -3]]));
}

#[test]
fn reports_unsatisfiable_formula() {
    let text = "p cnf 2 4\n1 2 0\n-1 2 0\n1 -2 0\n-1 -2 0\n";
    let (o, _) = run(text);
    assert_eq!(o, Outcome::Unsatisfiable);
}

#[test]
fn unit_contradiction_is_unsatisfiable() {
    let (o, _) = run("p cnf 1 2\n1 0\n-1 0\n");
    assert_eq!(o, Outcome::Unsatisfiable);
}

#[test]
fn init_rejects_literal_out_of_range() {
    let items = parse_dimacs("p cnf 2 1\n1 3 0\n", 1, false).unwrap();
    assert!(init(&items).is_none());
}

#[test]
fn pigeonhole_three_in_two_is_unsatisfiable() {
    // pigeons i in 0..3, holes j in 0..2: variable 2*i + j + 1
    let mut text = String::from("p cnf 6 9\n");
    for i in 0..3 {
        text.push_str(&format!("{} {} 0\n", 2 * i + 1, 2 * i + 2));
    }
    for j in 0..2 {
        for a in 0..3 {
            for b in a + 1..3 {
                text.push_str(&format!("-{} -{} 0\n", 2 * a + j + 1, 2 * b + j + 1));
            }
        }
    }
    let (o, _) = run(&text);
    assert_eq!(o, Outcome::Unsatisfiable);
}

fn database(text: &str) -> (Vec<Clause>, Vec<Variable>) {
    let items = parse_dimacs(text, 1, false).expect("text reads");
    init(&items).expect("clauses read")
}

#[test]
fn activity_bump_counts_each_literal() {
    let (clauses, mut variables) = database("p cnf 2 1\n1 -2 0\n");
    assert!(update_r(&clauses, &mut variables, 0));
    assert_eq!(variables[1].r, [1, 0]);
    assert_eq!(variables[2].r, [0, 1]);
}

#[test]
fn activity_bump_reports_overflow() {
    let (clauses, mut variables) = database("p cnf 2 1\n1 -2 0\n");
    variables[2].r = [0, usize::MAX];
    assert!(!update_r(&clauses, &mut variables, 0));
}

#[test]
fn deleting_a_variable_from_a_clause() {
    let (mut clauses, mut variables) = database("p cnf 3 1\n1 2 3 0\n");
    assert_eq!(delete_variable(&mut clauses, &mut variables, 0, 2), Ok(true));
    assert_eq!(clauses[0].variables, vec![1, 3]);
    assert_eq!(clauses[0].signs, vec![true, true]);
}

#[test]
fn deleting_an_absent_variable_fails() {
    let (mut clauses, mut variables) = database("p cnf 3 1\n1 2 0\n");
    assert!(delete_variable(&mut clauses, &mut variables, 0, 3).is_err());
}

#[test]
fn unit_clause_keeps_its_literal() {
    let (mut clauses, mut variables) = database("p cnf 2 1\n2 0\n");
    assert_eq!(delete_variable(&mut clauses, &mut variables, 0, 2), Ok(false));
    assert_eq!(clauses[0].variables, vec![2]);
}

#[test]
fn learning_a_clause_appends_it() {
    let (mut clauses, mut variables) = database("p cnf 3 1\n1 2 0\n");
    let mut deleted: Vec<usize> = Vec::new();
    let learned = clause(vec![2, 3], vec![false, true]);
    assert_eq!(clause_learning(&mut clauses, &mut deleted, &mut variables, &learned, 2, 3), Ok(1));
    assert_eq!(clauses.len(), 2);
    assert!(clauses[1].learned);
    assert_eq!(clauses[1].watched, [2, 3]);
}

#[test]
fn learning_needs_the_watched_variables() {
    let (mut clauses, mut variables) = database("p cnf 3 1\n1 2 0\n");
    let mut deleted: Vec<usize> = Vec::new();
    let learned = clause(vec![2, 3], vec![false, true]);
    assert!(clause_learning(&mut clauses, &mut deleted, &mut variables, &learned, 1, 3).is_err());
}

#[test]
fn init_watches_the_first_two_variables() {
    let (clauses, variables) = database("p cnf 3 2\n1 -2 3 0\n2 0\n");
    // the literals are kept in increasing order: -2, 1, 3
    assert_eq!(clauses[0].variables, vec![2, 1, 3]);
    assert_eq!(clauses[0].watched, [2, 1]);
    assert_eq!(variables[1].pos_watched_occ, vec![0]);
    assert_eq!(variables[2].neg_watched_occ, vec![0]);
    assert!(variables[3].pos_watched_occ.is_empty());
}

#[test]
fn deleting_from_a_binary_clause_leaves_both_watch_lists() {
    let (mut clauses, mut variables) = database("p cnf 2 1\n1 2 0\n");
    assert_eq!(delete_variable(&mut clauses, &mut variables, 0, 2), Ok(true));
    assert_eq!(clauses[0].variables, vec![1]);
    assert!(variables[1].pos_watched_occ.is_empty());
    assert!(variables[2].pos_watched_occ.is_empty());
}

#[test]
fn deleting_a_watched_variable_moves_the_watch() {
    let (mut clauses, mut variables) = database("p cnf 3 1\n1 2 3 0\n");
    assert_eq!(delete_variable(&mut clauses, &mut variables, 0, 1), Ok(true));
    assert_eq!(clauses[0].watched, [3, 2]);
    assert_eq!(clauses[0].variables, vec![2, 3]);
    assert!(variables[1].pos_watched_occ.is_empty());
    assert_eq!(variables[2].pos_watched_occ, vec![0]);
    assert_eq!(variables[3].pos_watched_occ, vec![0]);
}

#[test]
fn simplification_finds_a_contradiction() {
    let (mut clauses, mut variables) = database("p cnf 1 2\n1 0\n-1 0\n");
    let mut deleted: Vec<usize> = Vec::new();
    let mut rules: Vec<(usize, usize, bool)> = Vec::new();
    let r = preprocessing1(&mut clauses, &mut deleted, &mut variables, &mut rules, &|| false);
    assert_eq!(r, Ok(false));
    assert_eq!(deleted, vec![1]);
    assert!(rules.is_empty());
}

#[test]
fn simplification_substitutes_an_equivalence() {
    let (mut clauses, mut variables) = database("p cnf 2 2\n1 2 0\n-1 -2 0\n");
    let mut deleted: Vec<usize> = Vec::new();
    let mut rules: Vec<(usize, usize, bool)> = Vec::new();
    let r = preprocessing1(&mut clauses, &mut deleted, &mut variables, &mut rules, &|| false);
    assert_eq!(r, Ok(true));
    assert_eq!(deleted, vec![0, 1]);
    assert_eq!(rules, vec![(1, 2, false)]);
    assert!(variables[1].pos_watched_occ.is_empty() && variables[1].neg_watched_occ.is_empty());
    assert!(variables[2].pos_watched_occ.is_empty() && variables[2].neg_watched_occ.is_empty());
}

#[test]
fn propagation_at_level_zero_finds_a_contradiction() {
    let (mut clauses, mut variables) = database("p cnf 1 2\n1 0\n-1 0\n");
    let mut deleted: Vec<usize> = Vec::new();
    let mut queue: Vec<(usize, usize, bool)> = Vec::new();
    assert_eq!(preprocessing2(&mut clauses, &mut deleted, &mut variables, &mut queue), Ok(false));
    assert_eq!(variables[1].value, 1);
}
