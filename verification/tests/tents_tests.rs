use satsolver::tents::{Game, SatMaker};

const PUZZLE: &str = "2 2\n.T 1\n.. 0\n1 0\n";

#[test]
fn reads_a_puzzle() {
    let g = Game::new(PUZZLE).expect("reads");
    assert_eq!(g.max_row, 2);
    assert_eq!(g.max_column, 2);
    assert_eq!(g.tents_in_rows, vec![1, 0]);
    assert_eq!(g.tents_in_columns, vec![1, 0]);
    assert_eq!(g.trees.len(), 1);
    assert_eq!(g.trees[0].position, (0, 1));
    let tents: Vec<((usize, usize), usize)> = g.trees[0].tents.iter().map(|t| (t.position, t.number)).collect();
    assert_eq!(tents, vec![((0, 0), 1), ((1, 1), 2)]);
    assert_eq!(g.variables_qty, 2);
    assert_eq!(g.tents_map, vec![vec![1], vec![], vec![], vec![2]]);
    let tokens: Vec<String> = g.content.iter().map(|t| t.iter().collect()).collect();
    assert_eq!(tokens, vec!["2", "2", ".", "T", "1", ".", ".", "0", "1", "0"]);
}

#[test]
fn neighbours_in_order() {
    let g = Game::new("3 3\n... 0\n.T. 1\n... 0\n0 1 0\n").expect("reads");
    assert_eq!(g.get_neighbors((1, 1)), vec![(0, 1), (1, 0), (1, 2), (2, 1)]);
    assert_eq!(g.get_neighbors((0, 0)), vec![(0, 1), (1, 0)]);
    assert!(!g.is_free((1, 1)));
    assert!(g.is_free((0, 0)));
    let tents = g.get_tents((1, 1), 7);
    let numbers: Vec<usize> = tents.iter().map(|t| t.number).collect();
    assert_eq!(numbers, vec![7, 8, 9, 10]);
}

#[test]
fn rejects_bad_puzzles() {
    assert!(Game::new("2").is_none());
    assert!(Game::new("2 x\n").is_none());
    assert!(Game::new("2 2\n.T 1\n").is_none());
    assert!(Game::new("2 2\n.T y\n.. 0\n1 0\n").is_none());
    assert!(Game::new("1 0\n").is_none());
}

#[test]
fn subsets_in_lexicographic_order() {
    assert_eq!(
        SatMaker::n_choose_k(4, 2),
        vec![vec![0, 1], vec![0, 2], vec![0, 3], vec![1, 2], vec![1, 3], vec![2, 3]]
    );
    assert_eq!(SatMaker::n_choose_k(3, 0), vec![Vec::<usize>::new()]);
    assert_eq!(SatMaker::n_choose_k(2, 3), Vec::<Vec<usize>>::new());
    assert_eq!(SatMaker::n_choose_k(5, 3).len(), 10);
}

#[test]
fn encodes_a_puzzle() {
    let sm = SatMaker::new(PUZZLE).expect("encodes");
    let text = String::from_utf8(sm.text()).unwrap();
    assert_eq!(text, "p cnf 2 7\n-1 -2 0\n-1 -2 0\n1 2 0\n 1 0\n-2 0\n 1 0\n-2 0\n");
    assert_eq!(sm.clauses_qty, 7);
    assert_eq!(sm.header, (2, 7));
}

#[test]
fn tree_without_tent_cell_is_refused() {
    // the only tree is surrounded by trees
    assert!(SatMaker::new("1 3\nTTT 0\n0 0 0\n").is_none());
}

#[test]
fn reads_a_solution() {
    let mut sm = SatMaker::new(PUZZLE).expect("encodes");
    let cells = sm.read_solution("s SATISFIABLE\nv 1 -2 0\n").expect("reads");
    assert_eq!(cells, vec![(0, 0)]);
    assert_eq!(sm.truth_values, vec![true, false]);
    let token: String = sm.game.content[2].iter().collect();
    assert_eq!(token, "X");
    assert_eq!(sm.find_unsat_clause(), Some(vec![]));
    assert!(sm.read_solution("v 3 0").is_none());
}

#[test]
fn unsatisfied_clauses_are_found() {
    let mut sm = SatMaker::new(PUZZLE).expect("encodes");
    sm.read_solution("v -1 2 0").expect("reads");
    // with tent 2 alone the unit clauses of the rows and columns fail
    assert_eq!(sm.find_unsat_clause(), Some(vec![3, 4, 5, 6]));
}

#[test]
fn unique_check_adds_a_clause_and_keeps_the_header() {
    let mut sm = SatMaker::new(PUZZLE).expect("encodes");
    sm.read_solution("v 1 -2 0").expect("reads");
    sm.unique_check();
    assert_eq!(sm.clauses_qty, 8);
    assert_eq!(sm.header, (2, 7));
    let text = String::from_utf8(sm.text()).unwrap();
    assert!(text.starts_with("p cnf 2 7\n"));
    assert!(text.ends_with("\n -1 1 0\n"));
}

#[test]
fn counting_automaton_for_a_row() {
    // the second row wants one tent among two cells: an automaton with two
    // state variables, 5 and 6
    let sm = SatMaker::new("2 3\nT.T 1\n... 1\n0 1 1\n").expect("encodes");
    assert_eq!(sm.game.variables_qty, 6);
    let text = String::from_utf8(sm.text()).unwrap();
    assert_eq!(
        text,
        "p cnf 6 18\n-1 -3 0\n-1 -4 0\n-3 -4 0\n-2 -1 0\n-2 -3 0\n-1 -2 0\n1 2 0\n-3 -4 0\n3 4 0\n 1 3 0\n-2 5 0\n2 6 0\n-6 4 0\n-5 -4 0\n-6 -5 0\n-2 0\n 1 3 0\n 4 0\n"
    );
}
