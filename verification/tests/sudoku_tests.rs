use satsolver::sodoku::{
    cnf_only_one_number, convert_to_true, encode_sudoku, index_to_number, no_dublicate_block,
    no_dublicate_col, no_dublicate_row, only_one_number, puzzle_clauses, render_grid,
    sudoku_rules_clauses,
};

fn pos(xs: &[i128]) -> Vec<(bool, i128)> {
    xs.iter().map(|x| (false, *x)).collect()
}

#[test]
fn variable_numbers() {
    assert_eq!(index_to_number(0, 0, 0), 1);
    assert_eq!(index_to_number(1, 2, 3), 103);
    assert_eq!(index_to_number(8, 8, 8), 729);
}

#[test]
fn exactly_one_clauses_of_a_cell() {
    let cs = cnf_only_one_number(0, 0);
    assert_eq!(cs.len(), 503);
    assert_eq!(cs[0], pos(&[1, 2, 3, 4, 5, 6, 7, 8, 9]));
    // mask 3 = 000000011: the last two digits negated
    assert_eq!(cs[1], vec![(false, 1), (false, 2), (false, 3), (false, 4), (false, 5), (false, 6), (false, 7), (true, 8), (true, 9)]);
    assert_eq!(cs[502], (1..=9).map(|x| (true, x)).collect::<Vec<_>>());
}

#[test]
fn exactly_one_means_exactly_one() {
    let cs = cnf_only_one_number(2, 5);
    let base = index_to_number(2, 5, 0) as i128;
    for bits in 0..512u32 {
        let val = |x: i128| bits >> (x - base) & 1 == 1;
        let all = cs.iter().all(|c| c.iter().any(|(neg, x)| val(*x) != *neg));
        assert_eq!(all, bits.count_ones() == 1, "assignment {:09b}", bits);
    }
}

#[test]
fn one_number_clauses() {
    let cs = only_one_number(0, 1);
    assert_eq!(cs.len(), 9);
    assert_eq!(cs[0][0], (false, 10));
    assert_eq!(cs[0][1], (true, 11));
    assert_eq!(cs[4][4], (false, 14));
}

#[test]
fn row_col_block_clauses() {
    let r = no_dublicate_row(0);
    assert_eq!(r.len(), 9);
    assert_eq!(r[0], pos(&[1, 10, 19, 28, 37, 46, 55, 64, 73]));
    let c = no_dublicate_col(0);
    assert_eq!(c[0], pos(&[1, 82, 163, 244, 325, 406, 487, 568, 649]));
    let b = no_dublicate_block(0, 0);
    assert_eq!(b[0], pos(&[1, 10, 19, 82, 91, 100, 163, 172, 181]));
    let b2 = no_dublicate_block(1, 2);
    assert_eq!(b2[8][0], (false, index_to_number(3, 6, 8) as i128));
}

#[test]
fn rules_count() {
    assert_eq!(sudoku_rules_clauses().len(), 9 * (9 * 503 + 9 + 9) + 81);
}

#[test]
fn clues_of_a_puzzle() {
    let cs = puzzle_clauses("5.\r\n.3\n").expect("reads");
    assert_eq!(cs, vec![vec![(false, 5)], vec![(false, 81 + 9 + 3)]]);
}

#[test]
fn encoded_text() {
    let t = encode_sudoku("1").expect("encodes");
    let text = String::from_utf8(t).unwrap();
    assert!(text.starts_with("p cnf 729 41010\n1 2 3 4 5 6 7 8 9 0\n"));
    assert!(text.ends_with("\n1 0\n"));
    assert_eq!(text.lines().count(), 1 + 40986 + 1);
}

#[test]
fn reads_solver_output() {
    let a = convert_to_true("s SATISFIABLE\nv 1 -2 3 0\n").expect("reads");
    assert_eq!(a.len(), 729);
    assert!(a[0] && !a[1] && a[2]);
    assert_eq!(a.iter().filter(|x| **x).count(), 2);
    assert!(convert_to_true("v 730 0").is_none());
}

#[test]
fn renders_grid() {
    let mut a = vec![false; 729];
    a[(index_to_number(0, 0, 4) - 1) as usize] = true;
    let g = String::from_utf8(render_grid(&a)).unwrap();
    let lines: Vec<&str> = g.lines().collect();
    assert_eq!(lines.len(), 13);
    assert_eq!(lines[0], "--------------------");
    assert_eq!(lines[1], "|5 |||");
    assert_eq!(lines[2], "||||");
}
