use satsolver::cnf::{push_clause, push_number};
use satsolver::dimacs::parse_dimacs;
use satsolver::dpll::DPLL;
use satsolver::tents::SatMaker;

#[test]
fn subsets_are_exactly_the_increasing_ones() {
    for n in 0..6usize {
        for k in 0..=n {
            let subs = SatMaker::n_choose_k(n, k);
            let mut expected = Vec::new();
            for bits in 0..(1u32 << n) {
                if bits.count_ones() as usize == k {
                    expected.push((0..n).filter(|i| bits >> i & 1 == 1).collect::<Vec<usize>>());
                }
            }
            expected.sort();
            assert_eq!(subs, expected, "n = {}, k = {}", n, k);
        }
    }
}

#[test]
fn sat_answers_pass_validation() {
    let texts = [
        "p cnf 3 3\n1 -2 0\n2 3 0\n-1 -3 0\n",
        "p cnf 4 4\n1 2 0\n-1 3 0\n-3 4 0\n-2 -4 3 0\n",
        "p cnf 3 4\n1 2 3 0\n-1 -2 0\n-2 -3 0\n-1 -3 0\n",
    ];
    for t in texts.iter() {
        let mut d = DPLL::new(t).expect("reads");
        d.dpll().expect("no halt");
        if !d.unsat {
            assert!(d.validate(), "{}", t);
        }
    }
}

#[test]
fn numbers_are_written_in_decimal() {
    let mut out = Vec::new();
    push_number(&mut out, -120);
    push_number(&mut out, 0);
    push_number(&mut out, i128::MIN);
    assert_eq!(String::from_utf8(out).unwrap(), format!("-1200{}", i128::MIN));
    let mut line = Vec::new();
    push_clause(&mut line, &vec![(true, 3), (false, 12)]);
    assert_eq!(String::from_utf8(line).unwrap(), "-3 12 0\n");
}

#[test]
fn dimacs_reading_keeps_lines_in_order() {
    let items = parse_dimacs("c x\np cnf 2 1\n1 -2 0\n", 1, false).expect("reads");
    assert_eq!(items.len(), 2);
    assert!(parse_dimacs("p cnf\n", 1, false).is_none());
    assert!(parse_dimacs("1 y 0\n", 1, false).is_none());
}
