use qubosat::chkqubo;
use qubosat::constraints::{get_sorterouts, mk_0cons, mk_0cons2};
use qubosat::limits::{chkqubo_input_ok, findasgnqubo_input_ok, qubo_input_ok, solqubo_input_ok};
use qubosat::sorter::Sorter;
use qubosat::findasgnqubo;
use qubosat::solqubo;
use qubosat::sortnet::mksorter;
use qubosat::tabus::ts_qubo;
use varisat::ExtendFormula;

/// `x^T Q x`, computed directly.
fn objective(q: &Vec<Vec<i32>>, x: &Vec<bool>) -> i64 {
    let mut acc: i64 = 0;
    for i in 0..q.len() {
        for j in 0..q.len() {
            if x[i] && x[j] {
                acc += q[i][j] as i64;
            }
        }
    }
    acc
}

/// The least objective, by trying every assignment.
fn brute_min(q: &Vec<Vec<i32>>) -> i64 {
    let n = q.len();
    let mut best = i64::MAX;
    for bits in 0..(1u32 << n) {
        let x: Vec<bool> = (0..n).map(|i| bits & (1 << i) != 0).collect();
        let v = objective(q, &x);
        if v < best {
            best = v;
        }
    }
    best
}

fn glover4() -> Vec<Vec<i32>> {
    vec![vec![-5, 2, 4, 0], vec![2, -3, 1, 0], vec![4, 1, -8, 5], vec![0, 0, 5, -6]]
}

fn glover8() -> Vec<Vec<i32>> {
    vec![
        vec![-3525, 175, 325, 775, 1050, 425, 525, 250],
        vec![175, -1113, 91, 217, 294, 119, 147, 70],
        vec![325, 91, -1989, 403, 546, 221, 273, 130],
        vec![775, 217, 403, -4185, 1302, 527, 651, 310],
        vec![1050, 294, 546, 1302, -5208, 714, 882, 420],
        vec![425, 119, 221, 527, 714, -2533, 357, 170],
        vec![525, 147, 273, 651, 882, 357, -3045, 210],
        vec![250, 70, 130, 310, 420, 170, 210, -1560],
    ]
}

#[test]
fn test0() {
    assert_eq!(
        solqubo::solqubo(
            vec![
                vec![-1, 0, 1, 1, 1, 0],
                vec![0, -1, 0, 1, 0, 0],
                vec![0, 0, -1, 0, 0, 0],
                vec![0, 0, 0, -1, 0, 1],
                vec![0, 0, 0, 0, -1, 0],
                vec![0, 0, 0, 0, 0, -1]
            ],
            2,
            false
        ),
        Ok(-4)
    );
}

fn test1_lst(base: i32, t: bool) {
    assert_eq!(solqubo::solqubo(vec![vec![1]], base, t), Ok(0));
    assert_eq!(solqubo::solqubo(vec![vec![1, 0], vec![0, -10]], base, t), Ok(-10));
    assert_eq!(solqubo::solqubo(vec![vec![1, 0], vec![-4, 1]], base, t), Ok(-2));
    assert_eq!(solqubo::solqubo(vec![vec![10, 20], vec![-2, 3]], base, t), Ok(0));
    assert_eq!(solqubo::solqubo(vec![vec![-1000, 1], vec![0, -1000]], base, t), Ok(-1999));
    assert_eq!(solqubo::solqubo(glover4(), base, t), Ok(-11));
    assert_eq!(solqubo::solqubo(glover8(), base, t), Ok(-6889));
}

#[test]
fn test1() {
    let li: Vec<i32> = vec![2, 3, 5, 10];
    for i in li.iter() {
        println!("test with base : {}", *i);
        test1_lst(*i, true);
    }
}

#[test]
fn test1_() {
    let li: Vec<i32> = vec![2, 3, 5, 10];
    for i in li.iter() {
        println!("test with base : {}", *i);
        test1_lst(*i, false);
    }
}

fn test2_lst(base: i32) {
    assert_eq!(chkqubo::chkqubo(vec![vec![1]], 0, base), Ok(true));
    assert_eq!(chkqubo::chkqubo(vec![vec![1, 0], vec![0, -10]], -10, base), Ok(true));
    assert_eq!(chkqubo::chkqubo(vec![vec![1, 0], vec![-4, 1]], -2, base), Ok(true));
    assert_eq!(chkqubo::chkqubo(vec![vec![10, 20], vec![-2, 3]], 0, base), Ok(true));
    assert_eq!(chkqubo::chkqubo(glover4(), -11, base), Ok(true));
    assert_eq!(chkqubo::chkqubo(glover4(), -10, base), Ok(false));
    assert_eq!(chkqubo::chkqubo(glover4(), -12, base), Ok(false));
    assert_eq!(chkqubo::chkqubo(glover8(), -6889, base), Ok(true));
    assert_eq!(chkqubo::chkqubo(glover8(), -6890, base), Ok(false));
    assert_eq!(chkqubo::chkqubo(glover8(), -6888, base), Ok(false));
}

#[test]
fn test2() {
    let li: Vec<i32> = vec![2, 3, 5, 10];
    for i in li.iter() {
        println!("test with base : {}", *i);
        test2_lst(*i);
    }
}

#[test]
fn solqubo_value_is_reached() {
    for base in [2, 3, 7] {
        for q in [glover4(), vec![vec![3, -2, 0], vec![-2, 1, -4], vec![0, 0, 2]]] {
            let (v, x) = solqubo::solve_qubo(&q, base, false).unwrap();
            assert_eq!(x.len(), q.len());
            assert_eq!(objective(&q, &x), v as i64);
            assert_eq!(v as i64, brute_min(&q));
        }
    }
}

#[test]
fn solqubo_never_above_zero() {
    let q = vec![vec![5, 1], vec![1, 7]];
    assert_eq!(solqubo::solqubo(q, 2, false), Ok(0));
}

#[test]
fn chkqubo_below_every_value_is_false() {
    // -p = -(5 + 3 + 8 + 6) is below every objective
    assert_eq!(chkqubo::chkqubo(glover4(), -23, 2), Ok(false));
    assert_eq!(chkqubo::chkqubo(glover4(), -1000, 3), Ok(false));
}

#[test]
fn chkqubo_least_value_is_true() {
    for base in [2, 3, 4, 10] {
        let q = vec![vec![3, -2, 0], vec![-2, 1, -4], vec![0, 0, 2]];
        let m = brute_min(&q) as i32;
        assert_eq!(chkqubo::chkqubo(q.clone(), m, base), Ok(true));
        assert_eq!(chkqubo::chkqubo(q, m - 1, base), Ok(false));
    }
}

#[test]
fn findasgnqubo_readme_examples() {
    assert_eq!(findasgnqubo::findasgnqubo(glover8(), -6889, 2), Ok(true));
    assert_eq!(findasgnqubo::findasgnqubo(glover8(), -6890, 2), Ok(false));
    assert_eq!(findasgnqubo::findasgnqubo(glover8(), -6889, 5), Ok(true));
}

#[test]
fn findasgnqubo_first_step_without_assignment() {
    // glover4 has p = 22 and least value -11; with base 10 the first step asks for
    // (x^T Q x + 22) / 10 <= 0, which no assignment meets
    assert_eq!(findasgnqubo::findasgnqubo(glover4(), -23, 10), Ok(false));
    assert_eq!(findasgnqubo::find_assignment(&glover4(), -23, 10), Ok(None));
}

#[test]
fn chkqubo_answers_least_value_only() {
    // least value 0 at x = (0, 0); 2 is reached too but is not the least
    let q = vec![vec![2, 0], vec![-1, 2]];
    assert_eq!(chkqubo::chkqubo(q.clone(), 2, 2), Ok(false));
    assert_eq!(chkqubo::chkqubo(q.clone(), 0, 2), Ok(true));
    assert_eq!(chkqubo::chkqubo(q, 3, 3), Ok(false));
}

#[test]
fn findasgnqubo_below_every_value() {
    assert_eq!(findasgnqubo::findasgnqubo(vec![vec![1]], -1, 2), Ok(false));
    assert_eq!(findasgnqubo::findasgnqubo(vec![vec![1]], 0, 2), Ok(true));
    assert_eq!(findasgnqubo::find_assignment(&vec![vec![1]], -1, 2), Ok(None));
}

#[test]
fn findasgnqubo_matches_brute_force() {
    for base in [2, 3, 10] {
        for q in [glover4(), vec![vec![3, -2, 0], vec![-2, 1, -4], vec![0, 0, 2]]] {
            let least = brute_min(&q) as i32;
            for val in (least - 3)..(least + 4) {
                assert_eq!(findasgnqubo::findasgnqubo(q.clone(), val, base), Ok(val >= least));
                assert_eq!(chkqubo::chkqubo(q.clone(), val, base), Ok(val == least));
            }
        }
    }
}

#[test]
fn find_assignment_meets_the_bound() {
    for base in [2, 3, 10] {
        for val in [-11, -9, -5, 0, 3] {
            match findasgnqubo::find_assignment(&glover4(), val, base) {
                Ok(Some(x)) => {
                    assert_eq!(x.len(), 4);
                    assert!(objective(&glover4(), &x) <= val as i64);
                }
                other => panic!("no assignment for {}: {:?}", val, other),
            }
        }
    }
    assert_eq!(findasgnqubo::find_assignment(&glover4(), -12, 2), Ok(None));
}

#[test]
fn tabu_search_value_is_reached_and_not_positive() {
    // folded coefficients of glover4, row by row
    let mat_n = vec![-5, 4, -3, 8, 2, -8, 0, 0, 10, -6];
    let t = ts_qubo(&mat_n, 4, 100);
    assert!(t <= 0);
    assert!(t as i64 >= brute_min(&glover4()));
    assert_eq!(ts_qubo(&mat_n, 4, 0), 0);
}

#[test]
fn tabu_search_reads_only_the_folded_prefix() {
    let mat_n = vec![-5, 4, -3, 8, 2, -8, 0, 0, 10, -6, -100, -100];
    assert_eq!(ts_qubo(&mat_n, 4, 1), -8);
    assert_eq!(ts_qubo(&mat_n, 4, 3), -9);
}

#[test]
fn tabu_search_first_steps() {
    let mat_n = vec![-5, 4, -3, 8, 2, -8, 0, 0, 10, -6];
    // first step flips variable 2, the second variable 1; the third finds no better move
    assert_eq!(ts_qubo(&mat_n, 4, 1), -8);
    assert_eq!(ts_qubo(&mat_n, 4, 2), -9);
    assert_eq!(ts_qubo(&mat_n, 4, 3), -9);
}

#[test]
fn sorting_network_on_four_wires() {
    let mut x = Vec::new();
    mksorter(&mut x, 0, 3);
    assert_eq!(x, vec![(0, 1), (2, 3), (0, 2), (1, 3), (1, 2)]);
    let mut y = Vec::new();
    mksorter(&mut y, 0, 0);
    assert!(y.is_empty());
}

#[test]
fn parse_rows_and_comments() {
    let text = b"c a comment line\n1 2\n\n 3\t-4 \r\n5\nc 7 8\n-2147483648 +2147483647\n";
    assert_eq!(
        qubosat::utils::parse_qubo(text),
        Ok(vec![vec![1, 2], vec![3, -4], vec![-2147483648, 2147483647]])
    );
    assert_eq!(qubosat::utils::parse_qubo(b""), Ok(vec![]));
    assert_eq!(qubosat::utils::parse_qubo(b"1 2\n3 4"), Ok(vec![vec![1, 2], vec![3, 4]]));
}

#[test]
fn parse_unicode_white_space() {
    // U+3000, U+00A0 and U+2003 separate entries as ASCII white space does
    let text = "1\u{3000}2\n3\u{a0}4\u{2003}5\n\u{85}c 9\n";
    assert_eq!(
        qubosat::utils::parse_qubo(text.as_bytes()),
        Ok(vec![vec![1, 2], vec![3, 4, 5]])
    );
    assert_eq!(qubosat::utils::parse_qubo("x\u{3000}1\n".as_bytes()), Err("parse error".to_string()));
    // other characters stay inside an entry
    assert_eq!(qubosat::utils::parse_qubo("1\u{e9}2\n".as_bytes()), Ok(vec![]));
}

#[test]
fn parse_errors() {
    assert_eq!(qubosat::utils::parse_qubo(b"1 x\n"), Err("parse error".to_string()));
    assert_eq!(qubosat::utils::parse_qubo(b"2147483648 1\n"), Err("parse error".to_string()));
    assert_eq!(qubosat::utils::parse_qubo(b"1 -\n"), Err("parse error".to_string()));
    assert_eq!(qubosat::utils::parse_qubo(b"cc 1\n"), Err("parse error".to_string()));
    // a single entry is no row, whatever it is
    assert_eq!(qubosat::utils::parse_qubo(b"x\n1 1\n"), Ok(vec![vec![1, 1]]));
}

#[test]
fn input_checks() {
    assert!(qubo_input_ok(&glover4()));
    assert!(!qubo_input_ok(&vec![]));
    assert!(!qubo_input_ok(&vec![vec![1, 2], vec![3]]));
    assert!(!qubo_input_ok(&vec![vec![i32::MAX, 1], vec![0, 0]]));
    assert!(solqubo_input_ok(&glover4(), 2));
    assert!(solqubo_input_ok(&glover8(), 10));
    assert!(!solqubo_input_ok(&glover4(), 1));
    // every coefficient zero: the top sorter has no outputs
    assert!(!solqubo_input_ok(&vec![vec![0, 0], vec![0, 0]], 2));
    assert!(chkqubo_input_ok(&glover4(), -11, 3));
    assert!(chkqubo_input_ok(&glover4(), -1000, 3));
    assert!(!chkqubo_input_ok(&glover4(), 1000, 2));
    assert!(chkqubo_input_ok(&vec![vec![0]], 0, 2));
    assert!(findasgnqubo_input_ok(&glover8(), -6889, 2));
    assert!(!findasgnqubo_input_ok(&glover4(), i32::MAX, 2));
}

#[test]
fn chkqubo_zero_matrix() {
    assert_eq!(chkqubo::chkqubo(vec![vec![0]], 0, 2), Ok(true));
    assert_eq!(chkqubo::chkqubo(vec![vec![0]], -1, 2), Ok(false));
}

#[test]
fn residue_constraints_and_counts() {
    let sl = vec![
        Sorter { input: vec![], output: vec![], numcarr: 0 },
        Sorter { input: vec![1, 2, 3], output: vec![4, 5, 6], numcarr: 0 },
    ];
    assert_eq!(mk_0cons(&sl, 2).len(), 2);
    assert_eq!(mk_0cons2(&sl, 1).len(), 3);
    // variables 4 and 5 true, 6 false: two outputs hold
    let model: Vec<isize> = vec![1, -2, 3, 4, 5, -6];
    assert_eq!(get_sorterouts(&sl, &model), vec![Some(2), None]);
}

#[test]
fn sorter_list_appends_to_a_list() {
    // digits of two products in base 2: 3 = [1, 1] and 1 = [1]
    let num_b = vec![vec![1, 1], vec![1]];
    let mut list = vec![Sorter { input: vec![7], output: vec![7], numcarr: 0 }];
    let mut g = varisat::CnfFormula::new();
    let mut vargen: usize = 10;
    qubosat::sorter::mk_sorterlst(&mut list, &num_b, &mut g, 2, 1, &mut vargen);
    assert_eq!(list.len(), 3);
    assert_eq!(list[0].input, vec![7]);
    // place 0 sorts the two products (one comparator, two fresh variables); place 1 gets
    // the carry of place 0 and one copy of the first product
    assert_eq!(list[1].input, vec![2, 3]);
    assert_eq!(list[1].output, vec![10, 11]);
    assert_eq!(list[2].input, vec![11, 2]);
    assert_eq!(list[2].output, vec![12, 13]);
    assert_eq!(vargen, 14);
    // each comparator defines its two fresh outputs: the first as `or`, the second as `and`
    let clauses: Vec<Vec<isize>> = g.iter().map(|c| c.iter().map(|l| l.to_dimacs()).collect()).collect();
    assert_eq!(
        clauses,
        vec![
            vec![-2, -3, 11],
            vec![2, -11],
            vec![3, -11],
            vec![2, 3, -10],
            vec![-2, 10],
            vec![-3, 10],
            vec![-11, -2, 13],
            vec![11, -13],
            vec![2, -13],
            vec![11, 2, -12],
            vec![-11, 12],
            vec![-2, 12],
        ]
    );
}

#[test]
fn residue_constraint_clauses() {
    let sl = vec![Sorter { input: vec![1, 2, 3, 4, 5], output: vec![4, 5, 6, 7, 8], numcarr: 0 }];
    let mut vargen: usize = 10;
    // an odd count: exactly 1, exactly 3, or all 5 outputs hold
    let h = qubosat::constraints::mk_0cons_mod(&sl, 0, 1, 2, &mut vargen);
    let clauses: Vec<Vec<isize>> = h.iter().map(|c| c.iter().map(|l| l.to_dimacs()).collect()).collect();
    assert_eq!(
        clauses,
        vec![
            vec![5, -4, 10],
            vec![-5, -10],
            vec![4, -10],
            vec![7, -6, 11],
            vec![-7, -11],
            vec![6, -11],
            vec![10, 11, 8],
        ]
    );
    assert_eq!(vargen, 12);
    // an even count: none, exactly 2, or exactly 4
    let mut vargen: usize = 10;
    let h = qubosat::constraints::mk_0cons_mod(&sl, 0, 0, 2, &mut vargen);
    let clauses: Vec<Vec<isize>> = h.iter().map(|c| c.iter().map(|l| l.to_dimacs()).collect()).collect();
    assert_eq!(
        clauses,
        vec![
            vec![6, -5, 10],
            vec![-6, -10],
            vec![5, -10],
            vec![8, -7, 11],
            vec![-8, -11],
            vec![7, -11],
            vec![-4, 10, 11],
        ]
    );
    assert_eq!(vargen, 12);
}

#[test]
fn one_place_inputs_need_no_room_beyond_the_encoding() {
    // a single place: no constraint on a lower place takes fresh variables
    assert!(solqubo_input_ok(&vec![vec![16383]], 16384));
    assert!(findasgnqubo_input_ok(&vec![vec![19999]], 0, 20000));
    assert!(chkqubo_input_ok(&vec![vec![19999]], 0, 20000));
}

#[test]
fn sorter_list_counts_carry_up() {
    // digits of two products in base 2: 3 = [1, 1] and 1 = [1]; both products hold
    let num_b = vec![vec![1, 1], vec![1]];
    let mut list: Vec<Sorter> = vec![];
    let mut g = varisat::CnfFormula::new();
    let mut vargen: usize = 4;
    qubosat::sorter::mk_sorterlst(&mut list, &num_b, &mut g, 2, 1, &mut vargen);
    g.add_clause(&[varisat::Lit::from_dimacs(2)]);
    g.add_clause(&[varisat::Lit::from_dimacs(3)]);
    let mut solver = varisat::Solver::new();
    solver.add_formula(&g);
    assert_eq!(solver.solve().ok(), Some(true));
    let model = solver.model().unwrap();
    let holds = |v: usize| model.contains(&varisat::Lit::from_dimacs(v as isize));
    let counts: Vec<usize> = list.iter().map(|s| s.output.iter().filter(|v| holds(**v)).count()).collect();
    // place 0 counts both products; place 1 its carry and the first product's second digit
    assert_eq!(counts, vec![2, 2]);
    for s in &list {
        let c = s.output.iter().filter(|v| holds(**v)).count();
        for (t, v) in s.output.iter().enumerate() {
            assert_eq!(holds(*v), t < c);
        }
    }
    // the weighted digits that hold, 3 + 1, are the top count times 2 plus the residue below
    assert_eq!(counts[1] * 2 + counts[0] % 2, 4);
}
