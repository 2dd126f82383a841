use sudoku::load::from_pattern;
use sudoku::solver::solve;

const SOLVED: [&str; 9] = [
    "534678912",
    "672195348",
    "198342567",
    "859761423",
    "426853791",
    "713924856",
    "961537284",
    "287419635",
    "345286179",
];

fn pattern(rows: &[&str]) -> Vec<Vec<char>> {
    rows.iter().map(|r| r.chars().collect()).collect()
}

fn digits_of(rows: &[&str]) -> Vec<u8> {
    rows.iter()
        .flat_map(|r| r.chars())
        .map(|ch| ch.to_digit(10).unwrap() as u8)
        .collect()
}

/// A full 81-digit grid respects every row, column and block constraint.
fn assert_well_formed_solution(sol: &[u8]) {
    assert_eq!(sol.len(), 81);
    for &v in sol {
        assert!((1..=9).contains(&v));
    }
    for g in 0..9 {
        let mut row = [false; 10];
        let mut col = [false; 10];
        let mut block = [false; 10];
        for k in 0..9 {
            let rv = sol[g * 9 + k] as usize;
            assert!(!row[rv], "duplicate in row {}", g);
            row[rv] = true;
            let cv = sol[k * 9 + g] as usize;
            assert!(!col[cv], "duplicate in column {}", g);
            col[cv] = true;
            let br = (g / 3) * 3 + k / 3;
            let bc = (g % 3) * 3 + k % 3;
            let bv = sol[br * 9 + bc] as usize;
            assert!(!block[bv], "duplicate in block {}", g);
            block[bv] = true;
        }
    }
}

#[test]
fn fully_solved_input_yields_itself_once() {
    let mut b = from_pattern(&pattern(&SOLVED)).unwrap();
    let sols = solve(&mut b, usize::MAX);
    assert_eq!(sols.len(), 1);
    assert_eq!(sols[0], digits_of(&SOLVED));
}

#[test]
fn one_blanked_cell_is_uniquely_forced() {
    let mut rows: Vec<String> = SOLVED.iter().map(|r| r.to_string()).collect();
    // blank the last cell; its digit 9 is forced by row, column and block
    rows[8] = "34528617*".to_string();
    let lines: Vec<Vec<char>> = rows.iter().map(|r| r.chars().collect()).collect();
    let mut b = from_pattern(&lines).unwrap();
    let sols = solve(&mut b, usize::MAX);
    assert_eq!(sols.len(), 1);
    assert_eq!(sols[0], digits_of(&SOLVED));
    assert_eq!(sols[0][80], 9);
}

#[test]
fn classic_puzzle_has_exactly_its_known_solution() {
    let lines = pattern(&[
        "53**7****",
        "6**195***",
        "*98****6*",
        "8***6***3",
        "4**8*3**1",
        "7***2***6",
        "*6****28*",
        "***419**5",
        "****8**79",
    ]);
    let mut b = from_pattern(&lines).unwrap();
    let sols = solve(&mut b, usize::MAX);
    assert_eq!(sols.len(), 1);
    assert_eq!(sols[0], digits_of(&SOLVED));
}

#[test]
fn givens_survive_a_complete_search() {
    let lines = pattern(&["53**7****", "6**195***", "*98****6*"]);
    let mut b = from_pattern(&lines).unwrap();
    let _ = solve(&mut b, 3);
    assert_eq!(b.digit_at(0, 0), Some(5));
    assert_eq!(b.digit_at(0, 1), Some(3));
    assert_eq!(b.digit_at(1, 3), Some(1));
    assert_eq!(b.digit_at(2, 7), Some(6));
    assert!(b.is_given_cell(0, 0));
    // cells the search filled were unfilled again
    assert_eq!(b.digit_at(0, 2), None);
    assert_eq!(b.digit_at(8, 8), None);
}

#[test]
fn empty_grid_first_solution_is_the_lexicographic_least() {
    let mut b = from_pattern(&pattern(&[])).unwrap();
    let sols = solve(&mut b, 1);
    assert_eq!(sols.len(), 1);
    assert_well_formed_solution(&sols[0]);
    // ascending-digit, row-major search reaches these rows greedily
    assert_eq!(&sols[0][0..9], &[1, 2, 3, 4, 5, 6, 7, 8, 9]);
    assert_eq!(&sols[0][9..18], &[4, 5, 6, 7, 8, 9, 1, 2, 3]);
    assert_eq!(&sols[0][18..27], &[7, 8, 9, 1, 2, 3, 4, 5, 6]);
}

#[test]
fn empty_grid_solutions_come_in_strict_order() {
    let mut b = from_pattern(&pattern(&[])).unwrap();
    let sols = solve(&mut b, 3);
    assert_eq!(sols.len(), 3);
    for s in &sols {
        assert_well_formed_solution(s);
    }
    assert!(sols[0] < sols[1]);
    assert!(sols[1] < sols[2]);
}

#[test]
fn duplicate_givens_in_a_row_yield_no_solution() {
    let lines = pattern(&["4*****4**"]);
    let mut b = from_pattern(&lines).unwrap();
    let sols = solve(&mut b, usize::MAX);
    assert_eq!(sols.len(), 0);
}

#[test]
fn search_is_deterministic_across_runs() {
    let lines = pattern(&["12*******", "**3******"]);
    let mut b1 = from_pattern(&lines).unwrap();
    let first = solve(&mut b1, 5);
    let mut b2 = from_pattern(&lines).unwrap();
    let second = solve(&mut b2, 5);
    assert_eq!(first, second);
    // and the restored board supports an identical further run
    let third = solve(&mut b1, 5);
    assert_eq!(first, third);
}

#[test]
fn limit_caps_the_enumeration() {
    let mut b = from_pattern(&pattern(&[])).unwrap();
    let sols = solve(&mut b, 2);
    assert_eq!(sols.len(), 2);
    let mut b0 = from_pattern(&pattern(&[])).unwrap();
    let none = solve(&mut b0, 0);
    assert_eq!(none.len(), 0);
}

#[test]
fn malformed_pattern_never_reaches_the_search() {
    let lines = pattern(&["**x******"]);
    assert!(from_pattern(&lines).is_err());
}
