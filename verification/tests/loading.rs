use sudoku::load::{from_pattern, from_text, split_lines, LoadError};

fn pattern(rows: &[&str]) -> Vec<Vec<char>> {
    rows.iter().map(|r| r.chars().collect()).collect()
}

#[test]
fn loads_digits_as_given_and_stars_as_empty() {
    let lines = pattern(&[
        "53**7****",
        "6**195***",
        "*98****6*",
        "8***6***3",
        "4**8*3**1",
        "7***2***6",
        "*6****28*",
        "***419**5",
        "****8**79",
    ]);
    let b = from_pattern(&lines).unwrap();
    assert_eq!(b.digit_at(0, 0), Some(5));
    assert_eq!(b.digit_at(0, 1), Some(3));
    assert_eq!(b.digit_at(0, 2), None);
    assert_eq!(b.digit_at(8, 8), Some(9));
    assert!(b.is_given_cell(0, 0));
    assert!(!b.is_given_cell(0, 2));
    assert!(b.is_valid());
}

#[test]
fn malformed_character_fails_at_its_position() {
    let lines = pattern(&["*********", "****x****"]);
    let err = from_pattern(&lines).unwrap_err();
    assert_eq!(err, LoadError::BadChar { row: 1, col: 4, ch: 'x' });
}

#[test]
fn first_bad_position_wins() {
    let lines = pattern(&["***y*****", "****x****"]);
    let err = from_pattern(&lines).unwrap_err();
    assert_eq!(err, LoadError::BadChar { row: 0, col: 3, ch: 'y' });
}

#[test]
fn digit_beyond_column_nine_is_refused() {
    let lines = pattern(&["*********7"]);
    let err = from_pattern(&lines).unwrap_err();
    assert_eq!(err, LoadError::DigitOutOfBoard { row: 0, col: 9 });
}

#[test]
fn digit_beyond_row_nine_is_refused() {
    let lines = pattern(&["", "", "", "", "", "", "", "", "", "5"]);
    let err = from_pattern(&lines).unwrap_err();
    assert_eq!(err, LoadError::DigitOutOfBoard { row: 9, col: 0 });
}

#[test]
fn stray_star_beyond_the_board_is_tolerated() {
    let lines = pattern(&["**********", "", "", "", "", "", "", "", "", "***"]);
    let b = from_pattern(&lines).unwrap();
    for r in 0..9 {
        for c in 0..9 {
            assert_eq!(b.digit_at(r, c), None);
        }
    }
}

#[test]
fn short_pattern_leaves_the_rest_empty() {
    let lines = pattern(&["12", "*4"]);
    let b = from_pattern(&lines).unwrap();
    assert_eq!(b.digit_at(0, 0), Some(1));
    assert_eq!(b.digit_at(0, 1), Some(2));
    assert_eq!(b.digit_at(1, 0), None);
    assert_eq!(b.digit_at(1, 1), Some(4));
    assert_eq!(b.digit_at(5, 5), None);
    assert!(b.is_given_cell(1, 1));
    assert!(!b.is_given_cell(8, 8));
}

#[test]
fn split_lines_matches_newline_splitting() {
    let cases = [
        "",
        "abc",
        "a\nb",
        "\n",
        "one\ntwo\n",
        "\n\nmid\n",
    ];
    for text in cases {
        let chars: Vec<char> = text.chars().collect();
        let got = split_lines(&chars);
        let want: Vec<Vec<char>> =
            text.split('\n').map(|l| l.chars().collect()).collect();
        assert_eq!(got, want, "splitting {:?}", text);
    }
}

#[test]
fn from_text_loads_like_from_pattern() {
    let text: Vec<char> = "53**7****\n6**195***\n*98****6*".chars().collect();
    let b = from_text(&text).unwrap();
    assert_eq!(b.digit_at(0, 0), Some(5));
    assert_eq!(b.digit_at(1, 3), Some(1));
    assert_eq!(b.digit_at(2, 1), Some(9));
    assert_eq!(b.digit_at(2, 8), None);
    assert!(b.is_given_cell(2, 7));
    assert!(!b.is_given_cell(0, 2));
}

#[test]
fn from_text_reports_malformed_characters() {
    let text: Vec<char> = "*********\n***?*****".chars().collect();
    let err = from_text(&text).unwrap_err();
    assert_eq!(err, LoadError::BadChar { row: 1, col: 3, ch: '?' });
}

#[test]
fn from_text_tolerates_a_trailing_newline() {
    let text: Vec<char> = "1********\n".chars().collect();
    let b = from_text(&text).unwrap();
    assert_eq!(b.digit_at(0, 0), Some(1));
}

#[test]
fn conflicting_givens_still_load() {
    // the loader does not judge the puzzle; the search reports no solution
    let lines = pattern(&["11*******"]);
    let b = from_pattern(&lines).unwrap();
    assert_eq!(b.digit_at(0, 0), Some(1));
    assert_eq!(b.digit_at(0, 1), Some(1));
    assert!(!b.is_valid());
}
