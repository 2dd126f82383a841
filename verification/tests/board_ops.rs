use sudoku::board::Board;

#[test]
fn new_board_is_all_empty_and_ungiven() {
    let b = Board::new();
    for r in 0..9 {
        for c in 0..9 {
            assert!(b.is_empty(r, c));
            assert!(!b.is_given_cell(r, c));
            assert_eq!(b.digit_at(r, c), None);
        }
    }
    assert!(b.is_valid());
}

#[test]
fn place_records_digit_and_blocks_its_groups() {
    let mut b = Board::new();
    b.place(4, 7, 3);
    assert_eq!(b.digit_at(4, 7), Some(3));
    assert!(!b.is_empty(4, 7));
    // same row
    assert!(!b.can_place(4, 0, 3));
    // same column
    assert!(!b.can_place(8, 7, 3));
    // same block (rows 3..6, cols 6..9)
    assert!(!b.can_place(5, 6, 3));
    // other digit in the same row is fine
    assert!(b.can_place(4, 0, 4));
    // same digit in an unrelated cell is fine
    assert!(b.can_place(0, 0, 3));
    // an occupied cell takes nothing
    assert!(!b.can_place(4, 7, 5));
    assert!(b.is_valid());
}

#[test]
fn place_then_unplace_restores_prior_state() {
    let mut b = Board::new();
    b.place(0, 0, 1);
    b.place(1, 4, 9);
    b.place(2, 2, 5);
    b.unplace(2, 2);
    assert_eq!(b.digit_at(2, 2), None);
    assert!(b.is_empty(2, 2));
    // the used-digit sets are restored too: 5 is placeable again everywhere
    for r in 0..9 {
        for c in 0..9 {
            let occupied = (r, c) == (0, 0) || (r, c) == (1, 4);
            assert_eq!(b.can_place(r, c, 5), !occupied);
        }
    }
    assert_eq!(b.digit_at(0, 0), Some(1));
    assert_eq!(b.digit_at(1, 4), Some(9));
    assert!(b.is_valid());
}

#[test]
fn mark_given_sets_only_that_cell() {
    let mut b = Board::new();
    b.place(3, 3, 7);
    b.mark_given(3, 3);
    assert!(b.is_given_cell(3, 3));
    for r in 0..9 {
        for c in 0..9 {
            if (r, c) != (3, 3) {
                assert!(!b.is_given_cell(r, c));
            }
        }
    }
}

#[test]
fn snapshot_mirrors_the_grid() {
    let mut b = Board::new();
    b.place(0, 0, 2);
    b.place(8, 8, 6);
    let s = b.snapshot();
    assert_eq!(s.len(), 81);
    assert_eq!(s[0], 2);
    assert_eq!(s[80], 6);
    for i in 1..80 {
        assert_eq!(s[i], 0);
    }
}

#[test]
fn is_valid_spots_a_row_conflict_only_when_present() {
    let mut b = Board::new();
    b.place(6, 1, 8);
    assert!(b.is_valid());
    // a second 8 in row 6 cannot arrive through place in a well-driven
    // search; the loader path builds it from a conflicting pattern instead
    let lines = vec![
        "".chars().collect::<Vec<char>>(),
        "".chars().collect(),
        "".chars().collect(),
        "".chars().collect(),
        "".chars().collect(),
        "".chars().collect(),
        "*8*****8*".chars().collect(),
    ];
    let conflicted = sudoku::load::from_pattern(&lines).unwrap();
    assert!(!conflicted.is_valid());
}

#[test]
fn render_helpers_give_exact_characters_and_shading() {
    assert_eq!(sudoku::render::cell_char(0), '*');
    assert_eq!(sudoku::render::cell_char(1), '1');
    assert_eq!(sudoku::render::cell_char(5), '5');
    assert_eq!(sudoku::render::cell_char(9), '9');
    // block (0,0) unshaded, (0,1) shaded, (1,1) unshaded, checkerboard-wise
    assert!(!sudoku::render::block_shaded(0, 0));
    assert!(sudoku::render::block_shaded(0, 3));
    assert!(sudoku::render::block_shaded(3, 0));
    assert!(!sudoku::render::block_shaded(3, 3));
    assert!(!sudoku::render::block_shaded(8, 0));
    assert!(sudoku::render::block_shaded(8, 3));
    assert!(!sudoku::render::block_shaded(2, 6));
}
