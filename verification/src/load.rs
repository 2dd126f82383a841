//! Loading a board from a textual pattern.
//!
//! The pattern text holds one line per board row, split on `'\n'`; each
//! character is a digit `'1'` through `'9'` (a given cell) or `'*'` (an
//! empty cell). Any other character is malformed, and a digit outside the
//! 9x9 board cannot be placed; both are reported as errors, at the first
//! offending position in scan order. A short pattern simply leaves the
//! remaining cells empty, and a `'*'` outside the board is ignored.

use vstd::prelude::*;

use crate::board::Board;
use crate::rules::{cell_at, idx_of, in_range};

verus! {

/// The lines of a pattern, as pure sequences of characters.
pub open spec fn lines_view(ls: Seq<Vec<char>>) -> Seq<Seq<char>> {
    ls.map_values(|l: Vec<char>| l@)
}

pub open spec fn is_digit_char(ch: char) -> bool {
    ch == '1' || ch == '2' || ch == '3' || ch == '4' || ch == '5' || ch == '6' || ch == '7' || ch
        == '8' || ch == '9'
}

/// The digit a pattern character stands for.
pub open spec fn digit_val(ch: char) -> u8 {
    if ch == '1' {
        1
    } else if ch == '2' {
        2
    } else if ch == '3' {
        3
    } else if ch == '4' {
        4
    } else if ch == '5' {
        5
    } else if ch == '6' {
        6
    } else if ch == '7' {
        7
    } else if ch == '8' {
        8
    } else {
        9
    }
}

pub open spec fn char_ok(ch: char) -> bool {
    ch == '*' || is_digit_char(ch)
}

/// The entry at line `i`, column `j` is acceptable: a recognized character,
/// and a digit only within the 9x9 board.
pub open spec fn entry_ok(ls: Seq<Seq<char>>, i: int, j: int) -> bool {
    char_ok(ls[i][j]) && (is_digit_char(ls[i][j]) ==> (i < 9 && j < 9))
}

/// Every entry of the pattern is acceptable.
pub open spec fn pattern_ok(ls: Seq<Seq<char>>) -> bool {
    forall|i: int, j: int|
        0 <= i < ls.len() && 0 <= j < ls[i].len() ==> #[trigger] entry_ok(ls, i, j)
}

/// The digit the pattern puts in row `r`, column `c`, with 0 for a cell the
/// pattern leaves empty or does not cover.
pub open spec fn pattern_cell(ls: Seq<Seq<char>>, r: int, c: int) -> u8 {
    if 0 <= r < ls.len() && 0 <= c < ls[r].len() && is_digit_char(ls[r][c]) {
        digit_val(ls[r][c])
    } else {
        0
    }
}

/// The entry at line `i`, column `j` exists and is not acceptable.
pub open spec fn entry_bad(ls: Seq<Seq<char>>, i: int, j: int) -> bool {
    0 <= i < ls.len() && 0 <= j < ls[i].len() && !entry_ok(ls, i, j)
}

/// Scan order over pattern positions: line by line, left to right.
pub open spec fn earlier(i1: int, j1: int, i2: int, j2: int) -> bool {
    i1 < i2 || (i1 == i2 && j1 < j2)
}

/// No bad entry comes before position `(i, j)` in scan order.
pub open spec fn first_bad(ls: Seq<Seq<char>>, i: int, j: int) -> bool {
    forall|i2: int, j2: int| #[trigger] entry_bad(ls, i2, j2) ==> !earlier(i2, j2, i, j)
}

/// The error reported for the bad entry at line `i`, column `j`.
pub open spec fn err_for(ls: Seq<Seq<char>>, i: int, j: int) -> LoadError {
    if !char_ok(ls[i][j]) {
        LoadError::BadChar { row: i as usize, col: j as usize, ch: ls[i][j] }
    } else {
        LoadError::DigitOutOfBoard { row: i as usize, col: j as usize }
    }
}

/// Position of the first newline in `t`, or `t.len()` if there is none.
pub open spec fn first_nl(t: Seq<char>) -> int
    decreases t.len(),
{
    if t.len() == 0 {
        0
    } else if t[0] == '\n' {
        0
    } else {
        1 + first_nl(t.drop_first())
    }
}

/// The lines of `t`: the segments between newlines, as `'\n'`-splitting
/// yields them. Text without a newline is one line, so text ending in a
/// newline has a final empty line.
pub open spec fn split_text(t: Seq<char>) -> Seq<Seq<char>>
    decreases t.len(),
{
    let k = first_nl(t);
    if 0 <= k < t.len() {
        seq![t.take(k)] + split_text(t.skip(k + 1))
    } else {
        seq![t]
    }
}

pub proof fn lemma_first_nl(t: Seq<char>)
    ensures
        0 <= first_nl(t) <= t.len(),
        forall|j: int| 0 <= j < first_nl(t) ==> t[j] != '\n',
        first_nl(t) < t.len() ==> t[first_nl(t)] == '\n',
    decreases t.len(),
{
    if t.len() != 0 && t[0] != '\n' {
        lemma_first_nl(t.drop_first());
        assert forall|j: int| 0 <= j < first_nl(t) implies t[j] != '\n' by {
            if j > 0 {
                assert(t.drop_first()[j - 1] != '\n');
            }
        }
        if first_nl(t) < t.len() {
            assert(t.drop_first()[first_nl(t.drop_first())] == '\n');
        }
    }
}

/// A newline-free text is a single line.
pub proof fn lemma_first_nl_all(t: Seq<char>)
    requires
        forall|j: int| 0 <= j < t.len() ==> t[j] != '\n',
    ensures
        first_nl(t) == t.len(),
        split_text(t) == seq![t],
    decreases t.len(),
{
    if t.len() != 0 {
        assert forall|j: int| 0 <= j < t.drop_first().len() implies t.drop_first()[j] != '\n' by {
            assert(t[j + 1] != '\n');
        }
        lemma_first_nl_all(t.drop_first());
    }
}

proof fn lemma_first_nl_concat(u: Seq<char>, w: Seq<char>)
    requires
        forall|j: int| 0 <= j < u.len() ==> u[j] != '\n',
    ensures
        first_nl(u + seq!['\n'] + w) == u.len(),
    decreases u.len(),
{
    let t = u + seq!['\n'] + w;
    if u.len() == 0 {
        assert(t[0] == '\n');
    } else {
        assert(t[0] == u[0]);
        assert(t[0] != '\n');
        assert(t.drop_first() =~= u.drop_first() + seq!['\n'] + w);
        assert forall|j: int| 0 <= j < u.drop_first().len() implies u.drop_first()[j] != '\n' by {
            assert(u[j + 1] != '\n');
        }
        lemma_first_nl_concat(u.drop_first(), w);
    }
}

/// Splitting consumes one newline-free line up to the first newline.
pub proof fn lemma_split_text_step(u: Seq<char>, w: Seq<char>)
    requires
        forall|j: int| 0 <= j < u.len() ==> u[j] != '\n',
    ensures
        split_text(u + seq!['\n'] + w) == seq![u] + split_text(w),
{
    let t = u + seq!['\n'] + w;
    lemma_first_nl_concat(u, w);
    let k = first_nl(t);
    assert(k == u.len());
    assert(0 <= k < t.len());
    assert(t.take(k) =~= u);
    assert(t.skip(k + 1) =~= w);
}

/// Why a pattern was rejected.
#[derive(Clone, Copy, Debug, PartialEq, Eq, Structural)]
pub enum LoadError {
    /// A character that is neither a digit 1 through 9 nor `*`.
    BadChar { row: usize, col: usize, ch: char },
    /// A digit at a position outside the 9x9 board.
    DigitOutOfBoard { row: usize, col: usize },
}

/// What a successful load promises: a well-formed board whose cells and
/// given marks are exactly what the pattern dictates.
pub open spec fn loaded_from(b: Board, ls: Seq<Seq<char>>) -> bool {
    &&& b.wf()
    &&& forall|r: int, c: int|
        in_range(r, c) ==> #[trigger] cell_at(b@.cells, r, c) == pattern_cell(ls, r, c)
    &&& forall|r: int, c: int|
        in_range(r, c) ==> (#[trigger] b@.given[idx_of(r, c)] <==> pattern_cell(ls, r, c) != 0)
}

/// Split pattern text into its lines on `'\n'`: a final newline yields a
/// final empty line, and text without a newline is a single line.
#[verifier::loop_isolation(false)]
pub fn split_lines(text: &Vec<char>) -> (lines: Vec<Vec<char>>)
    ensures
        lines_view(lines@) == split_text(text@),
{
    let mut lines: Vec<Vec<char>> = Vec::new();
    let mut cur: Vec<char> = Vec::new();
    let mut p: usize = 0;
    proof {
        assert(text@.skip(0) =~= text@);
        assert(lines_view(lines@) + split_text(text@) =~= split_text(text@));
    }
    while p < text.len()
        invariant
            p <= text.len(),
            cur@.len() <= p,
            cur@ == text@.subrange(p - cur@.len(), p as int),
            forall|j: int| 0 <= j < cur@.len() ==> cur@[j] != '\n',
            split_text(text@) == lines_view(lines@) + split_text(
                text@.skip(p - cur@.len()),
            ),
        decreases text.len() - p,
    {
        let ch = text[p];
        if ch == '\n' {
            proof {
                let start = p - cur@.len();
                let rest = text@.skip(p as int + 1);
                assert(text@.skip(start) =~= cur@ + seq!['\n'] + rest);
                lemma_split_text_step(cur@, rest);
                assert(lines_view(lines@.push(cur)) =~= lines_view(lines@) + seq![cur@]);
                assert((lines_view(lines@) + seq![cur@]) + split_text(rest) =~= lines_view(lines@)
                    + (seq![cur@] + split_text(rest)));
            }
            lines.push(cur);
            cur = Vec::new();
            proof {
                assert(cur@ =~= text@.subrange(p as int + 1 - cur@.len(), p as int + 1));
            }
        } else {
            cur.push(ch);
            proof {
                assert(cur@ =~= text@.subrange(p + 1 - cur@.len(), p as int + 1));
            }
        }
        p = p + 1;
    }
    proof {
        let start = p - cur@.len();
        assert(text@.skip(start) =~= cur@);
        lemma_first_nl_all(cur@);
        assert(lines_view(lines@.push(cur)) =~= lines_view(lines@) + seq![cur@]);
        assert(lines_view(lines@) + split_text(cur@) =~= lines_view(lines@.push(cur)));
    }
    lines.push(cur);
    lines
}

/// Build a board from the raw pattern text, split into lines on `'\n'` and
/// loaded as [`from_pattern`] loads them.
pub fn from_text(text: &Vec<char>) -> (res: Result<Board, LoadError>)
    ensures
        res.is_ok() <==> pattern_ok(split_text(text@)),
        res matches Ok(b) ==> loaded_from(b, split_text(text@)),
        res matches Err(e) ==> exists|i: int, j: int|
            #[trigger] entry_bad(split_text(text@), i, j) && e == err_for(split_text(text@), i, j)
                && first_bad(split_text(text@), i, j),
{
    let lines = split_lines(text);
    from_pattern(&lines)
}

/// Build a board from a pattern given line by line: each digit becomes a
/// given cell, each `*` an empty one. Fails, reporting the first offending
/// position in scan order, exactly when some entry is malformed or some
/// digit falls outside the board.
#[verifier::loop_isolation(false)]
pub fn from_pattern(lines: &Vec<Vec<char>>) -> (res: Result<Board, LoadError>)
    ensures
        res.is_ok() <==> pattern_ok(lines_view(lines@)),
        res matches Ok(b) ==> loaded_from(b, lines_view(lines@)),
        res matches Err(e) ==> exists|i: int, j: int|
            #[trigger] entry_bad(lines_view(lines@), i, j) && e == err_for(lines_view(lines@), i, j)
                && first_bad(lines_view(lines@), i, j),
{
    let ghost ls = lines_view(lines@);
    let mut board = Board::new();
    let mut i: usize = 0;
    while i < lines.len()
        invariant
            board.wf(),
            i <= lines.len(),
            forall|i2: int, j2: int|
                0 <= i2 < ls.len() && 0 <= j2 < ls[i2].len() && earlier(i2, j2, i as int, 0)
                    ==> #[trigger] entry_ok(ls, i2, j2),
            forall|r: int, c: int|
                in_range(r, c) ==> #[trigger] cell_at(board@.cells, r, c) == (if earlier(
                    r,
                    c,
                    i as int,
                    0,
                ) {
                    pattern_cell(ls, r, c)
                } else {
                    0
                }),
            forall|r: int, c: int|
                in_range(r, c) ==> (#[trigger] board@.given[idx_of(r, c)] <==> (earlier(
                    r,
                    c,
                    i as int,
                    0,
                ) && pattern_cell(ls, r, c) != 0)),
        decreases lines.len() - i,
    {
        let line = &lines[i];
        proof {
            assert(ls[i as int] == line@);
        }
        let mut j: usize = 0;
        while j < line.len()
            invariant
                board.wf(),
                i < lines.len(),
                j <= line.len(),
                forall|i2: int, j2: int|
                    0 <= i2 < ls.len() && 0 <= j2 < ls[i2].len() && earlier(
                        i2,
                        j2,
                        i as int,
                        j as int,
                    ) ==> #[trigger] entry_ok(ls, i2, j2),
                forall|r: int, c: int|
                    in_range(r, c) ==> #[trigger] cell_at(board@.cells, r, c) == (if earlier(
                        r,
                        c,
                        i as int,
                        j as int,
                    ) {
                        pattern_cell(ls, r, c)
                    } else {
                        0
                    }),
                forall|r: int, c: int|
                    in_range(r, c) ==> (#[trigger] board@.given[idx_of(r, c)] <==> (earlier(
                        r,
                        c,
                        i as int,
                        j as int,
                    ) && pattern_cell(ls, r, c) != 0)),
            decreases line.len() - j,
        {
            let ch = line[j];
            let digit: u8 = match ch {
                '1' => 1,
                '2' => 2,
                '3' => 3,
                '4' => 4,
                '5' => 5,
                '6' => 6,
                '7' => 7,
                '8' => 8,
                '9' => 9,
                '*' => 0,
                _ => {
                    proof {
                        assert(entry_bad(ls, i as int, j as int));
                        assert(!pattern_ok(ls));
                    }
                    return Err(LoadError::BadChar { row: i, col: j, ch });
                },
            };
            if digit != 0 {
                if i >= 9 || j >= 9 {
                    proof {
                        assert(is_digit_char(ls[i as int][j as int]));
                        assert(entry_bad(ls, i as int, j as int));
                        assert(!pattern_ok(ls));
                    }
                    return Err(LoadError::DigitOutOfBoard { row: i, col: j });
                }
                proof {
                    assert(cell_at(board@.cells, i as int, j as int) == 0);
                }
                let ghost prev = board@;
                board.place(i, j, digit);
                board.mark_given(i, j);
                proof {
                    assert(digit_val(ls[i as int][j as int]) == digit);
                    assert(pattern_cell(ls, i as int, j as int) == digit);
                    assert(board@.cells == prev.cells.update(idx_of(i as int, j as int), digit));
                    assert(board@.given == prev.given.update(idx_of(i as int, j as int), true));
                    assert forall|r: int, c: int| in_range(r, c) implies #[trigger] cell_at(
                        board@.cells,
                        r,
                        c,
                    ) == (if earlier(r, c, i as int, j as int + 1) {
                        pattern_cell(ls, r, c)
                    } else {
                        0
                    }) by {
                        if r == i as int && c == j as int {
                            assert(cell_at(board@.cells, r, c) == digit);
                        } else {
                            assert(idx_of(r, c) != idx_of(i as int, j as int));
                            assert(cell_at(board@.cells, r, c) == cell_at(prev.cells, r, c));
                        }
                    }
                    assert forall|r: int, c: int| in_range(r, c) implies (#[trigger] board@.given[
                        idx_of(r, c)] <==> (earlier(r, c, i as int, j as int + 1) && pattern_cell(
                        ls,
                        r,
                        c,
                    ) != 0)) by {
                        if r == i as int && c == j as int {
                            assert(board@.given[idx_of(r, c)]);
                        } else {
                            assert(idx_of(r, c) != idx_of(i as int, j as int));
                            assert(board@.given[idx_of(r, c)] == prev.given[idx_of(r, c)]);
                        }
                    }
                }
            } else {
                proof {
                    assert(pattern_cell(ls, i as int, j as int) == 0);
                    assert forall|r: int, c: int| in_range(r, c) implies #[trigger] cell_at(
                        board@.cells,
                        r,
                        c,
                    ) == (if earlier(r, c, i as int, j as int + 1) {
                        pattern_cell(ls, r, c)
                    } else {
                        0
                    }) by {
                        if r == i as int && c == j as int {
                            assert(!earlier(r, c, i as int, j as int));
                            assert(cell_at(board@.cells, r, c) == 0);
                        }
                    }
                }
            }
            proof {
                assert forall|i2: int, j2: int|
                    0 <= i2 < ls.len() && 0 <= j2 < ls[i2].len() && earlier(
                        i2,
                        j2,
                        i as int,
                        j as int + 1,
                    ) implies #[trigger] entry_ok(ls, i2, j2) by {
                    if i2 == i as int && j2 == j as int {
                        assert(entry_ok(ls, i2, j2));
                    }
                }
            }
            j = j + 1;
        }
        proof {
            assert forall|r: int, c: int| in_range(r, c) implies #[trigger] cell_at(
                board@.cells,
                r,
                c,
            ) == (if earlier(r, c, i as int + 1, 0) {
                pattern_cell(ls, r, c)
            } else {
                0
            }) by {
                if r == i as int && c >= j as int {
                    assert(pattern_cell(ls, r, c) == 0);
                }
            }
            assert forall|r: int, c: int| in_range(r, c) implies (#[trigger] board@.given[idx_of(
                r,
                c,
            )] <==> (earlier(r, c, i as int + 1, 0) && pattern_cell(ls, r, c) != 0)) by {
                if r == i as int && c >= j as int {
                    assert(pattern_cell(ls, r, c) == 0);
                }
            }
            assert forall|i2: int, j2: int|
                0 <= i2 < ls.len() && 0 <= j2 < ls[i2].len() && earlier(i2, j2, i as int + 1, 0)
                    implies #[trigger] entry_ok(ls, i2, j2) by {}
        }
        i = i + 1;
    }
    proof {
        assert forall|r: int, c: int| in_range(r, c) implies #[trigger] cell_at(board@.cells, r, c)
            == pattern_cell(ls, r, c) by {
            if !earlier(r, c, i as int, 0) {
                assert(r >= ls.len());
                assert(pattern_cell(ls, r, c) == 0);
            }
        }
        assert forall|r: int, c: int| in_range(r, c) implies (#[trigger] board@.given[idx_of(r, c)]
            <==> pattern_cell(ls, r, c) != 0) by {
            if !earlier(r, c, i as int, 0) {
                assert(r >= ls.len());
                assert(pattern_cell(ls, r, c) == 0);
            }
        }
    }
    Ok(board)
}

} // verus!
