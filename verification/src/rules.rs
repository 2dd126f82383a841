//! The sudoku rules as mathematical predicates over a flat grid.
//!
//! A grid is a `Seq<u8>` of length 81 in row-major order; value 0 stands for
//! an empty cell and 1 through 9 for digits.

use vstd::prelude::*;

verus! {

/// Flat index of the cell in row `r`, column `c`.
pub open spec fn idx_of(r: int, c: int) -> int {
    r * 9 + c
}

/// Index of the 3x3 block containing the cell in row `r`, column `c`.
pub open spec fn block_of(r: int, c: int) -> int {
    (r / 3) * 3 + c / 3
}

pub open spec fn in_range(r: int, c: int) -> bool {
    0 <= r < 9 && 0 <= c < 9
}

/// The value of the cell in row `r`, column `c`.
pub open spec fn cell_at(s: Seq<u8>, r: int, c: int) -> u8 {
    s[idx_of(r, c)]
}

/// Every cell holds 0 (empty) or a digit 1 through 9.
pub open spec fn cells_wf(s: Seq<u8>) -> bool {
    s.len() == 81 && forall|i: int| 0 <= i < 81 ==> #[trigger] s[i] <= 9
}

/// Every cell holds a digit (no cell is empty).
pub open spec fn cells_full(s: Seq<u8>) -> bool {
    forall|i: int| 0 <= i < 81 ==> 1 <= #[trigger] s[i]
}

/// All cells at flat positions below `p` hold a digit.
pub open spec fn filled_below(s: Seq<u8>, p: int) -> bool {
    forall|i: int| 0 <= i < p ==> #[trigger] s[i] != 0
}

/// Digit `d` occurs somewhere in row `r`.
pub open spec fn row_has(s: Seq<u8>, r: int, d: int) -> bool {
    exists|c: int| 0 <= c < 9 && #[trigger] cell_at(s, r, c) == d
}

/// Digit `d` occurs somewhere in column `c`.
pub open spec fn col_has(s: Seq<u8>, c: int, d: int) -> bool {
    exists|r: int| 0 <= r < 9 && #[trigger] cell_at(s, r, c) == d
}

/// Digit `d` occurs somewhere in block `b`.
pub open spec fn block_has(s: Seq<u8>, b: int, d: int) -> bool {
    exists|r: int, c: int|
        in_range(r, c) && block_of(r, c) == b && #[trigger] cell_at(s, r, c) == d
}

/// No digit occurs twice in any row.
pub open spec fn no_row_dup(s: Seq<u8>) -> bool {
    forall|r: int, c1: int, c2: int|
        in_range(r, c1) && in_range(r, c2) && c1 != c2 && #[trigger] cell_at(s, r, c1) != 0
            ==> cell_at(s, r, c1) != #[trigger] cell_at(s, r, c2)
}

/// No digit occurs twice in any column.
pub open spec fn no_col_dup(s: Seq<u8>) -> bool {
    forall|c: int, r1: int, r2: int|
        in_range(r1, c) && in_range(r2, c) && r1 != r2 && #[trigger] cell_at(s, r1, c) != 0
            ==> cell_at(s, r1, c) != #[trigger] cell_at(s, r2, c)
}

/// No digit occurs twice in any 3x3 block.
pub open spec fn no_block_dup(s: Seq<u8>) -> bool {
    forall|r1: int, c1: int, r2: int, c2: int|
        in_range(r1, c1) && in_range(r2, c2) && !(r1 == r2 && c1 == c2)
            && block_of(r1, c1) == block_of(r2, c2) && #[trigger] cell_at(s, r1, c1) != 0
            ==> cell_at(s, r1, c1) != #[trigger] cell_at(s, r2, c2)
}

/// The sudoku constraint: no digit appears twice in any row, column or block.
pub open spec fn valid_cells(s: Seq<u8>) -> bool {
    no_row_dup(s) && no_col_dup(s) && no_block_dup(s)
}

/// `s` agrees with `b` on every cell that is occupied in `b`.
pub open spec fn extends(s: Seq<u8>, b: Seq<u8>) -> bool {
    forall|i: int| 0 <= i < 81 && b[i] != 0 ==> #[trigger] s[i] == b[i]
}

/// `s` is a complete valid solution of the puzzle whose current grid is `b`:
/// a fully filled, constraint-respecting grid that keeps every occupied cell
/// of `b` as it is.
pub open spec fn is_solution_for(s: Seq<u8>, b: Seq<u8>) -> bool {
    cells_wf(s) && cells_full(s) && valid_cells(s) && extends(s, b)
}

/// `a` and `b` agree on all flat positions below `k`.
pub open spec fn prefix_same(a: Seq<u8>, b: Seq<u8>, k: int) -> bool {
    forall|j: int| 0 <= j < k ==> #[trigger] a[j] == b[j]
}

/// Row-major lexicographic order on grids: `a` comes strictly before `b`.
pub open spec fn lex_lt(a: Seq<u8>, b: Seq<u8>) -> bool {
    exists|k: int|
        #![trigger a[k], b[k]]
        0 <= k < 81 && prefix_same(a, b, k) && a[k] < b[k]
}

/// No grid precedes itself.
pub proof fn lemma_lex_irreflexive(a: Seq<u8>)
    ensures
        !lex_lt(a, a),
{
    if lex_lt(a, a) {
        let k = choose|k: int| 0 <= k < 81 && prefix_same(a, a, k) && #[trigger] a[k] < a[k];
    }
}

/// The lexicographic order is asymmetric.
pub proof fn lemma_lex_asymmetric(a: Seq<u8>, b: Seq<u8>)
    requires
        lex_lt(a, b),
    ensures
        !lex_lt(b, a),
{
    if lex_lt(b, a) {
        let k1 = choose|k: int| 0 <= k < 81 && prefix_same(a, b, k) && #[trigger] a[k] < b[k];
        let k2 = choose|k: int| 0 <= k < 81 && prefix_same(b, a, k) && #[trigger] b[k] < a[k];
        if k1 < k2 {
            assert(b[k1] == a[k1]);
        } else if k2 < k1 {
            assert(a[k2] == b[k2]);
        }
    }
}

/// Two distinct grids are ordered one way or the other.
pub proof fn lemma_lex_total(a: Seq<u8>, b: Seq<u8>)
    requires
        a.len() == 81,
        b.len() == 81,
        a != b,
    ensures
        lex_lt(a, b) || lex_lt(b, a),
{
    lemma_lex_total_from(a, b, 0);
}

proof fn lemma_lex_total_from(a: Seq<u8>, b: Seq<u8>, k: int)
    requires
        a.len() == 81,
        b.len() == 81,
        a != b,
        0 <= k <= 81,
        prefix_same(a, b, k),
    ensures
        lex_lt(a, b) || lex_lt(b, a),
    decreases 81 - k,
{
    if k == 81 {
        assert(a =~= b);
    } else if a[k] < b[k] {
        assert(lex_lt(a, b));
    } else if b[k] < a[k] {
        assert(prefix_same(b, a, k)) by {
            assert forall|j: int| 0 <= j < k implies #[trigger] b[j] == a[j] by {
                assert(a[j] == b[j]);
            }
        }
        assert(lex_lt(b, a));
    } else {
        assert(prefix_same(a, b, k + 1)) by {
            assert forall|j: int| 0 <= j < k + 1 implies #[trigger] a[j] == b[j] by {
                if j < k {
                    assert(a[j] == b[j]);
                }
            }
        }
        lemma_lex_total_from(a, b, k + 1);
    }
}

/// The one pairwise constraint: two distinct cells that share a row, a column
/// or a block may not hold the same digit.
pub open spec fn pair_ok(s: Seq<u8>, r1: int, c1: int, r2: int, c2: int) -> bool {
    (!(r1 == r2 && c1 == c2) && (r1 == r2 || c1 == c2 || block_of(r1, c1) == block_of(r2, c2))
        && cell_at(s, r1, c1) != 0) ==> cell_at(s, r1, c1) != cell_at(s, r2, c2)
}

/// `valid_cells` is exactly "every pair of cells is fine".
pub proof fn lemma_valid_cells_iff_pairs(s: Seq<u8>)
    ensures
        valid_cells(s) <==> (forall|r1: int, c1: int, r2: int, c2: int|
            in_range(r1, c1) && in_range(r2, c2) ==> #[trigger] pair_ok(s, r1, c1, r2, c2)),
{
    if valid_cells(s) {
        assert forall|r1: int, c1: int, r2: int, c2: int|
            in_range(r1, c1) && in_range(r2, c2) implies #[trigger] pair_ok(s, r1, c1, r2, c2) by {
            if !(r1 == r2 && c1 == c2) && cell_at(s, r1, c1) != 0 {
                if r1 == r2 {
                    assert(cell_at(s, r1, c1) != cell_at(s, r2, c2));
                } else if c1 == c2 {
                    assert(cell_at(s, r1, c1) != cell_at(s, r2, c2));
                } else if block_of(r1, c1) == block_of(r2, c2) {
                    assert(cell_at(s, r1, c1) != cell_at(s, r2, c2));
                }
            }
        }
    }
    if forall|r1: int, c1: int, r2: int, c2: int|
        in_range(r1, c1) && in_range(r2, c2) ==> #[trigger] pair_ok(s, r1, c1, r2, c2) {
        assert forall|r: int, c1: int, c2: int|
            in_range(r, c1) && in_range(r, c2) && c1 != c2 && #[trigger] cell_at(s, r, c1) != 0
                implies cell_at(s, r, c1) != #[trigger] cell_at(s, r, c2) by {
            assert(pair_ok(s, r, c1, r, c2));
        }
        assert forall|c: int, r1: int, r2: int|
            in_range(r1, c) && in_range(r2, c) && r1 != r2 && #[trigger] cell_at(s, r1, c) != 0
                implies cell_at(s, r1, c) != #[trigger] cell_at(s, r2, c) by {
            assert(pair_ok(s, r1, c, r2, c));
        }
        assert forall|r1: int, c1: int, r2: int, c2: int|
            in_range(r1, c1) && in_range(r2, c2) && !(r1 == r2 && c1 == c2)
                && block_of(r1, c1) == block_of(r2, c2) && #[trigger] cell_at(s, r1, c1) != 0
                implies cell_at(s, r1, c1) != #[trigger] cell_at(s, r2, c2) by {
            assert(pair_ok(s, r1, c1, r2, c2));
        }
    }
}

/// A grid that breaks the sudoku constraint has no solution: any full grid
/// that keeps its occupied cells inherits the broken pair.
pub proof fn lemma_invalid_no_solutions(b: Seq<u8>)
    requires
        b.len() == 81,
        !valid_cells(b),
    ensures
        forall|s: Seq<u8>| !#[trigger] is_solution_for(s, b),
{
    assert forall|s: Seq<u8>| !#[trigger] is_solution_for(s, b) by {
        if is_solution_for(s, b) {
            if !no_row_dup(b) {
                let (r, c1, c2) = choose|r: int, c1: int, c2: int|
                    in_range(r, c1) && in_range(r, c2) && c1 != c2
                        && #[trigger] cell_at(b, r, c1) != 0
                        && cell_at(b, r, c1) == #[trigger] cell_at(b, r, c2);
                assert(cell_at(s, r, c1) == cell_at(b, r, c1));
                assert(cell_at(s, r, c2) == cell_at(b, r, c2));
                assert(cell_at(s, r, c1) != cell_at(s, r, c2));
            } else if !no_col_dup(b) {
                let (c, r1, r2) = choose|c: int, r1: int, r2: int|
                    in_range(r1, c) && in_range(r2, c) && r1 != r2
                        && #[trigger] cell_at(b, r1, c) != 0
                        && cell_at(b, r1, c) == #[trigger] cell_at(b, r2, c);
                assert(cell_at(s, r1, c) == cell_at(b, r1, c));
                assert(cell_at(s, r2, c) == cell_at(b, r2, c));
                assert(cell_at(s, r1, c) != cell_at(s, r2, c));
            } else {
                let (r1, c1, r2, c2) = choose|r1: int, c1: int, r2: int, c2: int|
                    in_range(r1, c1) && in_range(r2, c2) && !(r1 == r2 && c1 == c2)
                        && block_of(r1, c1) == block_of(r2, c2)
                        && #[trigger] cell_at(b, r1, c1) != 0
                        && cell_at(b, r1, c1) == #[trigger] cell_at(b, r2, c2);
                assert(cell_at(s, r1, c1) == cell_at(b, r1, c1));
                assert(cell_at(s, r2, c2) == cell_at(b, r2, c2));
                assert(cell_at(s, r1, c1) != cell_at(s, r2, c2));
            }
        }
    }
}

} // verus!
