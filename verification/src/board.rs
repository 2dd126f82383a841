//! The board: a 9x9 grid of optional digits, a parallel grid of "given"
//! marks, and per-row, per-column and per-block used-digit sets that mirror
//! the grid so that every legality query is answered in constant time.

use vstd::prelude::*;

use crate::rules::{
    block_of, cell_at, cells_wf, idx_of, in_range, block_has, col_has, row_has, no_block_dup,
    no_col_dup, no_row_dup, pair_ok, valid_cells, lemma_valid_cells_iff_pairs,
};

verus! {

/// Membership of digit `d` in the used-digit set of group `g` (a row, a
/// column, or a block), with the nine sets of one family stored flat.
pub open spec fn used_at(u: Seq<bool>, g: int, d: int) -> bool {
    u[g * 10 + d]
}

/// The mathematical value of a [`Board`]: its five stores as sequences.
#[verifier::ext_equal]
pub ghost struct BoardView {
    pub cells: Seq<u8>,
    pub given: Seq<bool>,
    pub rows: Seq<bool>,
    pub cols: Seq<bool>,
    pub blocks: Seq<bool>,
}

impl BoardView {
    /// Well-formedness: the stores have their fixed sizes, every cell is
    /// empty or holds a digit 1 through 9, and each used-digit set contains
    /// exactly the digits that occur somewhere in its row, column or block.
    pub open spec fn wf(self) -> bool {
        &&& self.cells.len() == 81
        &&& self.given.len() == 81
        &&& self.rows.len() == 90
        &&& self.cols.len() == 90
        &&& self.blocks.len() == 90
        &&& cells_wf(self.cells)
        &&& forall|r: int, d: int|
            #![trigger used_at(self.rows, r, d)]
            #![trigger row_has(self.cells, r, d)]
            0 <= r < 9 && 1 <= d <= 9
                ==> (used_at(self.rows, r, d) <==> row_has(self.cells, r, d))
        &&& forall|c: int, d: int|
            #![trigger used_at(self.cols, c, d)]
            #![trigger col_has(self.cells, c, d)]
            0 <= c < 9 && 1 <= d <= 9
                ==> (used_at(self.cols, c, d) <==> col_has(self.cells, c, d))
        &&& forall|b: int, d: int|
            #![trigger used_at(self.blocks, b, d)]
            #![trigger block_has(self.cells, b, d)]
            0 <= b < 9 && 1 <= d <= 9
                ==> (used_at(self.blocks, b, d) <==> block_has(self.cells, b, d))
    }

    /// The cell in row `r`, column `c` is empty and digit `d` is absent from
    /// the three used-digit sets that watch over that cell.
    pub open spec fn can_place_at(self, r: int, c: int, d: int) -> bool {
        &&& cell_at(self.cells, r, c) == 0
        &&& !used_at(self.rows, r, d)
        &&& !used_at(self.cols, c, d)
        &&& !used_at(self.blocks, block_of(r, c), d)
    }

    /// The board after digit `d` is written into the cell in row `r`,
    /// column `c` and recorded in the three used-digit sets.
    pub open spec fn place_at(self, r: int, c: int, d: u8) -> BoardView {
        BoardView {
            cells: self.cells.update(idx_of(r, c), d),
            given: self.given,
            rows: self.rows.update(r * 10 + d as int, true),
            cols: self.cols.update(c * 10 + d as int, true),
            blocks: self.blocks.update(block_of(r, c) * 10 + d as int, true),
        }
    }

    /// The board after the cell in row `r`, column `c` is cleared and its
    /// digit is withdrawn from the three used-digit sets.
    pub open spec fn unplace_at(self, r: int, c: int) -> BoardView {
        let d = self.cells[idx_of(r, c)];
        BoardView {
            cells: self.cells.update(idx_of(r, c), 0u8),
            given: self.given,
            rows: self.rows.update(r * 10 + d as int, false),
            cols: self.cols.update(c * 10 + d as int, false),
            blocks: self.blocks.update(block_of(r, c) * 10 + d as int, false),
        }
    }

    /// The board after the cell in row `r`, column `c` is marked as a given
    /// clue.
    pub open spec fn mark_given_at(self, r: int, c: int) -> BoardView {
        BoardView { given: self.given.update(idx_of(r, c), true), ..self }
    }

    /// The digit of the cell in row `r`, column `c` occurs nowhere else in
    /// that cell's row, column or block.
    pub open spec fn sole_in_groups(self, r: int, c: int) -> bool {
        &&& forall|c2: int|
            0 <= c2 < 9 && c2 != c
                ==> #[trigger] cell_at(self.cells, r, c2) != cell_at(self.cells, r, c)
        &&& forall|r2: int|
            0 <= r2 < 9 && r2 != r
                ==> #[trigger] cell_at(self.cells, r2, c) != cell_at(self.cells, r, c)
        &&& forall|r2: int, c2: int|
            in_range(r2, c2) && !(r2 == r && c2 == c) && block_of(r2, c2) == block_of(r, c)
                ==> #[trigger] cell_at(self.cells, r2, c2) != cell_at(self.cells, r, c)
    }
}

/// The 9x9 sudoku board. Cells are stored row-major with 0 for "empty";
/// each family of used-digit sets is stored flat, ten slots per group.
#[derive(Debug)]
pub struct Board {
    cells: Vec<u8>,
    given: Vec<bool>,
    row_used: Vec<bool>,
    col_used: Vec<bool>,
    block_used: Vec<bool>,
}

impl View for Board {
    type V = BoardView;

    closed spec fn view(&self) -> BoardView {
        BoardView {
            cells: self.cells@,
            given: self.given@,
            rows: self.row_used@,
            cols: self.col_used@,
            blocks: self.block_used@,
        }
    }
}

impl Board {
    pub open spec fn wf(&self) -> bool {
        self@.wf()
    }

    /// An empty board: all cells empty, no cell given, all sets empty.
    pub fn new() -> (b: Board)
        ensures
            b.wf(),
            b@.cells.len() == 81,
            forall|i: int| 0 <= i < 81 ==> #[trigger] b@.cells[i] == 0,
            forall|i: int| 0 <= i < 81 ==> #[trigger] b@.given[i] == false,
    {
        let cells = zeroes_81();
        let given = falses(81);
        let row_used = falses(90);
        let col_used = falses(90);
        let block_used = falses(90);
        let b = Board { cells, given, row_used, col_used, block_used };
        proof {
            assert forall|r: int, d: int|
                #![trigger used_at(b@.rows, r, d)]
                #![trigger row_has(b@.cells, r, d)]
                0 <= r < 9 && 1 <= d <= 9 implies (used_at(b@.rows, r, d) <==> row_has(
                b@.cells,
                r,
                d,
            )) by {
                assert(!b@.rows[r * 10 + d]);
                assert(forall|c: int| 0 <= c < 9 ==> #[trigger] cell_at(b@.cells, r, c) == 0);
            }
            assert forall|c: int, d: int|
                #![trigger used_at(b@.cols, c, d)]
                #![trigger col_has(b@.cells, c, d)]
                0 <= c < 9 && 1 <= d <= 9 implies (used_at(b@.cols, c, d) <==> col_has(
                b@.cells,
                c,
                d,
            )) by {
                assert(!b@.cols[c * 10 + d]);
                assert(forall|r: int| 0 <= r < 9 ==> #[trigger] cell_at(b@.cells, r, c) == 0);
            }
            assert forall|bb: int, d: int|
                #![trigger used_at(b@.blocks, bb, d)]
                #![trigger block_has(b@.cells, bb, d)]
                0 <= bb < 9 && 1 <= d <= 9 implies (used_at(b@.blocks, bb, d) <==> block_has(
                b@.cells,
                bb,
                d,
            )) by {
                assert(!b@.blocks[bb * 10 + d]);
                assert(forall|r: int, c: int|
                    in_range(r, c) ==> #[trigger] cell_at(b@.cells, r, c) == 0);
            }
        }
        b
    }

    /// The cell in row `r`, column `c` holds no digit.
    pub fn is_empty(&self, r: usize, c: usize) -> (e: bool)
        requires
            self.wf(),
            r < 9,
            c < 9,
        ensures
            e == (cell_at(self@.cells, r as int, c as int) == 0),
    {
        self.cells[r * 9 + c] == 0
    }

    /// The cell in row `r`, column `c` was fixed by the input puzzle.
    pub fn is_given_cell(&self, r: usize, c: usize) -> (g: bool)
        requires
            self.wf(),
            r < 9,
            c < 9,
        ensures
            g == self@.given[idx_of(r as int, c as int)],
    {
        self.given[r * 9 + c]
    }

    /// The digit of the cell in row `r`, column `c`, or `None` if empty.
    pub fn digit_at(&self, r: usize, c: usize) -> (o: Option<u8>)
        requires
            self.wf(),
            r < 9,
            c < 9,
        ensures
            o == (if cell_at(self@.cells, r as int, c as int) == 0 {
                None::<u8>
            } else {
                Some(cell_at(self@.cells, r as int, c as int))
            }),
    {
        let v = self.cells[r * 9 + c];
        if v == 0 {
            None
        } else {
            Some(v)
        }
    }

    /// True iff writing digit `d` into the empty cell in row `r`, column `c`
    /// would keep the sudoku constraint: the cell is empty and `d` is absent
    /// from the cell's row, column and block. Answered from the used-digit
    /// sets in constant time.
    pub fn can_place(&self, r: usize, c: usize, d: u8) -> (ok: bool)
        requires
            self.wf(),
            r < 9,
            c < 9,
            1 <= d <= 9,
        ensures
            ok == self@.can_place_at(r as int, c as int, d as int),
    {
        let du: usize = d as usize;
        if self.cells[r * 9 + c] != 0 {
            return false;
        }
        if self.row_used[r * 10 + du] {
            return false;
        }
        if self.col_used[c * 10 + du] {
            return false;
        }
        let b: usize = (r / 3) * 3 + c / 3;
        if self.block_used[b * 10 + du] {
            return false;
        }
        true
    }

    /// Clear the occupied cell in row `r`, column `c` and withdraw its digit
    /// from the three used-digit sets. The digit must occur nowhere else in
    /// the cell's row, column or block, which invariant-respecting callers
    /// always guarantee: the sets record each digit once per group.
    pub fn unplace(&mut self, r: usize, c: usize)
        requires
            old(self).wf(),
            r < 9,
            c < 9,
            cell_at(old(self)@.cells, r as int, c as int) != 0,
            old(self)@.sole_in_groups(r as int, c as int),
        ensures
            final(self).wf(),
            final(self)@ == old(self)@.unplace_at(r as int, c as int),
            valid_cells(old(self)@.cells) ==> valid_cells(final(self)@.cells),
    {
        let d = self.cells[r * 9 + c];
        let du: usize = d as usize;
        self.cells[r * 9 + c] = 0;
        self.row_used[r * 10 + du] = false;
        self.col_used[c * 10 + du] = false;
        let b: usize = (r / 3) * 3 + c / 3;
        self.block_used[b * 10 + du] = false;
        proof {
            assert(self@ =~= old(self)@.unplace_at(r as int, c as int));
            lemma_unplace_at_wf(old(self)@, r as int, c as int);
            if valid_cells(old(self)@.cells) {
                lemma_unplace_at_valid(old(self)@, r as int, c as int);
            }
        }
    }

    /// Mark the cell in row `r`, column `c` as a given clue of the puzzle.
    pub fn mark_given(&mut self, r: usize, c: usize)
        requires
            old(self).wf(),
            r < 9,
            c < 9,
        ensures
            final(self).wf(),
            final(self)@ == old(self)@.mark_given_at(r as int, c as int),
    {
        self.given[r * 9 + c] = true;
        proof {
            assert(self@ =~= old(self)@.mark_given_at(r as int, c as int));
        }
    }

    /// A copy of the grid, row-major, with 0 for an empty cell.
    pub fn snapshot(&self) -> (v: Vec<u8>)
        requires
            self.wf(),
        ensures
            v@ == self@.cells,
    {
        let mut v: Vec<u8> = Vec::new();
        let mut i: usize = 0;
        while i < 81
            invariant
                self.wf(),
                i <= 81,
                v@.len() == i,
                forall|j: int| 0 <= j < i ==> #[trigger] v@[j] == self@.cells[j],
            decreases 81 - i,
        {
            v.push(self.cells[i]);
            i = i + 1;
        }
        proof {
            assert(v@ =~= self@.cells);
        }
        v
    }

    /// True iff the grid as it stands breaks no sudoku constraint: no digit
    /// occurs twice in any row, column or block.
    pub fn is_valid(&self) -> (ok: bool)
        requires
            self.wf(),
        ensures
            ok == valid_cells(self@.cells),
    {
        proof {
            lemma_valid_cells_iff_pairs(self@.cells);
        }
        let mut r1: usize = 0;
        while r1 < 9
            invariant
                self.wf(),
                r1 <= 9,
                forall|a: int, b: int, e: int, f: int|
                    0 <= a < r1 && 0 <= b < 9 && 0 <= e < 9 && 0 <= f < 9
                        ==> #[trigger] pair_ok(self@.cells, a, b, e, f),
            decreases 9 - r1,
        {
            let mut c1: usize = 0;
            while c1 < 9
                invariant
                    self.wf(),
                    r1 < 9,
                    c1 <= 9,
                    forall|b: int, e: int, f: int|
                        0 <= b < c1 && 0 <= e < 9 && 0 <= f < 9
                            ==> #[trigger] pair_ok(self@.cells, r1 as int, b, e, f),
                decreases 9 - c1,
            {
                let mut r2: usize = 0;
                while r2 < 9
                    invariant
                        self.wf(),
                        r1 < 9,
                        c1 < 9,
                        r2 <= 9,
                        forall|e: int, f: int|
                            0 <= e < r2 && 0 <= f < 9
                                ==> #[trigger] pair_ok(self@.cells, r1 as int, c1 as int, e, f),
                    decreases 9 - r2,
                {
                    let mut c2: usize = 0;
                    while c2 < 9
                        invariant
                            self.wf(),
                            r1 < 9,
                            c1 < 9,
                            r2 < 9,
                            c2 <= 9,
                            forall|f: int|
                                0 <= f < c2
                                    ==> #[trigger] pair_ok(
                                    self@.cells,
                                    r1 as int,
                                    c1 as int,
                                    r2 as int,
                                    f,
                                ),
                        decreases 9 - c2,
                    {
                        let v1 = self.cells[r1 * 9 + c1];
                        if v1 != 0 && !(r1 == r2 && c1 == c2) {
                            let same = r1 == r2 || c1 == c2 || (r1 / 3) * 3 + c1 / 3 == (r2 / 3) * 3
                                + c2 / 3;
                            if same && v1 == self.cells[r2 * 9 + c2] {
                                proof {
                                    assert(!pair_ok(
                                        self@.cells,
                                        r1 as int,
                                        c1 as int,
                                        r2 as int,
                                        c2 as int,
                                    ));
                                }
                                return false;
                            }
                        }
                        proof {
                            assert(pair_ok(
                                self@.cells,
                                r1 as int,
                                c1 as int,
                                r2 as int,
                                c2 as int,
                            ));
                        }
                        c2 = c2 + 1;
                    }
                    r2 = r2 + 1;
                }
                c1 = c1 + 1;
            }
            r1 = r1 + 1;
        }
        true
    }

    /// Write digit `d` into the empty cell in row `r`, column `c` and record
    /// it in the three used-digit sets.
    pub fn place(&mut self, r: usize, c: usize, d: u8)
        requires
            old(self).wf(),
            r < 9,
            c < 9,
            1 <= d <= 9,
            cell_at(old(self)@.cells, r as int, c as int) == 0,
        ensures
            final(self).wf(),
            final(self)@ == old(self)@.place_at(r as int, c as int, d),
            old(self)@.can_place_at(r as int, c as int, d as int) && valid_cells(old(self)@.cells)
                ==> valid_cells(final(self)@.cells),
    {
        let du: usize = d as usize;
        self.cells[r * 9 + c] = d;
        self.row_used[r * 10 + du] = true;
        self.col_used[c * 10 + du] = true;
        let b: usize = (r / 3) * 3 + c / 3;
        self.block_used[b * 10 + du] = true;
        proof {
            assert(self@ =~= old(self)@.place_at(r as int, c as int, d));
            lemma_place_at_wf(old(self)@, r as int, c as int, d);
            if old(self)@.can_place_at(r as int, c as int, d as int) && valid_cells(
                old(self)@.cells,
            ) {
                lemma_place_at_valid(old(self)@, r as int, c as int, d);
            }
        }
    }
}

/// A vector of `n` `false` values.
fn falses(n: usize) -> (v: Vec<bool>)
    ensures
        v@.len() == n,
        forall|i: int| 0 <= i < n ==> #[trigger] v@[i] == false,
{
    let mut v: Vec<bool> = Vec::new();
    let mut i: usize = 0;
    while i < n
        invariant
            i <= n,
            v@.len() == i,
            forall|j: int| 0 <= j < i ==> #[trigger] v@[j] == false,
        decreases n - i,
    {
        v.push(false);
        i = i + 1;
    }
    v
}

/// A vector of 81 zero cells.
fn zeroes_81() -> (v: Vec<u8>)
    ensures
        v@.len() == 81,
        forall|i: int| 0 <= i < 81 ==> #[trigger] v@[i] == 0,
{
    let mut v: Vec<u8> = Vec::new();
    let mut i: usize = 0;
    while i < 81
        invariant
            i <= 81,
            v@.len() == i,
            forall|j: int| 0 <= j < i ==> #[trigger] v@[j] == 0,
        decreases 81 - i,
    {
        v.push(0);
        i = i + 1;
    }
    v
}

/// Writing a digit into an empty cell keeps the board well formed.
pub proof fn lemma_place_at_wf(v: BoardView, r: int, c: int, d: u8)
    requires
        v.wf(),
        in_range(r, c),
        1 <= d <= 9,
        v.cells[idx_of(r, c)] == 0,
    ensures
        v.place_at(r, c, d).wf(),
{
    let w = v.place_at(r, c, d);
    let p = idx_of(r, c);
    assert(cells_wf(w.cells)) by {
        assert forall|i: int| 0 <= i < 81 implies #[trigger] w.cells[i] <= 9 by {
            if i != p {
                assert(w.cells[i] == v.cells[i]);
            }
        }
    };
    assert forall|g: int, dd: int|
        #![trigger used_at(w.rows, g, dd)]
        #![trigger row_has(w.cells, g, dd)]
        0 <= g < 9 && 1 <= dd <= 9 implies (used_at(w.rows, g, dd) <==> row_has(w.cells, g, dd)) by {
        if g == r && dd == d {
            assert(used_at(w.rows, g, dd));
            assert(cell_at(w.cells, r, c) == d);
            assert(row_has(w.cells, g, dd));
        } else {
            assert(g * 10 + dd != r * 10 + d as int);
            assert(used_at(w.rows, g, dd) == used_at(v.rows, g, dd));
            assert forall|cc: int| 0 <= cc < 9 implies ((#[trigger] cell_at(w.cells, g, cc) == dd)
                <==> (cell_at(v.cells, g, cc) == dd)) by {
                if !(g == r && cc == c) {
                    assert(idx_of(g, cc) != p);
                    assert(cell_at(w.cells, g, cc) == cell_at(v.cells, g, cc));
                }
            }
            if row_has(v.cells, g, dd) {
                let cc = choose|cc: int| 0 <= cc < 9 && #[trigger] cell_at(v.cells, g, cc) == dd;
                assert(cell_at(w.cells, g, cc) == dd);
                assert(row_has(w.cells, g, dd));
            }
            if row_has(w.cells, g, dd) {
                let cc = choose|cc: int| 0 <= cc < 9 && #[trigger] cell_at(w.cells, g, cc) == dd;
                assert(cell_at(v.cells, g, cc) == dd);
                assert(row_has(v.cells, g, dd));
            }
        }
    }
    assert forall|g: int, dd: int|
        #![trigger used_at(w.cols, g, dd)]
        #![trigger col_has(w.cells, g, dd)]
        0 <= g < 9 && 1 <= dd <= 9 implies (used_at(w.cols, g, dd) <==> col_has(w.cells, g, dd)) by {
        if g == c && dd == d {
            assert(used_at(w.cols, g, dd));
            assert(cell_at(w.cells, r, c) == d);
            assert(col_has(w.cells, g, dd));
        } else {
            assert(g * 10 + dd != c * 10 + d as int);
            assert(used_at(w.cols, g, dd) == used_at(v.cols, g, dd));
            assert forall|rr: int| 0 <= rr < 9 implies ((#[trigger] cell_at(w.cells, rr, g) == dd)
                <==> (cell_at(v.cells, rr, g) == dd)) by {
                if !(rr == r && g == c) {
                    assert(idx_of(rr, g) != p);
                    assert(cell_at(w.cells, rr, g) == cell_at(v.cells, rr, g));
                }
            }
            if col_has(v.cells, g, dd) {
                let rr = choose|rr: int| 0 <= rr < 9 && #[trigger] cell_at(v.cells, rr, g) == dd;
                assert(cell_at(w.cells, rr, g) == dd);
                assert(col_has(w.cells, g, dd));
            }
            if col_has(w.cells, g, dd) {
                let rr = choose|rr: int| 0 <= rr < 9 && #[trigger] cell_at(w.cells, rr, g) == dd;
                assert(cell_at(v.cells, rr, g) == dd);
                assert(col_has(v.cells, g, dd));
            }
        }
    }
    assert forall|g: int, dd: int|
        #![trigger used_at(w.blocks, g, dd)]
        #![trigger block_has(w.cells, g, dd)]
        0 <= g < 9 && 1 <= dd <= 9 implies (used_at(w.blocks, g, dd) <==> block_has(
        w.cells,
        g,
        dd,
    )) by {
        if g == block_of(r, c) && dd == d {
            assert(used_at(w.blocks, g, dd));
            assert(cell_at(w.cells, r, c) == d);
            assert(block_has(w.cells, g, dd));
        } else {
            assert(g * 10 + dd != block_of(r, c) * 10 + d as int);
            assert(used_at(w.blocks, g, dd) == used_at(v.blocks, g, dd));
            assert forall|rr: int, cc: int| in_range(rr, cc) && block_of(rr, cc) == g implies ((
            #[trigger] cell_at(w.cells, rr, cc) == dd) <==> (cell_at(v.cells, rr, cc) == dd)) by {
                if !(rr == r && cc == c) {
                    assert(idx_of(rr, cc) != p);
                    assert(cell_at(w.cells, rr, cc) == cell_at(v.cells, rr, cc));
                } else {
                    assert(g == block_of(r, c));
                }
            }
            if block_has(v.cells, g, dd) {
                let (rr, cc) = choose|rr: int, cc: int|
                    in_range(rr, cc) && block_of(rr, cc) == g && #[trigger] cell_at(
                        v.cells,
                        rr,
                        cc,
                    ) == dd;
                assert(cell_at(w.cells, rr, cc) == dd);
                assert(block_has(w.cells, g, dd));
            }
            if block_has(w.cells, g, dd) {
                let (rr, cc) = choose|rr: int, cc: int|
                    in_range(rr, cc) && block_of(rr, cc) == g && #[trigger] cell_at(
                        w.cells,
                        rr,
                        cc,
                    ) == dd;
                assert(cell_at(v.cells, rr, cc) == dd);
                assert(block_has(v.cells, g, dd));
            }
        }
    }
}

/// A legal placement keeps the sudoku constraint.
pub proof fn lemma_place_at_valid(v: BoardView, r: int, c: int, d: u8)
    requires
        v.wf(),
        in_range(r, c),
        1 <= d <= 9,
        v.can_place_at(r, c, d as int),
        valid_cells(v.cells),
    ensures
        valid_cells(v.place_at(r, c, d).cells),
{
    let w = v.place_at(r, c, d).cells;
    let p = idx_of(r, c);
    assert(!row_has(v.cells, r, d as int));
    assert(!col_has(v.cells, c, d as int));
    assert(!block_has(v.cells, block_of(r, c), d as int));
    assert forall|rr: int, cc: int| in_range(rr, cc) && !(rr == r && cc == c) implies #[trigger]
        cell_at(w, rr, cc) == cell_at(v.cells, rr, cc) by {
        assert(idx_of(rr, cc) != p);
    }
    assert(cell_at(w, r, c) == d);
    assert(no_row_dup(w)) by {
        assert forall|rr: int, c1: int, c2: int|
            in_range(rr, c1) && in_range(rr, c2) && c1 != c2 && #[trigger] cell_at(w, rr, c1) != 0
                implies cell_at(w, rr, c1) != #[trigger] cell_at(w, rr, c2) by {
            if rr == r && c1 == c {
                if cell_at(w, rr, c2) == d {
                    assert(cell_at(v.cells, r, c2) == d);
                    assert(row_has(v.cells, r, d as int));
                }
            } else if rr == r && c2 == c {
                if cell_at(w, rr, c1) == d {
                    assert(cell_at(v.cells, r, c1) == d);
                    assert(row_has(v.cells, r, d as int));
                }
            } else {
                assert(cell_at(v.cells, rr, c1) != 0 ==> cell_at(v.cells, rr, c1) != cell_at(
                    v.cells,
                    rr,
                    c2,
                ));
            }
        }
    };
    assert(no_col_dup(w)) by {
        assert forall|cc: int, r1: int, r2: int|
            in_range(r1, cc) && in_range(r2, cc) && r1 != r2 && #[trigger] cell_at(w, r1, cc) != 0
                implies cell_at(w, r1, cc) != #[trigger] cell_at(w, r2, cc) by {
            if cc == c && r1 == r {
                if cell_at(w, r2, cc) == d {
                    assert(cell_at(v.cells, r2, c) == d);
                    assert(col_has(v.cells, c, d as int));
                }
            } else if cc == c && r2 == r {
                if cell_at(w, r1, cc) == d {
                    assert(cell_at(v.cells, r1, c) == d);
                    assert(col_has(v.cells, c, d as int));
                }
            } else {
                assert(cell_at(v.cells, r1, cc) != 0 ==> cell_at(v.cells, r1, cc) != cell_at(
                    v.cells,
                    r2,
                    cc,
                ));
            }
        }
    };
    assert(no_block_dup(w)) by {
        assert forall|r1: int, c1: int, r2: int, c2: int|
            in_range(r1, c1) && in_range(r2, c2) && !(r1 == r2 && c1 == c2) && block_of(r1, c1)
                == block_of(r2, c2) && #[trigger] cell_at(w, r1, c1) != 0 implies cell_at(w, r1, c1)
            != #[trigger] cell_at(w, r2, c2) by {
            if r1 == r && c1 == c {
                if cell_at(w, r2, c2) == d {
                    assert(cell_at(v.cells, r2, c2) == d);
                    assert(block_has(v.cells, block_of(r, c), d as int));
                }
            } else if r2 == r && c2 == c {
                if cell_at(w, r1, c1) == d {
                    assert(cell_at(v.cells, r1, c1) == d);
                    assert(block_has(v.cells, block_of(r, c), d as int));
                }
            } else {
                assert(cell_at(v.cells, r1, c1) != 0 ==> cell_at(v.cells, r1, c1) != cell_at(
                    v.cells,
                    r2,
                    c2,
                ));
            }
        }
    };
}

/// Clearing a cell whose digit is the only one of its kind in its row,
/// column and block keeps the board well formed.
pub proof fn lemma_unplace_at_wf(v: BoardView, r: int, c: int)
    requires
        v.wf(),
        in_range(r, c),
        v.cells[idx_of(r, c)] != 0,
        v.sole_in_groups(r, c),
    ensures
        v.unplace_at(r, c).wf(),
{
    let w = v.unplace_at(r, c);
    let p = idx_of(r, c);
    let d = v.cells[p];
    assert(1 <= d <= 9);
    assert(cell_at(v.cells, r, c) == d);
    assert(cells_wf(w.cells)) by {
        assert forall|i: int| 0 <= i < 81 implies #[trigger] w.cells[i] <= 9 by {
            if i != p {
                assert(w.cells[i] == v.cells[i]);
            }
        }
    };
    assert forall|g: int, dd: int|
        #![trigger used_at(w.rows, g, dd)]
        #![trigger row_has(w.cells, g, dd)]
        0 <= g < 9 && 1 <= dd <= 9 implies (used_at(w.rows, g, dd) <==> row_has(w.cells, g, dd)) by {
        if g == r && dd == d {
            assert(!used_at(w.rows, g, dd));
            assert forall|cc: int| 0 <= cc < 9 implies #[trigger] cell_at(w.cells, r, cc) != dd by {
                if cc == c {
                    assert(cell_at(w.cells, r, c) == 0);
                } else {
                    assert(idx_of(r, cc) != p);
                    assert(cell_at(w.cells, r, cc) == cell_at(v.cells, r, cc));
                    assert(cell_at(v.cells, r, cc) != cell_at(v.cells, r, c));
                }
            }
            assert(!row_has(w.cells, g, dd));
        } else {
            assert(g * 10 + dd != r * 10 + d as int);
            assert(used_at(w.rows, g, dd) == used_at(v.rows, g, dd));
            assert forall|cc: int| 0 <= cc < 9 implies ((#[trigger] cell_at(w.cells, g, cc) == dd)
                <==> (cell_at(v.cells, g, cc) == dd)) by {
                if !(g == r && cc == c) {
                    assert(idx_of(g, cc) != p);
                    assert(cell_at(w.cells, g, cc) == cell_at(v.cells, g, cc));
                } else {
                    assert(cell_at(v.cells, g, cc) == d && dd != d);
                    assert(cell_at(w.cells, g, cc) == 0 && dd != 0);
                }
            }
            if row_has(v.cells, g, dd) {
                let cc = choose|cc: int| 0 <= cc < 9 && #[trigger] cell_at(v.cells, g, cc) == dd;
                assert(cell_at(w.cells, g, cc) == dd);
                assert(row_has(w.cells, g, dd));
            }
            if row_has(w.cells, g, dd) {
                let cc = choose|cc: int| 0 <= cc < 9 && #[trigger] cell_at(w.cells, g, cc) == dd;
                assert(cell_at(v.cells, g, cc) == dd);
                assert(row_has(v.cells, g, dd));
            }
        }
    }
    assert forall|g: int, dd: int|
        #![trigger used_at(w.cols, g, dd)]
        #![trigger col_has(w.cells, g, dd)]
        0 <= g < 9 && 1 <= dd <= 9 implies (used_at(w.cols, g, dd) <==> col_has(w.cells, g, dd)) by {
        if g == c && dd == d {
            assert(!used_at(w.cols, g, dd));
            assert forall|rr: int| 0 <= rr < 9 implies #[trigger] cell_at(w.cells, rr, c) != dd by {
                if rr == r {
                    assert(cell_at(w.cells, r, c) == 0);
                } else {
                    assert(idx_of(rr, c) != p);
                    assert(cell_at(w.cells, rr, c) == cell_at(v.cells, rr, c));
                    assert(cell_at(v.cells, rr, c) != cell_at(v.cells, r, c));
                }
            }
            assert(!col_has(w.cells, g, dd));
        } else {
            assert(g * 10 + dd != c * 10 + d as int);
            assert(used_at(w.cols, g, dd) == used_at(v.cols, g, dd));
            assert forall|rr: int| 0 <= rr < 9 implies ((#[trigger] cell_at(w.cells, rr, g) == dd)
                <==> (cell_at(v.cells, rr, g) == dd)) by {
                if !(rr == r && g == c) {
                    assert(idx_of(rr, g) != p);
                    assert(cell_at(w.cells, rr, g) == cell_at(v.cells, rr, g));
                } else {
                    assert(cell_at(v.cells, rr, g) == d && dd != d);
                    assert(cell_at(w.cells, rr, g) == 0 && dd != 0);
                }
            }
            if col_has(v.cells, g, dd) {
                let rr = choose|rr: int| 0 <= rr < 9 && #[trigger] cell_at(v.cells, rr, g) == dd;
                assert(cell_at(w.cells, rr, g) == dd);
                assert(col_has(w.cells, g, dd));
            }
            if col_has(w.cells, g, dd) {
                let rr = choose|rr: int| 0 <= rr < 9 && #[trigger] cell_at(w.cells, rr, g) == dd;
                assert(cell_at(v.cells, rr, g) == dd);
                assert(col_has(v.cells, g, dd));
            }
        }
    }
    assert forall|g: int, dd: int|
        #![trigger used_at(w.blocks, g, dd)]
        #![trigger block_has(w.cells, g, dd)]
        0 <= g < 9 && 1 <= dd <= 9 implies (used_at(w.blocks, g, dd) <==> block_has(
        w.cells,
        g,
        dd,
    )) by {
        if g == block_of(r, c) && dd == d {
            assert(!used_at(w.blocks, g, dd));
            assert forall|rr: int, cc: int| in_range(rr, cc) && block_of(rr, cc) == g implies
                #[trigger] cell_at(w.cells, rr, cc) != dd by {
                if rr == r && cc == c {
                    assert(cell_at(w.cells, r, c) == 0);
                } else {
                    assert(idx_of(rr, cc) != p);
                    assert(cell_at(w.cells, rr, cc) == cell_at(v.cells, rr, cc));
                    assert(cell_at(v.cells, rr, cc) != cell_at(v.cells, r, c));
                }
            }
            assert(!block_has(w.cells, g, dd));
        } else {
            assert(g * 10 + dd != block_of(r, c) * 10 + d as int);
            assert(used_at(w.blocks, g, dd) == used_at(v.blocks, g, dd));
            assert forall|rr: int, cc: int| in_range(rr, cc) && block_of(rr, cc) == g implies ((
            #[trigger] cell_at(w.cells, rr, cc) == dd) <==> (cell_at(v.cells, rr, cc) == dd)) by {
                if !(rr == r && cc == c) {
                    assert(idx_of(rr, cc) != p);
                    assert(cell_at(w.cells, rr, cc) == cell_at(v.cells, rr, cc));
                } else {
                    assert(g == block_of(r, c));
                    assert(cell_at(v.cells, rr, cc) == d && dd != d);
                    assert(cell_at(w.cells, rr, cc) == 0 && dd != 0);
                }
            }
            if block_has(v.cells, g, dd) {
                let (rr, cc) = choose|rr: int, cc: int|
                    in_range(rr, cc) && block_of(rr, cc) == g && #[trigger] cell_at(
                        v.cells,
                        rr,
                        cc,
                    ) == dd;
                assert(cell_at(w.cells, rr, cc) == dd);
                assert(block_has(w.cells, g, dd));
            }
            if block_has(w.cells, g, dd) {
                let (rr, cc) = choose|rr: int, cc: int|
                    in_range(rr, cc) && block_of(rr, cc) == g && #[trigger] cell_at(
                        w.cells,
                        rr,
                        cc,
                    ) == dd;
                assert(cell_at(v.cells, rr, cc) == dd);
                assert(block_has(v.cells, g, dd));
            }
        }
    }
}

/// Clearing a cell cannot create a duplicate.
pub proof fn lemma_unplace_at_valid(v: BoardView, r: int, c: int)
    requires
        v.cells.len() == 81,
        in_range(r, c),
        valid_cells(v.cells),
    ensures
        valid_cells(v.unplace_at(r, c).cells),
{
    let w = v.unplace_at(r, c).cells;
    let p = idx_of(r, c);
    assert forall|rr: int, cc: int| in_range(rr, cc) implies #[trigger] cell_at(w, rr, cc)
        == cell_at(v.cells, rr, cc) || cell_at(w, rr, cc) == 0 by {
        if !(rr == r && cc == c) {
            assert(idx_of(rr, cc) != p);
        }
    }
    assert forall|rr: int, cc: int|
        in_range(rr, cc) && #[trigger] cell_at(w, rr, cc) != 0 implies cell_at(w, rr, cc)
        == cell_at(v.cells, rr, cc) by {
        if !(rr == r && cc == c) {
            assert(idx_of(rr, cc) != p);
        }
    }
}

/// After a legal placement the placed digit is the only one of its kind in
/// the cell's row, column and block.
pub proof fn lemma_place_at_sole(v: BoardView, r: int, c: int, d: u8)
    requires
        v.wf(),
        in_range(r, c),
        1 <= d <= 9,
        v.can_place_at(r, c, d as int),
    ensures
        v.place_at(r, c, d).sole_in_groups(r, c),
        cell_at(v.place_at(r, c, d).cells, r, c) == d,
{
    let w = v.place_at(r, c, d);
    let p = idx_of(r, c);
    assert(!row_has(v.cells, r, d as int));
    assert(!col_has(v.cells, c, d as int));
    assert(!block_has(v.cells, block_of(r, c), d as int));
    assert(cell_at(w.cells, r, c) == d);
    assert forall|c2: int| 0 <= c2 < 9 && c2 != c implies #[trigger] cell_at(w.cells, r, c2)
        != cell_at(w.cells, r, c) by {
        assert(idx_of(r, c2) != p);
        assert(cell_at(w.cells, r, c2) == cell_at(v.cells, r, c2));
        if cell_at(v.cells, r, c2) == d {
            assert(row_has(v.cells, r, d as int));
        }
    }
    assert forall|r2: int| 0 <= r2 < 9 && r2 != r implies #[trigger] cell_at(w.cells, r2, c)
        != cell_at(w.cells, r, c) by {
        assert(idx_of(r2, c) != p);
        assert(cell_at(w.cells, r2, c) == cell_at(v.cells, r2, c));
        if cell_at(v.cells, r2, c) == d {
            assert(col_has(v.cells, c, d as int));
        }
    }
    assert forall|r2: int, c2: int|
        in_range(r2, c2) && !(r2 == r && c2 == c) && block_of(r2, c2) == block_of(r, c) implies
        #[trigger] cell_at(w.cells, r2, c2) != cell_at(w.cells, r, c) by {
        assert(idx_of(r2, c2) != p);
        assert(cell_at(w.cells, r2, c2) == cell_at(v.cells, r2, c2));
        if cell_at(v.cells, r2, c2) == d {
            assert(block_has(v.cells, block_of(r, c), d as int));
        }
    }
}

/// The inverse law: a legal placement followed by clearing the same cell
/// restores the board exactly — the grid, the given marks and all three
/// families of used-digit sets.
pub proof fn lemma_place_unplace(v: BoardView, r: int, c: int, d: u8)
    requires
        v.wf(),
        in_range(r, c),
        1 <= d <= 9,
        v.can_place_at(r, c, d as int),
    ensures
        v.place_at(r, c, d).unplace_at(r, c) == v,
{
    let w = v.place_at(r, c, d);
    let u = w.unplace_at(r, c);
    let p = idx_of(r, c);
    assert(w.cells[p] == d);
    assert(u.cells =~= v.cells) by {
        assert(v.cells[p] == 0);
    }
    assert(u.given =~= v.given);
    assert(u.rows =~= v.rows) by {
        assert(!used_at(v.rows, r, d as int));
        assert(v.rows[r * 10 + d as int] == false);
    }
    assert(u.cols =~= v.cols) by {
        assert(v.cols[c * 10 + d as int] == false);
    }
    assert(u.blocks =~= v.blocks) by {
        assert(v.blocks[block_of(r, c) * 10 + d as int] == false);
    }
    assert(u =~= v);
}

} // verus!
