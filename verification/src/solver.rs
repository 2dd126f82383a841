//! The solver: a depth-first, row-major backtracking traversal that
//! enumerates every valid completion of a board.
//!
//! The traversal visits the 81 cells in row-major order. At an occupied cell
//! it recurses straight to the next cell; at an empty cell it tries the
//! digits 1 through 9 in ascending order, placing each legal one, recursing,
//! and unconditionally unplacing on return. Every completion is therefore
//! found exactly once, and the completions appear in strictly increasing
//! row-major lexicographic order.

use vstd::prelude::*;

use crate::board::{Board, BoardView, lemma_place_at_sole, lemma_place_unplace};
use crate::rules::{
    block_of, cell_at, cells_full, cells_wf, extends, filled_below, idx_of, in_range,
    is_solution_for, lemma_invalid_no_solutions, lex_lt, prefix_same, valid_cells, col_has,
    row_has, block_has,
};

verus! {

/// The grid recorded as entry `m` of a list of solutions.
pub open spec fn sol_at(out: Seq<Vec<u8>>, m: int) -> Seq<u8> {
    out[m]@
}

/// Every entry from position `lo` on is a valid completion of `b`.
pub open spec fn batch_sound(out: Seq<Vec<u8>>, lo: int, b: Seq<u8>) -> bool {
    forall|m: int| lo <= m < out.len() ==> is_solution_for(#[trigger] sol_at(out, m), b)
}

/// The entries from position `lo` on come in strictly increasing
/// lexicographic order.
pub open spec fn batch_sorted(out: Seq<Vec<u8>>, lo: int) -> bool {
    forall|m1: int, m2: int|
        lo <= m1 < m2 < out.len() ==> lex_lt(#[trigger] sol_at(out, m1), #[trigger] sol_at(out, m2))
}

/// Grid `s` appears among the entries from position `lo` on.
pub open spec fn batch_contains(out: Seq<Vec<u8>>, lo: int, s: Seq<u8>) -> bool {
    exists|m: int| lo <= m < out.len() && #[trigger] sol_at(out, m) == s
}

/// Every entry from position `lo` on is lexicographically below `s`.
pub open spec fn batch_all_lt(out: Seq<Vec<u8>>, lo: int, s: Seq<u8>) -> bool {
    forall|m: int| lo <= m < out.len() ==> lex_lt(#[trigger] sol_at(out, m), s)
}

/// Every valid completion of `b` either appears from position `lo` on, or
/// was cut off because the list already holds `limit` entries, all of them
/// lexicographically below it.
pub open spec fn batch_complete(out: Seq<Vec<u8>>, lo: int, b: Seq<u8>, limit: int) -> bool {
    forall|s: Seq<u8>|
        #[trigger] is_solution_for(s, b) ==> batch_contains(out, lo, s) || (out.len() == limit
            && batch_all_lt(out, lo, s))
}

/// What the search promises of its whole output: at most `limit` entries,
/// each a valid completion of `b`, in strictly increasing lexicographic
/// order, and no completion missing unless the list was cut off at `limit`
/// entries that all precede it. These clauses pin the output down uniquely.
pub open spec fn search_output_ok(out: Seq<Vec<u8>>, b: Seq<u8>, limit: int) -> bool {
    &&& out.len() <= limit
    &&& batch_sound(out, 0, b)
    &&& batch_sorted(out, 0)
    &&& batch_complete(out, 0, b, limit)
}

/// A full valid grid is its own single completion.
proof fn lemma_full_solution_unique(b: Seq<u8>)
    requires
        cells_wf(b),
        cells_full(b),
        valid_cells(b),
    ensures
        is_solution_for(b, b),
        forall|s: Seq<u8>| #[trigger] is_solution_for(s, b) ==> s == b,
{
    assert forall|s: Seq<u8>| #[trigger] is_solution_for(s, b) implies s == b by {
        assert forall|i: int| 0 <= i < 81 implies #[trigger] s[i] == b[i] by {
            assert(b[i] != 0);
        }
        assert(s =~= b);
    }
}

/// Writing digit `d` into the empty cell at flat position `idx_of(r, c)`
/// narrows the completions to exactly those that put `d` there.
proof fn lemma_place_solutions(b: Seq<u8>, r: int, c: int, d: u8)
    requires
        b.len() == 81,
        in_range(r, c),
        b[idx_of(r, c)] == 0,
        1 <= d <= 9,
    ensures
        forall|s: Seq<u8>|
            #[trigger] is_solution_for(s, b.update(idx_of(r, c), d)) ==> is_solution_for(s, b)
                && s[idx_of(r, c)] == d,
        forall|s: Seq<u8>|
            #[trigger] is_solution_for(s, b) && s[idx_of(r, c)] == d ==> is_solution_for(
                s,
                b.update(idx_of(r, c), d),
            ),
{
    let p = idx_of(r, c);
    let b2 = b.update(p, d);
    assert forall|s: Seq<u8>| #[trigger] is_solution_for(s, b2) implies is_solution_for(s, b)
        && s[p] == d by {
        assert(b2[p] == d);
        assert(s[p] == d);
        assert forall|i: int| 0 <= i < 81 && b[i] != 0 implies #[trigger] s[i] == b[i] by {
            assert(i != p);
            assert(b2[i] == b[i]);
        }
    }
    assert forall|s: Seq<u8>| #[trigger] is_solution_for(s, b) && s[p] == d implies
        is_solution_for(s, b2) by {
        assert forall|i: int| 0 <= i < 81 && b2[i] != 0 implies #[trigger] s[i] == b2[i] by {
            if i != p {
                assert(b2[i] == b[i]);
            }
        }
    }
}

/// A digit refused by the used-digit sets appears in no completion at that
/// cell: the set entry names a cell of the same group already holding it.
proof fn lemma_conflict_excludes(v: BoardView, r: int, c: int, d: int)
    requires
        v.wf(),
        in_range(r, c),
        1 <= d <= 9,
        cell_at(v.cells, r, c) == 0,
        !v.can_place_at(r, c, d),
    ensures
        forall|s: Seq<u8>| #[trigger] is_solution_for(s, v.cells) ==> s[idx_of(r, c)] != d,
{
    assert forall|s: Seq<u8>| #[trigger] is_solution_for(s, v.cells) implies s[idx_of(r, c)]
        != d by {
        if s[idx_of(r, c)] == d {
            assert(cell_at(s, r, c) == d);
            if crate::board::used_at(v.rows, r, d) {
                assert(row_has(v.cells, r, d));
                let cc = choose|cc: int| 0 <= cc < 9 && #[trigger] cell_at(v.cells, r, cc) == d;
                assert(cc != c);
                assert(cell_at(s, r, cc) == d);
                assert(cell_at(s, r, c) != cell_at(s, r, cc));
            } else if crate::board::used_at(v.cols, c, d) {
                assert(col_has(v.cells, c, d));
                let rr = choose|rr: int| 0 <= rr < 9 && #[trigger] cell_at(v.cells, rr, c) == d;
                assert(rr != r);
                assert(cell_at(s, rr, c) == d);
                assert(cell_at(s, r, c) != cell_at(s, rr, c));
            } else {
                assert(crate::board::used_at(v.blocks, block_of(r, c), d));
                assert(block_has(v.cells, block_of(r, c), d));
                let (rr, cc) = choose|rr: int, cc: int|
                    in_range(rr, cc) && block_of(rr, cc) == block_of(r, c) && #[trigger] cell_at(
                        v.cells,
                        rr,
                        cc,
                    ) == d;
                assert(!(rr == r && cc == c));
                assert(cell_at(s, rr, cc) == d);
                assert(cell_at(s, r, c) != cell_at(s, rr, cc));
            }
        }
    }
}

/// Two completions of `b` that differ at a position up to which `b` is fully
/// occupied are ordered by that position.
proof fn lemma_lex_at(b: Seq<u8>, s1: Seq<u8>, s2: Seq<u8>, p: int)
    requires
        b.len() == 81,
        s1.len() == 81,
        s2.len() == 81,
        extends(s1, b),
        extends(s2, b),
        filled_below(b, p),
        0 <= p < 81,
        s1[p] < s2[p],
    ensures
        lex_lt(s1, s2),
{
    assert(prefix_same(s1, s2, p)) by {
        assert forall|j: int| 0 <= j < p implies #[trigger] s1[j] == s2[j] by {
            assert(b[j] != 0);
            assert(s1[j] == b[j]);
            assert(s2[j] == b[j]);
        }
    }
}

/// The depth-first traversal from the cell in row `r`, column `c`: every
/// cell at an earlier row-major position is already occupied. Appends to
/// `out` every valid completion of the current board, in strictly increasing
/// lexicographic order, stopping once `out` holds `limit` entries, and
/// restores the board exactly before returning.
#[verifier::loop_isolation(false)]
#[verifier::rlimit(100)]
fn dfs(board: &mut Board, r: usize, c: usize, limit: usize, out: &mut Vec<Vec<u8>>)
    requires
        old(board).wf(),
        valid_cells(old(board)@.cells),
        r <= 9,
        c < 9,
        r == 9 ==> c == 0,
        filled_below(old(board)@.cells, idx_of(r as int, c as int)),
        old(out)@.len() <= limit,
    ensures
        final(board).wf(),
        final(board)@ == old(board)@,
        old(out)@.len() <= final(out)@.len() <= limit,
        forall|m: int| 0 <= m < old(out)@.len() ==> #[trigger] final(out)@[m] == old(out)@[m],
        batch_sound(final(out)@, old(out)@.len() as int, old(board)@.cells),
        batch_sorted(final(out)@, old(out)@.len() as int),
        batch_complete(final(out)@, old(out)@.len() as int, old(board)@.cells, limit as int),
    decreases 81 - idx_of(r as int, c as int),
{
    if out.len() >= limit {
        return ;
    }
    let ghost p = idx_of(r as int, c as int);
    let ghost b0 = old(board)@.cells;
    let ghost lo = old(out)@.len() as int;
    if r == 9 {
        proof {
            assert(p == 81);
            assert(cells_full(b0));
            lemma_full_solution_unique(b0);
        }
        let sol = board.snapshot();
        out.push(sol);
        proof {
            assert(sol_at(out@, lo) == b0);
            assert forall|s: Seq<u8>| #[trigger] is_solution_for(s, b0) implies batch_contains(
                out@,
                lo,
                s,
            ) by {
                assert(s == b0);
                assert(sol_at(out@, lo) == s);
            }
        }
        return ;
    }
    let nr: usize;
    let nc: usize;
    if c < 8 {
        nr = r;
        nc = c + 1;
    } else {
        nr = r + 1;
        nc = 0;
    }
    proof {
        assert(idx_of(nr as int, nc as int) == p + 1);
    }
    if !board.is_empty(r, c) {
        proof {
            assert(filled_below(b0, p + 1)) by {
                assert(b0[p] != 0);
            }
        }
        dfs(board, nr, nc, limit, out);
        return ;
    }
    let mut d: u8 = 1;
    while d <= 9
        invariant
            board.wf(),
            board@ == old(board)@,
            1 <= d <= 10,
            lo <= out@.len() <= limit,
            forall|m: int| 0 <= m < lo ==> #[trigger] out@[m] == old(out)@[m],
            batch_sound(out@, lo, b0),
            batch_sorted(out@, lo),
            forall|m: int| lo <= m < out@.len() ==> #[trigger] sol_at(out@, m)[p] < d,
            forall|s: Seq<u8>|
                #[trigger] is_solution_for(s, b0) && s[p] < d ==> batch_contains(out@, lo, s) || (
                out@.len() == limit && batch_all_lt(out@, lo, s)),
        decreases 10 - d,
    {
        if board.can_place(r, c, d) {
            let ghost pre_out = out@;
            let ghost placed = board@.place_at(r as int, c as int, d);
            board.place(r, c, d);
            proof {
                assert(board@ == placed);
                lemma_place_at_sole(old(board)@, r as int, c as int, d);
                lemma_place_unplace(old(board)@, r as int, c as int, d);
                lemma_place_solutions(b0, r as int, c as int, d);
                assert(placed.cells == b0.update(p, d));
                assert(filled_below(placed.cells, p + 1)) by {
                    assert forall|i: int| 0 <= i < p + 1 implies #[trigger] placed.cells[i]
                        != 0 by {
                        if i < p {
                            assert(placed.cells[i] == b0[i]);
                        }
                    }
                }
            }
            dfs(board, nr, nc, limit, out);
            proof {
                assert(board@ == placed);
                assert(cell_at(board@.cells, r as int, c as int) == d);
            }
            board.unplace(r, c);
            proof {
                assert(board@ == old(board)@);
                let post = out@;
                let k = pre_out.len() as int;
                // entries below k are untouched by the recursive call
                assert forall|m: int| 0 <= m < lo implies #[trigger] post[m] == old(out)@[m] by {
                    assert(post[m] == pre_out[m]);
                }
                assert forall|m: int| lo <= m < k implies #[trigger] sol_at(post, m) == sol_at(
                    pre_out,
                    m,
                ) by {
                    assert(post[m] == pre_out[m]);
                }
                // new entries are completions of the placed board, hence of
                // the current board with digit d at position p
                assert forall|m: int| lo <= m < post.len() implies is_solution_for(
                    #[trigger] sol_at(post, m),
                    b0,
                ) && sol_at(post, m)[p] < d + 1 by {
                    if m < k {
                        assert(sol_at(post, m) == sol_at(pre_out, m));
                        assert(is_solution_for(sol_at(post, m), b0));
                        assert(sol_at(post, m)[p] < d);
                    } else {
                        assert(is_solution_for(sol_at(post, m), placed.cells));
                        assert(is_solution_for(sol_at(post, m), b0));
                        assert(sol_at(post, m)[p] == d);
                    }
                }
                // the batch stays sorted: old entries put a smaller digit at p
                assert forall|m1: int, m2: int| lo <= m1 < m2 < post.len() implies lex_lt(
                    #[trigger] sol_at(post, m1),
                    #[trigger] sol_at(post, m2),
                ) by {
                    if m2 < k {
                        assert(sol_at(post, m1) == sol_at(pre_out, m1));
                        assert(sol_at(post, m2) == sol_at(pre_out, m2));
                    } else if m1 >= k {
                    } else {
                        let s1 = sol_at(post, m1);
                        let s2 = sol_at(post, m2);
                        assert(s1 == sol_at(pre_out, m1));
                        assert(s1[p] < d && s2[p] == d);
                        lemma_lex_at(b0, s1, s2, p);
                    }
                }
                // completions with digit at most d at p are all covered
                assert forall|s: Seq<u8>|
                    #[trigger] is_solution_for(s, b0) && s[p] < d + 1 implies batch_contains(
                    post,
                    lo,
                    s,
                ) || (post.len() == limit && batch_all_lt(post, lo, s)) by {
                    if s[p] < d {
                        if batch_contains(pre_out, lo, s) {
                            let m = choose|m: int|
                                lo <= m < pre_out.len() && #[trigger] sol_at(pre_out, m) == s;
                            assert(sol_at(post, m) == s);
                            assert(batch_contains(post, lo, s));
                        } else {
                            assert(pre_out.len() == limit);
                            assert(post.len() == limit);
                            assert(post.len() == k);
                            assert forall|m: int| lo <= m < post.len() implies lex_lt(
                                #[trigger] sol_at(post, m),
                                s,
                            ) by {
                                assert(sol_at(post, m) == sol_at(pre_out, m));
                            }
                        }
                    } else {
                        assert(s[p] == d);
                        assert(is_solution_for(s, placed.cells));
                        if batch_contains(post, k, s) {
                            let m = choose|m: int|
                                k <= m < post.len() && #[trigger] sol_at(post, m) == s;
                            assert(batch_contains(post, lo, s));
                        } else {
                            assert(post.len() == limit);
                            assert forall|m: int| lo <= m < post.len() implies lex_lt(
                                #[trigger] sol_at(post, m),
                                s,
                            ) by {
                                if m < k {
                                    let s1 = sol_at(post, m);
                                    assert(s1 == sol_at(pre_out, m));
                                    assert(is_solution_for(s1, b0));
                                    assert(s1[p] < d);
                                    lemma_lex_at(b0, s1, s, p);
                                }
                            }
                        }
                    }
                }
            }
        } else {
            proof {
                lemma_conflict_excludes(board@, r as int, c as int, d as int);
                assert forall|s: Seq<u8>|
                    #[trigger] is_solution_for(s, b0) && s[p] < d + 1 implies batch_contains(
                    out@,
                    lo,
                    s,
                ) || (out@.len() == limit && batch_all_lt(out@, lo, s)) by {
                    assert(s[p] != d);
                }
            }
        }
        d = d + 1;
    }
    proof {
        assert forall|s: Seq<u8>| #[trigger] is_solution_for(s, b0) implies batch_contains(
            out@,
            lo,
            s,
        ) || (out@.len() == limit && batch_all_lt(out@, lo, s)) by {
            assert(s[p] <= 9);
        }
    }
}

/// Determinism: the search contract pins its output down uniquely, so two
/// runs over the same grid with the same cap report the same solutions in
/// the same order.
pub proof fn lemma_search_deterministic(
    xs: Seq<Vec<u8>>,
    ys: Seq<Vec<u8>>,
    b: Seq<u8>,
    limit: int,
)
    requires
        search_output_ok(xs, b, limit),
        search_output_ok(ys, b, limit),
    ensures
        xs.len() == ys.len(),
        forall|m: int| 0 <= m < xs.len() ==> #[trigger] sol_at(xs, m) == sol_at(ys, m),
{
    lemma_outputs_agree_from(xs, ys, b, limit, 0);
}

/// One entry of one output is a grid missing from the other output's suffix.
/// That can only be because the other output was cut off below it.
proof fn lemma_entry_found(
    xs: Seq<Vec<u8>>,
    ys: Seq<Vec<u8>>,
    b: Seq<u8>,
    limit: int,
    m: int,
) -> (mm: int)
    requires
        search_output_ok(xs, b, limit),
        search_output_ok(ys, b, limit),
        0 <= m < xs.len(),
        m <= ys.len(),
        forall|j: int| 0 <= j < m ==> #[trigger] sol_at(xs, j) == sol_at(ys, j),
        batch_contains(ys, 0, sol_at(xs, m)),
    ensures
        m <= mm < ys.len(),
        sol_at(ys, mm) == sol_at(xs, m),
{
    let s = sol_at(xs, m);
    let mm = choose|j: int| 0 <= j < ys.len() && #[trigger] sol_at(ys, j) == s;
    if mm < m {
        assert(sol_at(xs, mm) == sol_at(ys, mm));
        assert(lex_lt(sol_at(xs, mm), sol_at(xs, m)));
        crate::rules::lemma_lex_irreflexive(s);
    }
    mm
}

proof fn lemma_outputs_agree_from(
    xs: Seq<Vec<u8>>,
    ys: Seq<Vec<u8>>,
    b: Seq<u8>,
    limit: int,
    m: int,
)
    requires
        search_output_ok(xs, b, limit),
        search_output_ok(ys, b, limit),
        0 <= m <= xs.len(),
        m <= ys.len(),
        forall|j: int| 0 <= j < m ==> #[trigger] sol_at(xs, j) == sol_at(ys, j),
    ensures
        xs.len() == ys.len(),
        forall|j: int| 0 <= j < xs.len() ==> #[trigger] sol_at(xs, j) == sol_at(ys, j),
    decreases xs.len() - m,
{
    if m == xs.len() {
        if m < ys.len() {
            // a grid ys still reports would have to appear in xs as well
            let s = sol_at(ys, m);
            assert(is_solution_for(s, b));
            if batch_contains(xs, 0, s) {
                let mm = lemma_entry_found(ys, xs, b, limit, m);
                assert(mm >= xs.len());
            } else {
                assert(xs.len() == limit);
                assert(ys.len() <= limit);
            }
        }
    } else if m == ys.len() {
        // symmetric: xs still reports a grid that ys would have to hold
        let s = sol_at(xs, m);
        assert(is_solution_for(s, b));
        if batch_contains(ys, 0, s) {
            let mm = lemma_entry_found(xs, ys, b, limit, m);
            assert(mm >= ys.len());
        } else {
            assert(ys.len() == limit);
            assert(xs.len() <= limit);
        }
    } else {
        let s1 = sol_at(xs, m);
        let s2 = sol_at(ys, m);
        assert(is_solution_for(s1, b));
        assert(is_solution_for(s2, b));
        if s1 != s2 {
            crate::rules::lemma_lex_total(s1, s2);
            if lex_lt(s1, s2) {
                if batch_contains(ys, 0, s1) {
                    let mm = lemma_entry_found(xs, ys, b, limit, m);
                    if mm == m {
                        assert(s1 == s2);
                    } else {
                        assert(lex_lt(sol_at(ys, m), sol_at(ys, mm)));
                        crate::rules::lemma_lex_asymmetric(s1, s2);
                    }
                } else {
                    assert(ys.len() == limit);
                    assert(batch_all_lt(ys, 0, s1));
                    assert(lex_lt(s2, s1));
                    crate::rules::lemma_lex_asymmetric(s1, s2);
                }
            } else {
                if batch_contains(xs, 0, s2) {
                    let mm = lemma_entry_found(ys, xs, b, limit, m);
                    if mm == m {
                        assert(s1 == s2);
                    } else {
                        assert(lex_lt(sol_at(xs, m), sol_at(xs, mm)));
                        crate::rules::lemma_lex_asymmetric(s2, s1);
                    }
                } else {
                    assert(xs.len() == limit);
                    assert(batch_all_lt(xs, 0, s2));
                    assert(lex_lt(s1, s2));
                    crate::rules::lemma_lex_asymmetric(s2, s1);
                }
            }
        }
        assert forall|j: int| 0 <= j < m + 1 implies #[trigger] sol_at(xs, j) == sol_at(ys, j) by {
            if j < m {
                assert(sol_at(xs, j) == sol_at(ys, j));
            }
        }
        lemma_outputs_agree_from(xs, ys, b, limit, m + 1);
    }
}

/// Enumerate the valid completions of the board, in ascending-digit,
/// row-major depth-first order, collecting at most `limit` of them. The
/// board itself is left exactly as it was: in particular every given cell
/// keeps its digit. A board whose occupied cells already break the sudoku
/// constraint has no completion, and the search reports none.
pub fn solve(board: &mut Board, limit: usize) -> (sols: Vec<Vec<u8>>)
    requires
        old(board).wf(),
    ensures
        final(board).wf(),
        final(board)@ == old(board)@,
        forall|r: int, c: int|
            in_range(r, c) && old(board)@.given[idx_of(r, c)] ==> cell_at(
                final(board)@.cells,
                r,
                c,
            ) == cell_at(old(board)@.cells, r, c),
        search_output_ok(sols@, old(board)@.cells, limit as int),
{
    let mut out: Vec<Vec<u8>> = Vec::new();
    if board.is_valid() {
        dfs(board, 0, 0, limit, &mut out);
    } else {
        proof {
            lemma_invalid_no_solutions(board@.cells);
        }
    }
    out
}

} // verus!
