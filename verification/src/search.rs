//! The backtracking search: tries every column of every row in ascending
//! order, prunes on conflict, restores the board on backtrack, and collects
//! each complete placement.

use vstd::arithmetic::power::{lemma_pow0, lemma_pow_increases, lemma_pow_positive, pow};
use vstd::prelude::*;

use crate::board::{board_cols, diag_ok, empty_board, valid_at, Board};

verus! {

/// Largest board dimension the solver accepts; above it the search is
/// declined outright rather than attempted.
pub const MAX_SIZE: usize = 10;

/// The solutions the search emits from board `b` when rows below `row`
/// are already decided and `row` is the next to fill, in emission order:
/// candidate columns are tried in ascending order at every row.
pub open spec fn sols_from(b: Seq<Option<i8>>, row: int) -> Seq<Seq<i8>>
    decreases b.len() - row, b.len() + 1,
{
    if row < 0 || b.len() < row {
        Seq::empty()
    } else if row == b.len() {
        seq![board_cols(b)]
    } else {
        sols_cols(b, row, 0)
    }
}

/// The solutions the search emits at `row` trying candidate columns `col`
/// and upward.
pub open spec fn sols_cols(b: Seq<Option<i8>>, row: int, col: int) -> Seq<Seq<i8>>
    decreases b.len() - row, b.len() - col,
{
    if !(0 <= row < b.len()) || !(0 <= col < b.len()) {
        Seq::empty()
    } else {
        (if valid_at(b, row, col) {
            sols_from(b.update(row, Some(col as i8)), row + 1)
        } else {
            Seq::empty()
        }) + sols_cols(b, row, col + 1)
    }
}

/// How many solutions the search finds from `b` at `row`.
pub open spec fn count_from(b: Seq<Option<i8>>, row: int) -> nat {
    sols_from(b, row).len()
}

/// At most `b.len() - col` candidate columns remain at a row, each opening
/// one subtree a row deeper.
proof fn lemma_sols_cols_bound(b: Seq<Option<i8>>, row: int, col: int)
    requires
        0 <= row < b.len(),
        0 <= col <= b.len(),
        b.len() <= MAX_SIZE,
    ensures
        sols_cols(b, row, col).len() <= (b.len() - col) * pow(10, (b.len() - row - 1) as nat),
    decreases b.len() - row, b.len() - col,
{
    let p = pow(10, (b.len() - row - 1) as nat);
    lemma_pow_positive(10, (b.len() - row - 1) as nat);
    if col == b.len() {
        assert(sols_cols(b, row, col).len() == 0);
    } else {
        lemma_sols_cols_bound(b, row, col + 1);
        if valid_at(b, row, col) {
            let b2 = b.update(row, Some(col as i8));
            lemma_sols_from_bound(b2, row + 1);
        }
        assert((b.len() - col) * p == p + (b.len() - col - 1) * p) by (nonlinear_arith);
    }
}

/// No more than `10^(b.len() - row)` solutions can come out of a search
/// that still has `b.len() - row` rows to fill on a board of dimension at
/// most `MAX_SIZE`; the search's running count therefore fits in a `u64`.
proof fn lemma_sols_from_bound(b: Seq<Option<i8>>, row: int)
    requires
        0 <= row <= b.len(),
        b.len() <= MAX_SIZE,
    ensures
        sols_from(b, row).len() <= pow(10, (b.len() - row) as nat),
    decreases b.len() - row, b.len() + 1,
{
    if row == b.len() {
        lemma_pow0(10);
    } else {
        lemma_sols_cols_bound(b, row, 0);
        let p = pow(10, (b.len() - row - 1) as nat);
        lemma_pow_positive(10, (b.len() - row - 1) as nat);
        assert(pow(10, (b.len() - row) as nat) == 10 * p) by {
            reveal(pow);
        }
        assert(b.len() * p <= 10 * p) by (nonlinear_arith)
            requires
                0 <= b.len() <= 10,
                p > 0,
        ;
    }
}

/// One step of the backtracking search: fills `row` and every row after
/// it. At each row it tries the candidate columns in ascending order,
/// prunes the ones `check_valid` rejects, and after every recursion
/// unconditionally removes the queen it placed, so the board leaves in
/// exactly the state it arrived in. Every complete placement is captured
/// by value and appended to `solutions`; the return value is how many
/// were found.
pub fn backtrack(board: &mut Board, row: usize, solutions: &mut Vec<Vec<i8>>) -> (count: u64)
    requires
        old(board).wf(),
        old(board)@.len() <= MAX_SIZE,
        row <= old(board)@.len(),
        forall|i: int| row <= i < old(board)@.len() ==> old(board)@[i] is None,
    ensures
        final(board).wf(),
        final(board)@ == old(board)@,
        count == count_from(old(board)@, row as int),
        final(solutions).deep_view() == old(solutions).deep_view() + sols_from(
            old(board)@,
            row as int,
        ),
    decreases MAX_SIZE - row,
{
    let size = board.size();
    if row == size {
        let snap = board.columns();
        solutions.push(snap);
        proof {
            assert(snap.deep_view() =~= snap@);
            assert(solutions.deep_view() =~= old(solutions).deep_view() + sols_from(
                old(board)@,
                row as int,
            ));
        }
        return 1;
    }
    let ghost b0 = board@;
    let ghost total = sols_from(b0, row as int);
    let ghost s0 = old(solutions).deep_view();
    proof {
        lemma_sols_from_bound(b0, row as int);
        lemma_pow_increases(10, (b0.len() - row) as nat, 10);
        assert(pow(10, 10) == 10_000_000_000) by {
            reveal_with_fuel(pow, 11);
        }
    }
    let mut count: u64 = 0;
    let mut col: usize = 0;
    while col < size
        invariant
            board.wf(),
            board@ == b0,
            b0.len() == size,
            size <= MAX_SIZE,
            row < size,
            col <= size,
            forall|i: int| row <= i < b0.len() ==> b0[i] is None,
            total == sols_from(b0, row as int),
            total.len() <= 10_000_000_000,
            solutions.deep_view() + sols_cols(b0, row as int, col as int) == s0 + total,
            count == solutions.deep_view().len() - s0.len(),
            s0.len() <= solutions.deep_view().len(),
        decreases size - col,
    {
        let c = col as i8;
        if board.check_valid(row, c) {
            let ghost b1 = b0.update(row as int, Some(c));
            let ghost dvs = solutions.deep_view();
            board.set(row, c);
            let sub = backtrack(board, row + 1, solutions);
            proof {
                assert(sols_cols(b0, row as int, col as int) == sols_from(b1, row as int + 1)
                    + sols_cols(b0, row as int, col as int + 1));
                assert(solutions.deep_view() == dvs + sols_from(b1, row as int + 1));
                assert((dvs + sols_from(b1, row as int + 1)).len() == dvs.len() + sols_from(
                    b1,
                    row as int + 1,
                ).len());
                assert((dvs + sols_cols(b0, row as int, col as int)).len() == dvs.len() + sols_cols(
                    b0,
                    row as int,
                    col as int,
                ).len());
                assert((sols_from(b1, row as int + 1) + sols_cols(b0, row as int, col as int
                    + 1)).len() == sols_from(b1, row as int + 1).len() + sols_cols(
                    b0,
                    row as int,
                    col as int + 1,
                ).len());
                assert((s0 + total).len() == s0.len() + total.len());
                assert(count + sub <= total.len());
            }
            count = count + sub;
            board.unset(row, c);
            proof {
                assert(board@ =~= b0);
                assert(solutions.deep_view() + sols_cols(b0, row as int, col as int + 1) =~= s0
                    + total);
            }
        } else {
            proof {
                assert(sols_cols(b0, row as int, col as int) == sols_cols(
                    b0,
                    row as int,
                    col as int + 1,
                ));
            }
        }
        col = col + 1;
    }
    proof {
        assert(sols_cols(b0, row as int, size as int).len() == 0);
        assert(solutions.deep_view() =~= s0 + total);
    }
    count
}

/// The placed queens of `b` are mutually non-attacking: every stored
/// column is on the board, and no two placed queens share a column or a
/// diagonal.
pub open spec fn consistent(b: Seq<Option<i8>>) -> bool {
    &&& forall|i: int|
        0 <= i < b.len() ==> ((#[trigger] b[i]) matches Some(c) ==> (0 <= c as int && (c as int)
            < b.len()))
    &&& forall|i: int, j: int|
        0 <= i < j < b.len() ==> ((#[trigger] b[i]) matches Some(c1) ==> ((#[trigger] b[j]) matches
        Some(c2) ==> (c1 != c2 && diag_ok(i, c1 as int, j, c2 as int))))
}

/// One complete, fully valid placement of `n` queens: one column per row,
/// every column on the board, all columns pairwise distinct, and no two
/// rows on a shared diagonal.
pub open spec fn solution_ok(s: Seq<i8>, n: nat) -> bool {
    &&& s.len() == n
    &&& forall|i: int| 0 <= i < s.len() ==> (0 <= #[trigger] s[i] as int && (s[i] as int) < n)
    &&& forall|i: int, j: int|
        0 <= i < j < s.len() ==> (s[i] != s[j] && diag_ok(i, #[trigger] s[i] as int, j, #[trigger] s[j] as int))
}

/// A square that passes `valid_at` on a consistent board whose `row` is
/// still empty keeps the board consistent once the queen is written.
proof fn lemma_consistent_place(b: Seq<Option<i8>>, row: int, col: int)
    requires
        consistent(b),
        b.len() <= MAX_SIZE,
        valid_at(b, row, col),
        b[row] is None,
    ensures
        consistent(b.update(row, Some(col as i8))),
{
    let b2 = b.update(row, Some(col as i8));
    assert forall|i: int, j: int|
        0 <= i < j < b2.len() implies ((#[trigger] b2[i]) matches Some(c1) ==> ((
    #[trigger] b2[j]) matches Some(c2) ==> (c1 != c2 && diag_ok(i, c1 as int, j, c2 as int)))) by {
        if b2[i] is Some && b2[j] is Some {
            let c1 = b2[i]->0;
            let c2 = b2[j]->0;
            if i == row {
                // the fresh queen against a queen placed on a later row
                assert(b[j] == b2[j]);
                assert(c1 as int == col);
                assert(c2 as int != col);
                assert(diag_ok(row, col, j, c2 as int));
            } else if j == row {
                // the fresh queen against a queen already placed
                assert(b[i] == b2[i]);
                assert(c2 as int == col);
                assert(c1 as int != col);
                assert(diag_ok(row, col, i, c1 as int));
            } else {
                assert(b[i] == b2[i]);
                assert(b[j] == b2[j]);
            }
        }
    }
}

/// Every solution that the search emits from a consistent board — rows
/// below `row` placed, rows from `row` on still empty — is a complete,
/// fully valid placement.
pub proof fn lemma_sols_from_valid(b: Seq<Option<i8>>, row: int)
    requires
        consistent(b),
        b.len() <= MAX_SIZE,
        0 <= row <= b.len(),
        forall|i: int| 0 <= i < row ==> b[i] is Some,
        forall|i: int| row <= i < b.len() ==> b[i] is None,
    ensures
        forall|k: int|
            0 <= k < sols_from(b, row).len() ==> solution_ok(
                #[trigger] sols_from(b, row)[k],
                b.len(),
            ),
    decreases b.len() - row, b.len() + 1,
{
    if row == b.len() {
        let s = board_cols(b);
        assert forall|i: int, j: int| 0 <= i < j < s.len() implies (s[i] != s[j] && diag_ok(
            i,
            s[i] as int,
            j,
            s[j] as int,
        )) by {
            assert(b[i] matches Some(c1) && c1 == s[i]);
            assert(b[j] matches Some(c2) && c2 == s[j]);
        }
        assert forall|i: int| 0 <= i < s.len() implies (0 <= #[trigger] s[i] as int && (
        s[i] as int) < b.len()) by {
            assert(b[i] matches Some(c) && c == s[i]);
        }
        assert(solution_ok(s, b.len()));
        assert forall|k: int| 0 <= k < sols_from(b, row).len() implies solution_ok(
            #[trigger] sols_from(b, row)[k],
            b.len(),
        ) by {
            assert(sols_from(b, row)[k] == s);
        }
    } else {
        lemma_sols_cols_valid(b, row, 0);
        assert(sols_from(b, row) == sols_cols(b, row, 0));
        assert forall|k: int| 0 <= k < sols_from(b, row).len() implies solution_ok(
            #[trigger] sols_from(b, row)[k],
            b.len(),
        ) by {
            assert(solution_ok(sols_cols(b, row, 0)[k], b.len()));
        }
    }
}

/// As `lemma_sols_from_valid`, for the candidate columns `col` and upward
/// of one row.
proof fn lemma_sols_cols_valid(b: Seq<Option<i8>>, row: int, col: int)
    requires
        consistent(b),
        b.len() <= MAX_SIZE,
        0 <= row < b.len(),
        0 <= col <= b.len(),
        forall|i: int| 0 <= i < row ==> b[i] is Some,
        forall|i: int| row <= i < b.len() ==> b[i] is None,
    ensures
        forall|k: int|
            0 <= k < sols_cols(b, row, col).len() ==> solution_ok(
                #[trigger] sols_cols(b, row, col)[k],
                b.len(),
            ),
    decreases b.len() - row, b.len() - col,
{
    if col == b.len() {
    } else {
        let first = if valid_at(b, row, col) {
            sols_from(b.update(row, Some(col as i8)), row + 1)
        } else {
            Seq::<Seq<i8>>::empty()
        };
        let rest = sols_cols(b, row, col + 1);
        if valid_at(b, row, col) {
            let b2 = b.update(row, Some(col as i8));
            lemma_consistent_place(b, row, col);
            lemma_sols_from_valid(b2, row + 1);
        }
        lemma_sols_cols_valid(b, row, col + 1);
        assert forall|k: int| 0 <= k < sols_cols(b, row, col).len() implies solution_ok(
            #[trigger] sols_cols(b, row, col)[k],
            b.len(),
        ) by {
            if k < first.len() {
                assert(sols_cols(b, row, col)[k] == first[k]);
            } else {
                assert(sols_cols(b, row, col)[k] == rest[k - first.len()]);
            }
        }
    }
}

/// What a call to `solve` produced: the full enumeration for a supported
/// dimension, or a refusal for one above `MAX_SIZE` — a distinct outcome,
/// not to be confused with a search that ran and found nothing.
pub enum SolveOutcome {
    /// The search ran to completion: how many solutions there are and, in
    /// emission order, a column-per-row snapshot of each.
    Solved { count: u64, solutions: Vec<Vec<i8>> },
    /// The dimension is above `MAX_SIZE`; no search was attempted.
    UnsupportedSize,
}

/// Solves the `n`-queens problem: builds an empty `n`×`n` board and
/// enumerates every valid full placement by backtracking, columns tried
/// in ascending order at every row. A dimension above `MAX_SIZE` is
/// declined before any recursion begins.
pub fn solve(n: usize) -> (r: SolveOutcome)
    ensures
        n > MAX_SIZE <==> r is UnsupportedSize,
        r matches SolveOutcome::Solved { count, solutions } ==> {
            &&& count == count_from(empty_board(n as nat), 0)
            &&& solutions.deep_view() == sols_from(empty_board(n as nat), 0)
            &&& forall|k: int|
                0 <= k < solutions.deep_view().len() ==> solution_ok(
                    #[trigger] solutions.deep_view()[k],
                    n as nat,
                )
        },
{
    if n <= MAX_SIZE {
        let mut board = Board::new(n);
        let mut solutions: Vec<Vec<i8>> = Vec::new();
        proof {
            assert(solutions.deep_view() =~= Seq::<Seq<i8>>::empty());
        }
        let count = backtrack(&mut board, 0, &mut solutions);
        proof {
            assert(Seq::<Seq<i8>>::empty() + sols_from(empty_board(n as nat), 0) =~= sols_from(
                empty_board(n as nat),
                0,
            ));
            lemma_sols_from_valid(empty_board(n as nat), 0);
        }
        SolveOutcome::Solved { count, solutions }
    } else {
        SolveOutcome::UnsupportedSize
    }
}

} // verus!
