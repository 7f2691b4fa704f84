//! The board: one optional queen per row, with the column-conflict and
//! diagonal-conflict queries that gate every placement.

use vstd::prelude::*;

verus! {

/// Absolute difference of two mathematical integers.
pub open spec fn abs_diff(a: int, b: int) -> int {
    if a >= b {
        a - b
    } else {
        b - a
    }
}

/// No row of `b` holds a queen in column `col`.
pub open spec fn col_free(b: Seq<Option<i8>>, col: int) -> bool {
    forall|i: int| 0 <= i < b.len() ==> ((#[trigger] b[i]) matches Some(c) ==> c as int != col)
}

/// The squares `(row1, col1)` and `(row2, col2)` do not share a diagonal.
pub open spec fn diag_ok(row1: int, col1: int, row2: int, col2: int) -> bool {
    abs_diff(row1, row2) != abs_diff(col1, col2)
}

/// The square `(row, col)` shares no diagonal with any queen placed on `b`.
pub open spec fn all_diag_ok(b: Seq<Option<i8>>, row: int, col: int) -> bool {
    forall|i: int|
        0 <= i < b.len() ==> ((#[trigger] b[i]) matches Some(c) ==> diag_ok(row, col, i, c as int))
}

/// The square `(row, col)` may take a queen: both coordinates are on the
/// board, the column is free, and no placed queen shares a diagonal with it.
pub open spec fn valid_at(b: Seq<Option<i8>>, row: int, col: int) -> bool {
    &&& 0 <= row < b.len()
    &&& 0 <= col < b.len()
    &&& col_free(b, col)
    &&& all_diag_ok(b, row, col)
}

/// A board of `n` rows with no queens placed.
pub open spec fn empty_board(n: nat) -> Seq<Option<i8>> {
    Seq::new(n, |i: int| None)
}

/// The column a row holds, with 0 standing in for an empty row.
pub open spec fn placed_col(o: Option<i8>) -> i8 {
    match o {
        Some(c) => c,
        None => 0,
    }
}

/// The columns of a board, row by row, 0 where a row is empty.
pub open spec fn board_cols(b: Seq<Option<i8>>) -> Seq<i8> {
    Seq::new(b.len(), |i: int| placed_col(b[i]))
}

/// An N×N chess board that records at most one queen per row.
/// Its view is the sequence of rows, each holding the column of its
/// queen, or `None` where the row is empty.
pub struct Board {
    size: usize,
    rows: Vec<Option<i8>>,
}

impl View for Board {
    type V = Seq<Option<i8>>;

    closed spec fn view(&self) -> Seq<Option<i8>> {
        self.rows@
    }
}

impl Board {
    /// One slot per row, and every placed column lies on the board.
    pub closed spec fn wf(&self) -> bool {
        &&& self.rows@.len() == self.size
        &&& forall|i: int|
            0 <= i < self.rows@.len() ==> ((#[trigger] self.rows@[i]) matches Some(c)
                ==> (0 <= c as int && (c as int) < self.size))
    }

    /// Builds an empty board of the given dimension.
    pub fn new(size: usize) -> (b: Board)
        ensures
            b.wf(),
            b@ == empty_board(size as nat),
    {
        let mut rows: Vec<Option<i8>> = Vec::new();
        let mut i: usize = 0;
        while i < size
            invariant
                i <= size,
                rows@.len() == i,
                forall|j: int| 0 <= j < i ==> rows@[j] is None,
            decreases size - i,
        {
            rows.push(None);
            i = i + 1;
        }
        proof {
            assert(rows@ =~= empty_board(size as nat));
        }
        Board { size, rows }
    }

    /// The board's dimension.
    pub fn size(&self) -> (n: usize)
        requires
            self.wf(),
        ensures
            n == self@.len(),
    {
        self.size
    }

    /// The column of the queen in `row`, or `None` if the row is out of
    /// range or holds no queen.
    pub fn get(&self, row: usize) -> (r: Option<i8>)
        requires
            self.wf(),
        ensures
            r == if row < self@.len() {
                self@[row as int]
            } else {
                None::<i8>
            },
    {
        if row < self.size {
            self.rows[row]
        } else {
            None
        }
    }

    /// True iff no row currently holds a queen in `column`.
    pub fn check_column(&self, column: i8) -> (r: bool)
        requires
            self.wf(),
        ensures
            r == col_free(self@, column as int),
    {
        let n = self.rows.len();
        let mut i: usize = 0;
        while i < n
            invariant
                i <= n,
                n == self.rows@.len(),
                forall|j: int|
                    0 <= j < i ==> ((#[trigger] self.rows@[j]) matches Some(c)
                        ==> c as int != column as int),
            decreases n - i,
        {
            if let Some(c) = self.rows[i] {
                if c == column {
                    return false;
                }
            }
            i = i + 1;
        }
        true
    }

    /// True iff the two squares are not on a shared diagonal. Pure in its
    /// four coordinates; the stored board state plays no part.
    pub fn check_diagonal(&self, row_one: usize, col_one: i8, row_two: usize, col_two: i8) -> (r:
        bool)
        ensures
            r == diag_ok(row_one as int, col_one as int, row_two as int, col_two as int),
    {
        let row_diff = if row_one >= row_two {
            row_one - row_two
        } else {
            row_two - row_one
        };
        let signed = col_one as i16 - col_two as i16;
        let col_diff: i16 = if signed < 0 {
            -signed
        } else {
            signed
        };
        row_diff != col_diff as usize
    }

    /// True iff the candidate square `(row, col)` shares no diagonal with
    /// any queen already placed on the board. Scans exactly the rows that
    /// hold a queen.
    pub fn check_all_diagonal(&self, row: usize, col: i8) -> (r: bool)
        requires
            self.wf(),
        ensures
            r == all_diag_ok(self@, row as int, col as int),
    {
        let n = self.rows.len();
        let mut i: usize = 0;
        while i < n
            invariant
                i <= n,
                n == self.rows@.len(),
                forall|j: int|
                    0 <= j < i ==> ((#[trigger] self.rows@[j]) matches Some(c)
                        ==> diag_ok(row as int, col as int, j, c as int)),
            decreases n - i,
        {
            if let Some(q_col) = self.rows[i] {
                if !self.check_diagonal(row, col, i, q_col) {
                    return false;
                }
            }
            i = i + 1;
        }
        true
    }

    /// True iff a queen may be placed at `(row, column)`: the column is
    /// free, both coordinates are on the board, and no placed queen shares
    /// a diagonal with the square.
    pub fn check_valid(&self, row: usize, column: i8) -> (r: bool)
        requires
            self.wf(),
        ensures
            r == valid_at(self@, row as int, column as int),
    {
        if !self.check_column(column) {
            return false;
        }
        if !(row < self.size && column >= 0 && (column as usize) < self.size) {
            return false;
        }
        self.check_all_diagonal(row, column)
    }

    /// Places a queen at `(row, column)` and reports success if the square
    /// passes `check_valid`; otherwise leaves the board unchanged and
    /// reports failure.
    pub fn set(&mut self, row: usize, column: i8) -> (r: bool)
        requires
            old(self).wf(),
        ensures
            final(self).wf(),
            r == valid_at(old(self)@, row as int, column as int),
            final(self)@ == if r {
                old(self)@.update(row as int, Some(column))
            } else {
                old(self)@
            },
    {
        if self.check_valid(row, column) {
            self.rows.set(row, Some(column));
            true
        } else {
            false
        }
    }

    /// Clears the queen of `row` unconditionally when both coordinates are
    /// in range, and reports whether it did; the stored column is not
    /// consulted. Used to restore the board while backtracking.
    pub fn unset(&mut self, row: usize, column: i8) -> (r: bool)
        requires
            old(self).wf(),
        ensures
            final(self).wf(),
            r == (row < old(self)@.len() && 0 <= column as int && (column as int) < old(
                self,
            )@.len()),
            final(self)@ == if r {
                old(self)@.update(row as int, None::<i8>)
            } else {
                old(self)@
            },
    {
        if row < self.size && column >= 0 && (column as usize) < self.size {
            self.rows.set(row, None);
            true
        } else {
            false
        }
    }

    /// An independent by-value snapshot of the placement: the column of
    /// each row in row order, 0 where a row is empty. The search captures
    /// a complete solution through this before it keeps mutating the board.
    pub fn columns(&self) -> (s: Vec<i8>)
        requires
            self.wf(),
        ensures
            s@ == board_cols(self@),
    {
        let n = self.rows.len();
        let mut s: Vec<i8> = Vec::new();
        let mut i: usize = 0;
        while i < n
            invariant
                i <= n,
                n == self.rows@.len(),
                s@.len() == i,
                forall|j: int| 0 <= j < i ==> s@[j] == placed_col(self.rows@[j]),
            decreases n - i,
        {
            let c = match self.rows[i] {
                Some(c) => c,
                None => 0,
            };
            s.push(c);
            i = i + 1;
        }
        proof {
            assert(s@ =~= board_cols(self@));
        }
        s
    }
}

/// Every placed column of a well-formed board lies on the board — in
/// particular it is non-negative, so it has a decimal numeral.
pub proof fn lemma_wf_cols_in_range(b: &Board)
    requires
        b.wf(),
    ensures
        forall|i: int|
            0 <= i < b@.len() ==> ((#[trigger] b@[i]) matches Some(c) ==> (0 <= c as int && (
            c as int) < b@.len())),
{
}

/// Placing a queen on an empty row and at once removing it restores the
/// board exactly, so every validity query afterwards answers as it did
/// before the placement — the restore step of backtracking loses nothing.
pub proof fn lemma_place_then_unplace(b: Seq<Option<i8>>, row: int, col: i8, row2: int, col2: int)
    requires
        0 <= row < b.len(),
        b[row] is None,
    ensures
        b.update(row, Some(col)).update(row, None::<i8>) == b,
        valid_at(b.update(row, Some(col)).update(row, None::<i8>), row2, col2) == valid_at(
            b,
            row2,
            col2,
        ),
{
    assert(b.update(row, Some(col)).update(row, None::<i8>) =~= b);
}

/// A column that has just taken a queen reports occupied; removing that
/// queen from its row frees the column again.
pub proof fn lemma_column_tracks_placement(b: Seq<Option<i8>>, row: int, col: i8)
    requires
        0 <= row < b.len(),
        b[row] is None,
        col_free(b, col as int),
    ensures
        !col_free(b.update(row, Some(col)), col as int),
        col_free(b.update(row, Some(col)).update(row, None::<i8>), col as int),
{
    assert(b.update(row, Some(col))[row] == Some(col));
    assert(b.update(row, Some(col)).update(row, None::<i8>) =~= b);
}

} // verus!
