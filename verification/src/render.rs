//! Plain-text rendering: decimal formatting of coordinates, the compact
//! queen list, and the board grid. Pure presentation derived from the
//! placement; nothing here mutates a board.

use vstd::prelude::*;
use vstd::string::StringExecFns;

use crate::board::{lemma_wf_cols_in_range, Board};

verus! {

/// The digit character for `d` in `0..10`.
pub open spec fn digit_char(d: nat) -> char {
    if d == 0 {
        '0'
    } else if d == 1 {
        '1'
    } else if d == 2 {
        '2'
    } else if d == 3 {
        '3'
    } else if d == 4 {
        '4'
    } else if d == 5 {
        '5'
    } else if d == 6 {
        '6'
    } else if d == 7 {
        '7'
    } else if d == 8 {
        '8'
    } else {
        '9'
    }
}

/// The decimal numeral of `n`, most significant digit first, with no
/// leading zeroes (a single `'0'` for zero).
pub open spec fn dec_rep(n: nat) -> Seq<char>
    decreases n,
{
    if n < 10 {
        seq![digit_char(n)]
    } else {
        dec_rep(n / 10) + seq![digit_char(n % 10)]
    }
}

/// Clamps an integer to a natural number; the rendering below only meets
/// negative values where a board breaks its well-formedness, which no
/// constructor or method of `Board` allows.
pub open spec fn to_nat(x: int) -> nat {
    if x >= 0 {
        x as nat
    } else {
        0
    }
}

/// The one-character string for digit `d`.
fn digit_str(d: usize) -> (r: &'static str)
    requires
        d < 10,
    ensures
        r@ == seq![digit_char(d as nat)],
{
    proof {
        reveal_strlit("0");
        reveal_strlit("1");
        reveal_strlit("2");
        reveal_strlit("3");
        reveal_strlit("4");
        reveal_strlit("5");
        reveal_strlit("6");
        reveal_strlit("7");
        reveal_strlit("8");
        reveal_strlit("9");
    }
    let r = match d {
        0 => "0",
        1 => "1",
        2 => "2",
        3 => "3",
        4 => "4",
        5 => "5",
        6 => "6",
        7 => "7",
        8 => "8",
        _ => "9",
    };
    proof {
        assert(r@ =~= seq![digit_char(d as nat)]);
    }
    r
}

/// Appends the decimal numeral of `n` to `s`.
fn push_dec(s: &mut String, n: usize)
    ensures
        final(s)@ == old(s)@ + dec_rep(n as nat),
    decreases n,
{
    if n >= 10 {
        push_dec(s, n / 10);
    }
    s.append(digit_str(n % 10));
    proof {
        assert(s@ =~= old(s)@ + dec_rep(n as nat));
    }
}

/// The text between the brackets of the queen list: one `{row, column}`
/// entry per placed row from row `i` on, `", "` between entries; `first`
/// says that no entry stands before row `i`.
pub open spec fn queens_entries(b: Seq<Option<i8>>, i: int, first: bool) -> Seq<char>
    decreases b.len() - i,
{
    if i < 0 || i >= b.len() {
        Seq::empty()
    } else {
        match b[i] {
            None => queens_entries(b, i + 1, first),
            Some(c) => (if first {
                Seq::<char>::empty()
            } else {
                ", "@
            }) + "{"@ + dec_rep(i as nat) + ", "@ + dec_rep(to_nat(c as int)) + "}"@
                + queens_entries(b, i + 1, false),
        }
    }
}

/// The compact queen list of a placement: `Queens: [{row, column}, ...]`,
/// placed rows only, in row order.
pub open spec fn queens_string(b: Seq<Option<i8>>) -> Seq<char> {
    "Queens: ["@ + queens_entries(b, 0, true) + "]"@
}

/// The ruler above the grid from column `i` on: `i==` for each column,
/// then a newline.
pub open spec fn grid_header(n: nat, i: nat) -> Seq<char>
    decreases n - i,
{
    if i >= n {
        "\n"@
    } else {
        dec_rep(i) + "=="@ + grid_header(n, i + 1)
    }
}

/// The cells of one row from column `c` on: ` Q ` at the column its queen
/// `q` holds, ` . ` everywhere else.
pub open spec fn grid_cells(q: Option<i8>, n: nat, c: nat) -> Seq<char>
    decreases n - c,
{
    if c >= n {
        Seq::empty()
    } else {
        (match q {
            Some(qc) => if qc as int == c {
                " Q "@
            } else {
                " . "@
            },
            None => " . "@,
        }) + grid_cells(q, n, c + 1)
    }
}

/// The grid lines of the rows from `r` on: each is its row number, a
/// `|`-framed run of cells, and a newline.
pub open spec fn grid_rows(b: Seq<Option<i8>>, r: nat) -> Seq<char>
    decreases b.len() - r,
{
    if r >= b.len() {
        Seq::empty()
    } else {
        dec_rep(r) + "|"@ + grid_cells(b[r as int], b.len(), 0) + "|\n"@ + grid_rows(b, r + 1)
    }
}

/// `===` repeated `k` times, then a newline.
pub open spec fn rule_line(k: nat) -> Seq<char>
    decreases k,
{
    if k == 0 {
        "\n"@
    } else {
        "==="@ + rule_line((k - 1) as nat)
    }
}

/// The whole grid: a column ruler, one framed line per row with ` Q ` at
/// each queen and ` . ` elsewhere, and a closing rule.
pub open spec fn grid_string(b: Seq<Option<i8>>) -> Seq<char> {
    "==="@ + grid_header(b.len(), 0) + grid_rows(b, 0) + rule_line(b.len() + 1)
}

impl Board {
    /// Renders the current placement as a framed grid, one line per row,
    /// `Q` marking each queen and `.` an empty cell.
    pub fn board_grid_string(&self) -> (r: String)
        requires
            self.wf(),
        ensures
            r@ == grid_string(self@),
    {
        proof {
            lemma_wf_cols_in_range(self);
        }
        let n = self.size();
        let mut s = String::new();
        s.append("===");
        let mut i: usize = 0;
        while i < n
            invariant
                self.wf(),
                n == self@.len(),
                i <= n,
                s@ + grid_header(n as nat, i as nat) == "==="@ + grid_header(n as nat, 0),
            decreases n - i,
        {
            push_dec(&mut s, i);
            s.append("==");
            proof {
                assert(s@ + grid_header(n as nat, i as nat + 1) =~= "==="@ + grid_header(
                    n as nat,
                    0,
                ));
            }
            i = i + 1;
        }
        s.append("\n");
        let ghost ruled = "==="@ + grid_header(n as nat, 0);
        proof {
            assert(s@ =~= ruled);
        }
        let mut r: usize = 0;
        while r < n
            invariant
                self.wf(),
                n == self@.len(),
                r <= n,
                forall|j: int|
                    0 <= j < self@.len() ==> ((#[trigger] self@[j]) matches Some(c) ==> 0
                        <= c as int),
                s@ + grid_rows(self@, r as nat) == ruled + grid_rows(self@, 0),
            decreases n - r,
        {
            push_dec(&mut s, r);
            s.append("|");
            let q = self.get(r);
            let ghost line_start = s@;
            let mut c: usize = 0;
            while c < n
                invariant
                    c <= n,
                    q matches Some(qc) ==> 0 <= qc as int,
                    s@ + grid_cells(q, n as nat, c as nat) == line_start + grid_cells(
                        q,
                        n as nat,
                        0,
                    ),
                decreases n - c,
            {
                let cell = match q {
                    Some(qc) => if qc as usize == c {
                        " Q "
                    } else {
                        " . "
                    },
                    None => " . ",
                };
                s.append(cell);
                proof {
                    assert(s@ + grid_cells(q, n as nat, c as nat + 1) =~= line_start + grid_cells(
                        q,
                        n as nat,
                        0,
                    ));
                }
                c = c + 1;
            }
            s.append("|\n");
            proof {
                assert(s@ + grid_rows(self@, r as nat + 1) =~= ruled + grid_rows(self@, 0));
            }
            r = r + 1;
        }
        let ghost rowed = ruled + grid_rows(self@, 0);
        proof {
            assert(s@ =~= rowed);
        }
        s.append("===");
        proof {
            assert(s@ + rule_line(n as nat) =~= rowed + rule_line(n as nat + 1));
        }
        let mut k: usize = 0;
        while k < n
            invariant
                n == self@.len(),
                k <= n,
                s@ + rule_line((n - k) as nat) == rowed + rule_line(n as nat + 1),
            decreases n - k,
        {
            s.append("===");
            proof {
                assert(s@ + rule_line((n - k - 1) as nat) =~= rowed + rule_line(n as nat + 1));
            }
            k = k + 1;
        }
        s.append("\n");
        proof {
            assert(s@ =~= grid_string(self@));
        }
        s
    }

    /// Renders the state of all queens: `Queens: [{row, column}, ...]`,
    /// placed rows only, in row order.
    pub fn get_queens(&self) -> (r: String)
        requires
            self.wf(),
        ensures
            r@ == queens_string(self@),
    {
        proof {
            lemma_wf_cols_in_range(self);
        }
        let n = self.size();
        let mut s = String::new();
        s.append("Queens: [");
        let mut first: bool = true;
        let mut i: usize = 0;
        while i < n
            invariant
                self.wf(),
                n == self@.len(),
                i <= n,
                forall|j: int|
                    0 <= j < self@.len() ==> ((#[trigger] self@[j]) matches Some(c) ==> 0
                        <= c as int),
                s@ + queens_entries(self@, i as int, first) == "Queens: ["@ + queens_entries(
                    self@,
                    0,
                    true,
                ),
            decreases n - i,
        {
            match self.get(i) {
                Some(c) => {
                    if !first {
                        s.append(", ");
                    }
                    s.append("{");
                    push_dec(&mut s, i);
                    s.append(", ");
                    push_dec(&mut s, c as usize);
                    s.append("}");
                    first = false;
                    proof {
                        assert(s@ + queens_entries(self@, i as int + 1, false) =~= "Queens: ["@
                            + queens_entries(self@, 0, true));
                    }
                },
                None => {},
            }
            i = i + 1;
        }
        s.append("]");
        proof {
            assert(s@ =~= queens_string(self@));
        }
        s
    }
}

} // verus!
