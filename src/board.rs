//! The board type and its row-major cell layout.
use vstd::prelude::*;
use vstd::relations::injective_on;
use vstd::set_lib::{lemma_int_range, lemma_len_subset, lemma_map_size, set_int_range};

verus! {

/// Row of the cell at row-major index `i`.
pub open spec fn row_of(i: int) -> int {
    i / 9
}

/// Column of the cell at row-major index `i`.
pub open spec fn col_of(i: int) -> int {
    i % 9
}

/// Index of the 3x3 box holding the cell at row-major index `i`.
pub open spec fn box_of(i: int) -> int {
    (i / 9 / 3) * 3 + (i % 9) / 3
}

/// Two distinct cells that share a row, a column or a box.
pub open spec fn peers(i: int, j: int) -> bool {
    i != j && (row_of(i) == row_of(j) || col_of(i) == col_of(j) || box_of(i) == box_of(j))
}

/// A completely filled grid, given row-major, that breaks no rule: every
/// cell holds a digit 1 to 9 and no two peers hold the same digit.
pub open spec fn is_valid_solution(s: Seq<u32>) -> bool {
    &&& s.len() == 81
    &&& forall|i: int| 0 <= i < 81 ==> 1 <= #[trigger] s[i] <= 9
    &&& forall|i: int, j: int| 0 <= i < 81 && 0 <= j < 81 && peers(i, j) ==> #[trigger] s[i] != #[trigger] s[j]
}

/// A 9x9 Sudoku grid; 0 marks an empty cell.
#[derive(Clone, Copy, Debug, PartialEq, Eq)]
pub struct SudokuBoard {
    pub values: [[u32; 9]; 9],
}

impl SudokuBoard {
    /// The cell at row-major index `i`.
    pub open spec fn cell(self, i: int) -> u32 {
        self.values[i / 9][i % 9]
    }

    /// The cells in row-major order.
    pub open spec fn cells(self) -> Seq<u32> {
        Seq::new(81, |i: int| self.cell(i))
    }

    /// Every cell holds 0 or a digit 1 to 9.
    pub open spec fn wf(self) -> bool {
        forall|i: int| 0 <= i < 81 ==> #[trigger] self.cell(i) <= 9
    }

    /// `s` is a valid completed grid that keeps every given digit.
    pub open spec fn is_solved_by(self, s: Seq<u32>) -> bool {
        &&& is_valid_solution(s)
        &&& forall|i: int| 0 <= i < 81 && self.cell(i) != 0 ==> s[i] == #[trigger] self.cell(i)
    }

    /// The cells in row-major order, as a flat array.
    pub fn to_cells(&self) -> (r: [u32; 81])
        ensures
            r@ == self.cells(),
    {
        let r = flatten_grid(self.values);
        assert(r@ =~= self.cells());
        r
    }

    /// The board whose cells, in row-major order, are `cells`.
    pub fn from_cells(cells: [u32; 81]) -> (r: SudokuBoard)
        ensures
            r.cells() == cells@,
    {
        let r = SudokuBoard { values: unflatten_grid(cells) };
        assert forall|i: int| 0 <= i < 81 implies #[trigger] r.cell(i) == cells@[i] by {
            assert((i / 9) * 9 + i % 9 == i);
        }
        assert(r.cells() =~= cells@);
        r
    }
}

impl Default for SudokuBoard {
    /// The empty board.
    fn default() -> (r: SudokuBoard)
        ensures
            r.cells() == Seq::new(81, |i: int| 0u32),
    {
        let r = SudokuBoard::from_cells([0; 81]);
        assert(r.cells() =~= Seq::new(81, |i: int| 0u32));
        r
    }
}

/// Relies on bytemuck::cast from `[[u32; 9]; 9]` to `[u32; 81]`: both have
/// the same size, and the rows of a nested array lie one after another, so
/// the result lists the cells in row-major order.
#[verifier::external_body]
fn flatten_grid(values: [[u32; 9]; 9]) -> (r: [u32; 81])
    ensures
        forall|i: int| 0 <= i < 81 ==> #[trigger] r[i] == values[i / 9][i % 9],
{
    bytemuck::cast(values)
}

/// Relies on bytemuck::cast from `[u32; 81]` to `[[u32; 9]; 9]`: the inverse
/// of the row-major layout above.
#[verifier::external_body]
fn unflatten_grid(cells: [u32; 81]) -> (r: [[u32; 9]; 9])
    ensures
        forall|i: int, j: int| 0 <= i < 9 && 0 <= j < 9 ==> #[trigger] r[i][j] == cells[i * 9 + j],
{
    bytemuck::cast(cells)
}

/// The character a cell value is shown as: `.` for an empty cell, else its digit.
pub open spec fn glyph(v: u32) -> char {
    if v == 0 {
        '.'
    } else if v == 1 {
        '1'
    } else if v == 2 {
        '2'
    } else if v == 3 {
        '3'
    } else if v == 4 {
        '4'
    } else if v == 5 {
        '5'
    } else if v == 6 {
        '6'
    } else if v == 7 {
        '7'
    } else if v == 8 {
        '8'
    } else {
        '9'
    }
}

/// What follows the cell at row-major index `i` in the text of a board: a
/// space inside a row, a line break after a row, nothing after the last cell.
pub open spec fn separator(i: int) -> Seq<char> {
    if i == 80 {
        Seq::empty()
    } else if i % 9 == 8 {
        seq!['\n']
    } else {
        seq![' ']
    }
}

/// The text of the first `n` cells of `cells`.
pub open spec fn text_of(cells: Seq<u32>, n: nat) -> Seq<char>
    decreases n,
{
    if n == 0 {
        Seq::empty()
    } else {
        text_of(cells, (n - 1) as nat) + seq![glyph(cells[n - 1])] + separator(n - 1)
    }
}

/// The text of one cell value.
fn glyph_str(v: u32) -> (r: &'static str)
    requires
        v <= 9,
    ensures
        r@ == seq![glyph(v)],
{
    match v {
        0 => {
            proof {
                reveal_strlit(".");
            }
            "."
        },
        1 => {
            proof {
                reveal_strlit("1");
            }
            "1"
        },
        2 => {
            proof {
                reveal_strlit("2");
            }
            "2"
        },
        3 => {
            proof {
                reveal_strlit("3");
            }
            "3"
        },
        4 => {
            proof {
                reveal_strlit("4");
            }
            "4"
        },
        5 => {
            proof {
                reveal_strlit("5");
            }
            "5"
        },
        6 => {
            proof {
                reveal_strlit("6");
            }
            "6"
        },
        7 => {
            proof {
                reveal_strlit("7");
            }
            "7"
        },
        8 => {
            proof {
                reveal_strlit("8");
            }
            "8"
        },
        _ => {
            proof {
                reveal_strlit("9");
            }
            "9"
        },
    }
}

impl SudokuBoard {
    /// The board as text: one line per row, cells separated by spaces, `.`
    /// for an empty cell.
    pub fn to_text(&self) -> (r: String)
        requires
            self.wf(),
        ensures
            r@ == text_of(self.cells(), 81),
    {
        let cells = self.to_cells();
        let mut text = String::new();
        let mut i: usize = 0;
        while i < 81
            invariant
                i <= 81,
                cells@ == self.cells(),
                self.wf(),
                text@ == text_of(self.cells(), i as nat),
            decreases 81 - i,
        {
            text.append(glyph_str(cells[i]));
            if i == 80 {
            } else if i % 9 == 8 {
                proof {
                    reveal_strlit("\n");
                }
                text.append("\n");
            } else {
                proof {
                    reveal_strlit(" ");
                }
                text.append(" ");
            }
            assert(text@ =~= text_of(self.cells(), (i + 1) as nat));
            i += 1;
        }
        text
    }
}

/// The example puzzle of moderate difficulty.
pub fn easy_example() -> (r: SudokuBoard)
    ensures
        r.wf(),
        r.cells() == seq![
                0u32, 0, 0, 7, 0, 4, 0, 2, 0,
                0, 0, 0, 0, 0, 0, 9, 0, 6,
                0, 4, 0, 0, 0, 8, 0, 0, 0,
                0, 5, 0, 0, 0, 0, 2, 0, 0,
                0, 7, 0, 3, 9, 0, 0, 5, 0,
                0, 0, 4, 0, 0, 0, 0, 6, 1,
                0, 0, 1, 0, 8, 0, 0, 0, 3,
                0, 0, 8, 0, 0, 0, 0, 0, 0,
                5, 2, 0, 0, 0, 0, 4, 0, 0,
            ],
{
    let r = SudokuBoard {
        values: [
                [0, 0, 0, 7, 0, 4, 0, 2, 0],
                [0, 0, 0, 0, 0, 0, 9, 0, 6],
                [0, 4, 0, 0, 0, 8, 0, 0, 0],
                [0, 5, 0, 0, 0, 0, 2, 0, 0],
                [0, 7, 0, 3, 9, 0, 0, 5, 0],
                [0, 0, 4, 0, 0, 0, 0, 6, 1],
                [0, 0, 1, 0, 8, 0, 0, 0, 3],
                [0, 0, 8, 0, 0, 0, 0, 0, 0],
                [5, 2, 0, 0, 0, 0, 4, 0, 0],
            ],
    };
    assert(r.cells() =~= seq![
                0u32, 0, 0, 7, 0, 4, 0, 2, 0,
                0, 0, 0, 0, 0, 0, 9, 0, 6,
                0, 4, 0, 0, 0, 8, 0, 0, 0,
                0, 5, 0, 0, 0, 0, 2, 0, 0,
                0, 7, 0, 3, 9, 0, 0, 5, 0,
                0, 0, 4, 0, 0, 0, 0, 6, 1,
                0, 0, 1, 0, 8, 0, 0, 0, 3,
                0, 0, 8, 0, 0, 0, 0, 0, 0,
                5, 2, 0, 0, 0, 0, 4, 0, 0,
            ]);
    r
}

/// The hard example puzzle, whose first row is `4 . . . . . 8 . 5`.
pub fn hard_example() -> (r: SudokuBoard)
    ensures
        r.wf(),
        r.cells() == seq![
                4u32, 0, 0, 0, 0, 0, 8, 0, 5,
                0, 3, 0, 0, 0, 0, 0, 0, 0,
                0, 0, 0, 7, 0, 0, 0, 0, 0,
                0, 2, 0, 0, 0, 0, 0, 6, 0,
                0, 0, 0, 0, 8, 0, 4, 0, 0,
                0, 0, 0, 0, 1, 0, 0, 0, 0,
                0, 0, 0, 6, 0, 3, 0, 7, 0,
                5, 0, 0, 2, 0, 0, 0, 0, 0,
                1, 0, 4, 0, 0, 0, 0, 0, 0,
            ],
{
    let r = SudokuBoard {
        values: [
                [4, 0, 0, 0, 0, 0, 8, 0, 5],
                [0, 3, 0, 0, 0, 0, 0, 0, 0],
                [0, 0, 0, 7, 0, 0, 0, 0, 0],
                [0, 2, 0, 0, 0, 0, 0, 6, 0],
                [0, 0, 0, 0, 8, 0, 4, 0, 0],
                [0, 0, 0, 0, 1, 0, 0, 0, 0],
                [0, 0, 0, 6, 0, 3, 0, 7, 0],
                [5, 0, 0, 2, 0, 0, 0, 0, 0],
                [1, 0, 4, 0, 0, 0, 0, 0, 0],
            ],
    };
    assert(r.cells() =~= seq![
                4u32, 0, 0, 0, 0, 0, 8, 0, 5,
                0, 3, 0, 0, 0, 0, 0, 0, 0,
                0, 0, 0, 7, 0, 0, 0, 0, 0,
                0, 2, 0, 0, 0, 0, 0, 6, 0,
                0, 0, 0, 0, 8, 0, 4, 0, 0,
                0, 0, 0, 0, 1, 0, 0, 0, 0,
                0, 0, 0, 6, 0, 3, 0, 7, 0,
                5, 0, 0, 2, 0, 0, 0, 0, 0,
                1, 0, 4, 0, 0, 0, 0, 0, 0,
            ]);
    r
}

/// Row of the cell at position `k` (0 to 8) of unit `u`: units 0 to 8 are
/// the rows, 9 to 17 the columns and 18 to 26 the boxes.
pub open spec fn unit_row(u: int, k: int) -> int {
    if u < 9 {
        u
    } else if u < 18 {
        k
    } else {
        (u - 18) / 3 * 3 + k / 3
    }
}

/// Column of the cell at position `k` of unit `u`.
pub open spec fn unit_col(u: int, k: int) -> int {
    if u < 9 {
        k
    } else if u < 18 {
        u - 9
    } else {
        (u - 18) % 3 * 3 + k % 3
    }
}

/// Row-major index of the cell at position `k` of unit `u`.
pub open spec fn unit_cell(u: int, k: int) -> int {
    unit_row(u, k) * 9 + unit_col(u, k)
}

proof fn lemma_cell_parts(r: int, c: int)
    requires
        0 <= r < 9,
        0 <= c < 9,
    ensures
        row_of(r * 9 + c) == r,
        col_of(r * 9 + c) == c,
        box_of(r * 9 + c) == (r / 3) * 3 + c / 3,
{
}

proof fn lemma_div3(a: int, b: int)
    requires
        0 <= a < 3,
        0 <= b < 3,
    ensures
        (a * 3 + b) / 3 == a,
        (a * 3 + b) % 3 == b,
{
}

/// Two positions of one unit are two peer cells of the grid.
proof fn lemma_unit_cells(u: int, k1: int, k2: int)
    requires
        0 <= u < 27,
        0 <= k1 < 9,
        0 <= k2 < 9,
        k1 != k2,
    ensures
        0 <= unit_cell(u, k1) < 81,
        0 <= unit_cell(u, k2) < 81,
        peers(unit_cell(u, k1), unit_cell(u, k2)),
{
    let r1 = unit_row(u, k1);
    let c1 = unit_col(u, k1);
    let r2 = unit_row(u, k2);
    let c2 = unit_col(u, k2);
    if u >= 18 {
        let b = u - 18;
        lemma_div3(b / 3, k1 / 3);
        lemma_div3(b / 3, k2 / 3);
        lemma_div3(b % 3, k1 % 3);
        lemma_div3(b % 3, k2 % 3);
        assert(r1 / 3 == b / 3 && r2 / 3 == b / 3);
        assert(c1 / 3 == b % 3 && c2 / 3 == b % 3);
        assert(r1 != r2 || c1 != c2);
    }
    assert(0 <= r1 < 9 && 0 <= c1 < 9 && 0 <= r2 < 9 && 0 <= c2 < 9);
    lemma_cell_parts(r1, c1);
    lemma_cell_parts(r2, c2);
}

/// In a valid completed grid every row, column and box holds each digit 1
/// to 9 exactly once.
pub proof fn lemma_each_digit_once(s: Seq<u32>, u: int, d: u32)
    requires
        is_valid_solution(s),
        0 <= u < 27,
        1 <= d <= 9,
    ensures
        exists|k: int| 0 <= k < 9 && #[trigger] s[unit_cell(u, k)] == d,
        forall|k1: int, k2: int|
            0 <= k1 < 9 && 0 <= k2 < 9 && #[trigger] s[unit_cell(u, k1)] == d && #[trigger] s[unit_cell(u, k2)] == d ==> k1 == k2,
{
    assert forall|k1: int, k2: int|
        0 <= k1 < 9 && 0 <= k2 < 9 && k1 != k2 implies #[trigger] s[unit_cell(u, k1)] != #[trigger] s[unit_cell(u, k2)] by {
        lemma_unit_cells(u, k1, k2);
    }
    if !(exists|k: int| 0 <= k < 9 && #[trigger] s[unit_cell(u, k)] == d) {
        let f = |k: int| s[unit_cell(u, k)] as int;
        let a = set_int_range(0, 9);
        let b = a.map(f);
        lemma_int_range(0, 9);
        assert forall|k: int| 0 <= k < 9 implies 0 <= #[trigger] unit_cell(u, k) < 81 by {
            lemma_unit_cells(u, k, if k == 0 { 1 } else { 0 });
        }
        assert(injective_on(f, a));
        lemma_map_size(a, b, f);
        let c = set_int_range(1, 10).remove(d as int);
        lemma_int_range(1, 10);
        assert forall|x: int| b.contains(x) implies c.contains(x) by {
            let k = choose|k: int| a.contains(k) && f(k) == x;
            assert(s[unit_cell(u, k)] != d);
        }
        lemma_len_subset(b, c);
        assert(false);
    }
}

} // verus!
