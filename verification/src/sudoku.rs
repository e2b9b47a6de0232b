//! A 9x9 Sudoku solver: a validator for the row/column/box uniqueness
//! constraints, and a backtracking search that fills the blank cells.

use vstd::prelude::*;

verus! {

/// 9x9 Sudoku grid in reading order.
///
/// Use 1-9 to represent a digit, and 0 to represent a blank or unknown.
pub type Grid = [[u8; 9]; 9];

/// An input grid; it may contain blanks.
pub type Puzzle = Grid;

/// An output grid; fully assigned and satisfying every constraint.
pub type Solution = Grid;

/// (row, col)
pub type GridPos = (usize, usize);

/// Every cell holds 0 (a blank) or a digit 1-9.
pub open spec fn grid_wf(g: Grid) -> bool {
    forall|r: int, c: int| 0 <= r < 9 && 0 <= c < 9 ==> g[r][c] <= 9
}

/// The cells of row `r`, left to right.
pub open spec fn row_of(g: Grid, r: int) -> Seq<u8> {
    Seq::new(9, |c: int| g[r][c])
}

/// The cells of column `c`, top to bottom.
pub open spec fn col_of(g: Grid, c: int) -> Seq<u8> {
    Seq::new(9, |r: int| g[r][c])
}

/// The cells of box `b`, row-major within the box; boxes are numbered
/// row-major over the nine 3x3 blocks.
pub open spec fn box_of(g: Grid, b: int) -> Seq<u8> {
    Seq::new(9, |i: int| g[3 * (b / 3) + i / 3][3 * (b % 3) + i % 3])
}

/// No digit occurs twice among the non-zero entries of a slice.
pub open spec fn unique_slice(s: Seq<u8>) -> bool {
    forall|i: int, j: int| 0 <= i < j < s.len() && s[i] != 0 ==> s[i] != s[j]
}

/// All 27 slices (9 rows, 9 columns, 9 boxes) satisfy the uniqueness rule.
pub open spec fn valid_grid(g: Grid) -> bool {
    forall|k: int|
        0 <= k < 9 ==> unique_slice(row_of(g, k)) && unique_slice(col_of(g, k)) && unique_slice(
            box_of(g, k),
        )
}

/// No cell is blank.
pub open spec fn complete_grid(g: Grid) -> bool {
    forall|r: int, c: int| 0 <= r < 9 && 0 <= c < 9 ==> g[r][c] != 0
}

/// `g` agrees with `p` on every non-blank cell of `p`.
pub open spec fn grid_extends(g: Grid, p: Grid) -> bool {
    forall|r: int, c: int| 0 <= r < 9 && 0 <= c < 9 && p[r][c] != 0 ==> g[r][c] == p[r][c]
}

/// `s` solves the puzzle `p`: it is well formed, satisfies every constraint,
/// has no blanks, and keeps every given digit of `p`.
pub open spec fn is_solution_for(s: Grid, p: Grid) -> bool {
    grid_wf(s) && valid_grid(s) && complete_grid(s) && grid_extends(s, p)
}

/// The cell at flat row-major index `k`.
pub open spec fn cell_at(g: Grid, k: int) -> u8 {
    g[k / 9][k % 9]
}

/// `a` is at most `b` in the lexicographic order over the row-major reading
/// of the cells.
pub open spec fn grid_le(a: Grid, b: Grid) -> bool {
    (forall|k: int| 0 <= k < 81 ==> cell_at(a, k) == cell_at(b, k)) || (exists|k: int|
        0 <= k < 81 && cell_at(a, k) < cell_at(b, k) && (forall|j: int|
            0 <= j < k ==> cell_at(a, j) == cell_at(b, j)))
}

/// Gets a copy of a row in a [Puzzle].
pub fn horizontal_slice(puzzle: Puzzle, row: usize) -> (s: [u8; 9])
    requires
        row < 9,
    ensures
        s@ == row_of(puzzle, row as int),
{
    let s = puzzle[row];
    proof {
        assert(s@ =~= row_of(puzzle, row as int));
    }
    s
}

/// Gets a copy of a column in a [Puzzle].
pub fn vertical_slice(puzzle: Puzzle, col: usize) -> (s: [u8; 9])
    requires
        col < 9,
    ensures
        s@ == col_of(puzzle, col as int),
{
    let s = [
        puzzle[0][col],
        puzzle[1][col],
        puzzle[2][col],
        puzzle[3][col],
        puzzle[4][col],
        puzzle[5][col],
        puzzle[6][col],
        puzzle[7][col],
        puzzle[8][col],
    ];
    proof {
        assert(s@ =~= col_of(puzzle, col as int));
    }
    s
}

/// Gets a copy of a square in a [Puzzle].
///
/// Squares are indexed as follows:
///
/// ```text
/// +-+-+-+
/// |0|1|2|
/// +-+-+-+
/// |3|4|5|
/// +-+-+-+
/// |6|7|8|
/// +-+-+-+
/// ```
///
/// Elements in each square are indexed as follows:
/// ```text
/// +---+
/// |012|
/// |345|
/// |678|
/// +---+
/// ```
pub fn square_slice(puzzle: Puzzle, square: usize) -> (s: [u8; 9])
    requires
        square < 9,
    ensures
        s@ == box_of(puzzle, square as int),
{
    let r0 = 3 * (square / 3);
    let c0 = 3 * (square % 3);
    let s = [
        puzzle[r0][c0],
        puzzle[r0][c0 + 1],
        puzzle[r0][c0 + 2],
        puzzle[r0 + 1][c0],
        puzzle[r0 + 1][c0 + 1],
        puzzle[r0 + 1][c0 + 2],
        puzzle[r0 + 2][c0],
        puzzle[r0 + 2][c0 + 1],
        puzzle[r0 + 2][c0 + 2],
    ];
    proof {
        assert(s@ =~= box_of(puzzle, square as int));
    }
    s
}

/// Checks that no row, column, or square of the puzzle repeats a digit.
pub fn is_valid_puzzle(puzzle: Puzzle) -> (r: bool)
    requires
        grid_wf(puzzle),
    ensures
        r == valid_grid(puzzle),
{
    let mut index: usize = 0;
    while index < 9
        invariant
            index <= 9,
            grid_wf(puzzle),
            forall|k: int|
                0 <= k < index ==> unique_slice(row_of(puzzle, k)) && unique_slice(
                    col_of(puzzle, k),
                ) && unique_slice(box_of(puzzle, k)),
        decreases 9 - index,
    {
        if !slice_has_unique_digits(horizontal_slice(puzzle, index)) {
            return false;
        }
        if !slice_has_unique_digits(vertical_slice(puzzle, index)) {
            return false;
        }
        if !slice_has_unique_digits(square_slice(puzzle, index)) {
            return false;
        }
        index = index + 1;
    }
    true
}

/// Checks that a slice has all unique digits, except 0, which is ignored.
pub fn slice_has_unique_digits(slice: [u8; 9]) -> (r: bool)
    requires
        forall|i: int| 0 <= i < 9 ==> slice[i] <= 9,
    ensures
        r == unique_slice(slice@),
{
    let mut unique_digits = [false; 9];
    let mut idx: usize = 0;
    while idx < 9
        invariant
            idx <= 9,
            forall|i: int| 0 <= i < 9 ==> slice[i] <= 9,
            forall|d: int|
                0 <= d < 9 ==> (unique_digits[d] <==> exists|i: int|
                    0 <= i < idx && slice[i] == d + 1),
            forall|i: int, j: int| 0 <= i < j < idx && slice[i] != 0 ==> slice[i] != slice[j],
        decreases 9 - idx,
    {
        let digit = slice[idx];
        if digit != 0 {
            let seen = (digit - 1) as usize;
            if unique_digits[seen] {
                proof {
                    let w = choose|i: int| 0 <= i < idx && slice[i] == seen + 1;
                    assert(slice@[w] != 0 && slice@[w] == slice@[idx as int]);
                }
                return false;
            }
            unique_digits[seen] = true;
        }
        idx = idx + 1;
    }
    true
}

/// The flat row-major index of a position.
pub open spec fn pos_key(p: GridPos) -> int {
    p.0 * 9 + p.1
}

/// The blank positions among the first `n` cells in row-major order.
pub open spec fn blanks_prefix(g: Grid, n: int) -> Seq<GridPos>
    decreases n,
{
    if n <= 0 {
        Seq::empty()
    } else {
        let k = n - 1;
        blanks_prefix(g, k) + if g[k / 9][k % 9] == 0 {
            seq![(((k / 9) as usize), ((k % 9) as usize))]
        } else {
            Seq::<GridPos>::empty()
        }
    }
}

/// All blank positions of the grid, in row-major order.
pub open spec fn blanks_spec(g: Grid) -> Seq<GridPos> {
    blanks_prefix(g, 81)
}

/// The blank positions of the first `n` cells lie in range, are blank, carry
/// keys below `n` in strictly increasing order, and miss no blank cell.
pub proof fn lemma_blanks_prefix_props(g: Grid, n: int)
    requires
        0 <= n <= 81,
    ensures
        forall|i: int|
            0 <= i < blanks_prefix(g, n).len() ==> (#[trigger] blanks_prefix(g, n)[i]).0 < 9
                && blanks_prefix(g, n)[i].1 < 9 && pos_key(blanks_prefix(g, n)[i]) < n && g[blanks_prefix(
                g,
                n,
            )[i].0 as int][blanks_prefix(g, n)[i].1 as int] == 0,
        forall|i: int, j: int|
            0 <= i < j < blanks_prefix(g, n).len() ==> pos_key(#[trigger] blanks_prefix(g, n)[i])
                < pos_key(#[trigger] blanks_prefix(g, n)[j]),
        forall|r: int, c: int|
            0 <= r < 9 && 0 <= c < 9 && r * 9 + c < n && g[r][c] == 0 ==> blanks_prefix(
                g,
                n,
            ).contains((((r as usize), (c as usize)))),
    decreases n,
{
    if n > 0 {
        lemma_blanks_prefix_props(g, n - 1);
        let k = n - 1;
        let prev = blanks_prefix(g, k);
        let cur = blanks_prefix(g, n);
        assert((k / 9) * 9 + k % 9 == k) by (nonlinear_arith)
            requires 0 <= k < 81,
        ;
        if g[k / 9][k % 9] == 0 {
            let p = (((k / 9) as usize), ((k % 9) as usize));
            assert(cur == prev + seq![p]);
            assert(cur[prev.len() as int] == p);
            assert(forall|i: int| 0 <= i < prev.len() ==> cur[i] == prev[i]);
            assert(pos_key(p) == k);
            assert forall|r: int, c: int|
                0 <= r < 9 && 0 <= c < 9 && r * 9 + c < n && g[r][c] == 0 implies cur.contains(
                (((r as usize), (c as usize)))) by {
                if r * 9 + c == k {
                    assert(r == k / 9 && c == k % 9) by (nonlinear_arith)
                        requires 0 <= r < 9, 0 <= c < 9, 0 <= k, r * 9 + c == k,
                    ;
                    assert(cur[prev.len() as int] == (((r as usize), (c as usize))));
                } else {
                    assert(prev.contains((((r as usize), (c as usize)))));
                    let i = choose|i: int|
                        0 <= i < prev.len() && prev[i] == (((r as usize), (c as usize)));
                    assert(cur[i] == (((r as usize), (c as usize))));
                }
            };
        } else {
            assert(cur == prev + Seq::<GridPos>::empty());
            assert(cur =~= prev);
            assert forall|r: int, c: int|
                0 <= r < 9 && 0 <= c < 9 && r * 9 + c < n && g[r][c] == 0 implies cur.contains(
                (((r as usize), (c as usize)))) by {
                if r * 9 + c == k {
                    assert(r == k / 9 && c == k % 9) by (nonlinear_arith)
                        requires 0 <= r < 9, 0 <= c < 9, 0 <= k, r * 9 + c == k,
                    ;
                    assert(false);
                } else {
                    assert(prev.contains((((r as usize), (c as usize)))));
                }
            };
        }
    }
}

/// Finds all the blank positions in a [Puzzle] that need to be filled in to
/// form a [Solution], in row-major order.
pub fn blanks(puzzle: Puzzle) -> (v: Vec<GridPos>)
    ensures
        v@ == blanks_spec(puzzle),
{
    let mut v: Vec<GridPos> = Vec::new();
    let mut k: usize = 0;
    while k < 81
        invariant
            k <= 81,
            v@ == blanks_prefix(puzzle, k as int),
        decreases 81 - k,
    {
        let r: usize = k / 9;
        let c: usize = k % 9;
        if puzzle[r][c] == 0 {
            v.push((r, c));
        }
        k = k + 1;
        proof {
            assert(v@ =~= blanks_prefix(puzzle, k as int));
        }
    }
    v
}

/// A flat index below 81 names a cell in range, and the flat index of that
/// cell is the index itself.
proof fn lemma_at_key(k: int)
    requires
        0 <= k < 81,
    ensures
        0 <= k / 9 < 9,
        0 <= k % 9 < 9,
        (k / 9) * 9 + k % 9 == k,
{
    assert(0 <= k / 9 < 9 && 0 <= k % 9 < 9 && (k / 9) * 9 + k % 9 == k) by (nonlinear_arith)
        requires 0 <= k < 81,
    ;
}

/// The flat index of a cell in range recovers its row and column.
proof fn lemma_cell_key(g: Grid, r: int, c: int)
    requires
        0 <= r < 9,
        0 <= c < 9,
    ensures
        0 <= r * 9 + c < 81,
        cell_at(g, r * 9 + c) == g[r][c],
{
    assert((r * 9 + c) / 9 == r && (r * 9 + c) % 9 == c) by (nonlinear_arith)
        requires 0 <= r < 9, 0 <= c < 9,
    ;
}

/// A grid that extends an inconsistent grid keeps its repeated digits, so it
/// is inconsistent as well.
pub proof fn lemma_invalid_extends(p: Grid, t: Grid)
    requires
        grid_extends(t, p),
        !valid_grid(p),
    ensures
        !valid_grid(t),
{
    let k = choose|k: int|
        0 <= k < 9 && !(unique_slice(row_of(p, k)) && unique_slice(col_of(p, k)) && unique_slice(
            box_of(p, k),
        ));
    if !unique_slice(row_of(p, k)) {
        let (i, j) = choose|i: int, j: int|
            0 <= i < j < 9 && row_of(p, k)[i] != 0 && row_of(p, k)[i] == row_of(p, k)[j];
        assert(p[k][i] != 0);
        assert(t[k][i] == p[k][i] && t[k][j] == p[k][j]);
        assert(row_of(t, k)[i] != 0 && row_of(t, k)[i] == row_of(t, k)[j]);
        assert(!unique_slice(row_of(t, k)));
    } else if !unique_slice(col_of(p, k)) {
        let (i, j) = choose|i: int, j: int|
            0 <= i < j < 9 && col_of(p, k)[i] != 0 && col_of(p, k)[i] == col_of(p, k)[j];
        assert(p[i][k] != 0);
        assert(t[i][k] == p[i][k] && t[j][k] == p[j][k]);
        assert(col_of(t, k)[i] != 0 && col_of(t, k)[i] == col_of(t, k)[j]);
        assert(!unique_slice(col_of(t, k)));
    } else {
        let (i, j) = choose|i: int, j: int|
            0 <= i < j < 9 && box_of(p, k)[i] != 0 && box_of(p, k)[i] == box_of(p, k)[j];
        assert(0 <= 3 * (k / 3) + i / 3 < 9 && 0 <= 3 * (k % 3) + i % 3 < 9);
        assert(0 <= 3 * (k / 3) + j / 3 < 9 && 0 <= 3 * (k % 3) + j % 3 < 9);
        assert(p[3 * (k / 3) + i / 3][3 * (k % 3) + i % 3] != 0);
        assert(t[3 * (k / 3) + i / 3][3 * (k % 3) + i % 3] == p[3 * (k / 3) + i / 3][3 * (k % 3) + i
            % 3]);
        assert(t[3 * (k / 3) + j / 3][3 * (k % 3) + j % 3] == p[3 * (k / 3) + j / 3][3 * (k % 3) + j
            % 3]);
        assert(box_of(t, k)[i] != 0 && box_of(t, k)[i] == box_of(t, k)[j]);
        assert(!unique_slice(box_of(t, k)));
    }
}

/// A solution of the puzzle that already carries `digit` at the tried cell is
/// a solution of the grid obtained by writing `digit` into that cell.
proof fn lemma_solution_with_digit(puzzle: Grid, p: Grid, t: Grid, row: int, col: int, digit: u8)
    requires
        0 <= row < 9,
        0 <= col < 9,
        puzzle[row][col] == 0,
        p[row][col] == digit,
        digit != 0,
        forall|r: int, c: int|
            0 <= r < 9 && 0 <= c < 9 && !(r == row && c == col) ==> p[r][c] == puzzle[r][c],
        is_solution_for(t, puzzle),
        t[row][col] == digit,
    ensures
        is_solution_for(t, p),
{
    assert forall|r: int, c: int| 0 <= r < 9 && 0 <= c < 9 && p[r][c] != 0 implies t[r][c] == p[r][c]
        by {
        if r == row && c == col {
        } else {
            assert(p[r][c] == puzzle[r][c]);
        }
    };
}

/// The tail of the blank list from position `k` on: its entries are in range,
/// blank in `p`, strictly increasing in row-major order, and they cover every
/// blank cell of `p`.
pub open spec fn blanks_tail_ok(p: Grid, bl: Seq<GridPos>, k: int) -> bool {
    &&& forall|i: int|
        k <= i < bl.len() ==> (#[trigger] bl[i]).0 < 9 && bl[i].1 < 9 && p[bl[i].0 as int][bl[i].1
            as int] == 0
    &&& forall|i: int, j: int|
        k <= i < j < bl.len() ==> pos_key(#[trigger] bl[i]) < pos_key(#[trigger] bl[j])
    &&& forall|r: int, c: int|
        0 <= r < 9 && 0 <= c < 9 && p[r][c] == 0 ==> exists|i: int|
            k <= i < bl.len() && bl[i] == (((r as usize), (c as usize)))
}

/// Finds a [Solution] to a [Puzzle] by backtracking over the blank positions
/// from index `blank` on, trying digits in ascending order.
pub fn find_solution(puzzle: Puzzle, blank: usize, blanks: &Vec<GridPos>) -> (result: Option<
    Solution,
>)
    requires
        grid_wf(puzzle),
        valid_grid(puzzle),
        blank <= blanks@.len(),
        blanks_tail_ok(puzzle, blanks@, blank as int),
    ensures
        match result {
            Some(s) => is_solution_for(s, puzzle) && (forall|t: Grid|
                is_solution_for(t, puzzle) ==> grid_le(s, t)),
            None => forall|t: Grid| !is_solution_for(t, puzzle),
        },
    decreases blanks@.len() - blank,
{
    if blank == blanks.len() {
        proof {
            assert forall|r: int, c: int| 0 <= r < 9 && 0 <= c < 9 implies puzzle[r][c] != 0 by {
                if puzzle[r][c] == 0 {
                    let i = choose|i: int|
                        blank <= i < blanks@.len() && blanks@[i] == (((r as usize), (c as usize)));
                    assert(false);
                }
            };
            assert forall|t: Grid| is_solution_for(t, puzzle) implies grid_le(puzzle, t) by {
                assert forall|k: int| 0 <= k < 81 implies cell_at(puzzle, k) == cell_at(t, k) by {
                    lemma_at_key(k);
                    assert(t[k / 9][k % 9] == puzzle[k / 9][k % 9]);
                };
            };
        }
        return Some(puzzle);
    }

    let pos = blanks[blank];
    let row = pos.0;
    let col = pos.1;
    proof {
        assert(blanks@[blank as int].0 < 9);
    }

    let mut p = puzzle;
    let mut digit: u8 = 1;
    proof {
        assert forall|t: Grid| is_solution_for(t, puzzle) implies t[row as int][col as int] >= 1
            by {
            assert(t[row as int][col as int] != 0);
        };
    }
    while digit <= 9
        invariant
            grid_wf(puzzle),
            valid_grid(puzzle),
            blank < blanks@.len(),
            blanks@.len() <= usize::MAX,
            blanks_tail_ok(puzzle, blanks@, blank as int),
            pos == blanks@[blank as int],
            row == pos.0,
            col == pos.1,
            row < 9,
            col < 9,
            puzzle[row as int][col as int] == 0,
            1 <= digit <= 10,
            forall|r: int, c: int|
                0 <= r < 9 && 0 <= c < 9 && !(r == row as int && c == col as int) ==> p[r][c]
                    == puzzle[r][c],
            forall|t: Grid|
                is_solution_for(t, puzzle) ==> t[row as int][col as int] >= digit,
        decreases 10 - digit,
    {
        let mut new_row = p[row];
        new_row[col] = digit;
        p[row] = new_row;
        proof {
            assert(p[row as int][col as int] == digit);
            assert(forall|r: int, c: int|
                0 <= r < 9 && 0 <= c < 9 && !(r == row as int && c == col as int) ==> p[r][c]
                    == puzzle[r][c]);
            assert(grid_wf(p));
        }
        if is_valid_puzzle(p) {
            proof {
                assert forall|i: int|
                    blank + 1 <= i < blanks@.len() implies (#[trigger] blanks@[i]).0 < 9
                    && blanks@[i].1 < 9 && p[blanks@[i].0 as int][blanks@[i].1 as int] == 0 by {
                    assert(pos_key(blanks@[blank as int]) < pos_key(blanks@[i]));
                    assert(!(blanks@[i].0 == row && blanks@[i].1 == col));
                    assert(puzzle[blanks@[i].0 as int][blanks@[i].1 as int] == 0);
                };
                assert forall|r: int, c: int|
                    0 <= r < 9 && 0 <= c < 9 && p[r][c] == 0 implies exists|i: int|
                    blank + 1 <= i < blanks@.len() && blanks@[i] == (((r as usize), (c as usize)))
                    by {
                    assert(!(r == row as int && c == col as int));
                    assert(puzzle[r][c] == 0);
                    let i = choose|i: int|
                        blank <= i < blanks@.len() && blanks@[i] == (((r as usize), (c as usize)));
                    assert(blanks@[blank as int] == pos);
                    assert(i != blank);
                    assert(blank + 1 <= i < blanks@.len() && blanks@[i] == (((r as usize), (
                    c as usize))));
                };
                assert(blanks_tail_ok(p, blanks@, blank as int + 1));
            }
            if let Some(solution) = find_solution(p, blank + 1, blanks) {
                proof {
                    assert forall|r: int, c: int|
                        0 <= r < 9 && 0 <= c < 9 && puzzle[r][c] != 0 implies solution[r][c]
                        == puzzle[r][c] by {
                        assert(!(r == row as int && c == col as int));
                        assert(p[r][c] == puzzle[r][c]);
                    };
                    assert(is_solution_for(solution, puzzle));
                    let rowi = row as int;
                    let coli = col as int;
                    let kk = rowi * 9 + coli;
                    lemma_cell_key(solution, rowi, coli);
                    assert forall|t: Grid| is_solution_for(t, puzzle) implies grid_le(solution, t)
                        by {
                        lemma_cell_key(t, rowi, coli);
                        if t[rowi][coli] == digit {
                            lemma_solution_with_digit(puzzle, p, t, rowi, coli, digit);
                            assert(grid_le(solution, t));
                        } else {
                            assert(t[rowi][coli] > digit);
                            assert(cell_at(solution, kk) == digit);
                            assert(cell_at(solution, kk) < cell_at(t, kk));
                            assert forall|j: int|
                                0 <= j < kk implies cell_at(solution, j) == cell_at(t, j) by {
                                lemma_at_key(j);
                                let rj = j / 9;
                                let cj = j % 9;
                                if puzzle[rj][cj] == 0 {
                                    let i = choose|i: int|
                                        blank <= i < blanks@.len() && blanks@[i] == (((rj as usize), (
                                        cj as usize)));
                                    assert(pos_key(blanks@[i]) == j);
                                    if i == blank {
                                        assert(pos_key(pos) == kk);
                                        assert(false);
                                    } else {
                                        assert(pos_key(blanks@[blank as int]) < pos_key(
                                            blanks@[i],
                                        ));
                                        assert(false);
                                    }
                                } else {
                                    assert(solution[rj][cj] == puzzle[rj][cj]);
                                    assert(t[rj][cj] == puzzle[rj][cj]);
                                }
                            };
                            assert(0 <= kk < 81 && cell_at(solution, kk) < cell_at(t, kk) && (
                            forall|j: int| 0 <= j < kk ==> cell_at(solution, j) == cell_at(t, j)));
                            assert(grid_le(solution, t));
                        }
                    };
                }
                return Some(solution);
            }
            proof {
                assert forall|t: Grid|
                    is_solution_for(t, puzzle) implies t[row as int][col as int] >= digit + 1 by {
                    if t[row as int][col as int] == digit {
                        lemma_solution_with_digit(puzzle, p, t, row as int, col as int, digit);
                        assert(!is_solution_for(t, p));
                        assert(false);
                    }
                };
            }
        } else {
            proof {
                assert forall|t: Grid|
                    is_solution_for(t, puzzle) implies t[row as int][col as int] >= digit + 1 by {
                    if t[row as int][col as int] == digit {
                        lemma_solution_with_digit(puzzle, p, t, row as int, col as int, digit);
                        lemma_invalid_extends(p, t);
                        assert(false);
                    }
                };
            }
        }
        digit = digit + 1;
    }
    proof {
        assert forall|t: Grid| !is_solution_for(t, puzzle) by {
            if is_solution_for(t, puzzle) {
                assert(t[row as int][col as int] >= 10);
                assert(t[row as int][col as int] <= 9);
                assert(false);
            }
        };
    }
    None
}

/// Finds a solution to the given puzzle, if any.
///
/// The blank cells are filled in row-major order, candidate digits are tried
/// in ascending order, and the first completion found is returned; so the
/// result, when there is one, is the least solution of the puzzle in the
/// lexicographic order over the row-major reading of the cells.
pub fn solve(puzzle: Puzzle) -> (result: Option<Solution>)
    requires
        grid_wf(puzzle),
    ensures
        match result {
            Some(s) => is_solution_for(s, puzzle) && (forall|t: Grid|
                is_solution_for(t, puzzle) ==> grid_le(s, t)),
            None => forall|t: Grid| !is_solution_for(t, puzzle),
        },
        valid_grid(puzzle) && complete_grid(puzzle) ==> result == Some(puzzle),
{
    if !is_valid_puzzle(puzzle) {
        proof {
            assert forall|t: Grid| !is_solution_for(t, puzzle) by {
                if is_solution_for(t, puzzle) {
                    lemma_invalid_extends(puzzle, t);
                    assert(false);
                }
            };
        }
        return None;
    }

    let blank_list = blanks(puzzle);
    if blank_list.len() == 0 {
        proof {
            lemma_blanks_prefix_props(puzzle, 81);
            assert forall|r: int, c: int| 0 <= r < 9 && 0 <= c < 9 implies puzzle[r][c] != 0 by {
                if puzzle[r][c] == 0 {
                    assert(blanks_spec(puzzle).contains((((r as usize), (c as usize)))));
                    assert(false);
                }
            };
            assert forall|t: Grid| is_solution_for(t, puzzle) implies grid_le(puzzle, t) by {
                assert forall|k: int| 0 <= k < 81 implies cell_at(puzzle, k) == cell_at(t, k) by {
                    lemma_at_key(k);
                    assert(t[k / 9][k % 9] == puzzle[k / 9][k % 9]);
                };
            };
        }
        return Some(puzzle);
    }

    proof {
        lemma_blanks_prefix_props(puzzle, 81);
        assert forall|r: int, c: int|
            0 <= r < 9 && 0 <= c < 9 && puzzle[r][c] == 0 implies exists|i: int|
            0 <= i < blank_list@.len() && blank_list@[i] == (((r as usize), (c as usize))) by {
            assert(blanks_spec(puzzle).contains((((r as usize), (c as usize)))));
        };
        assert(blanks_tail_ok(puzzle, blank_list@, 0));
        let p0 = blank_list@[0];
        assert(puzzle[p0.0 as int][p0.1 as int] == 0);
        assert(!complete_grid(puzzle));
    }
    find_solution(puzzle, 0, &blank_list)
}

/// Digit `d` appears exactly once in the slice.
pub open spec fn exactly_once(s: Seq<u8>, d: u8) -> bool {
    (exists|i: int| 0 <= i < s.len() && s[i] == d) && (forall|i: int, j: int|
        0 <= i < j < s.len() ==> !(s[i] == d && s[j] == d))
}

/// Nine pairwise distinct digits from 1-9 must include each of them.
proof fn lemma_full_slice_pigeonhole(s: Seq<u8>, d: u8)
    requires
        s.len() == 9,
        forall|i: int| 0 <= i < 9 ==> 1 <= #[trigger] s[i] && s[i] <= 9,
        unique_slice(s),
        1 <= d <= 9,
    ensures
        exactly_once(s, d),
{
    broadcast use vstd::set::group_set_axioms;

    let si = s.map_values(|x: u8| x as int);
    assert(si.len() == 9);
    assert forall|i: int, j: int| 0 <= i < si.len() && 0 <= j < si.len() && i != j implies si[i]
        != si[j] by {
        if i < j {
            assert(s[i] != 0);
            assert(s[i] != s[j]);
        } else {
            assert(s[j] != 0);
            assert(s[j] != s[i]);
        }
    };
    assert(si.no_duplicates());
    si.unique_seq_to_set();
    let digits = vstd::set_lib::set_int_range(1, 10);
    vstd::set_lib::lemma_int_range(1, 10);
    assert forall|x: int| si.to_set().contains(x) implies digits.contains(x) by {
        let i = choose|i: int| 0 <= i < si.len() && si[i] == x;
        assert(1 <= s[i] <= 9);
    };
    if !si.to_set().contains(d as int) {
        let smaller = digits.remove(d as int);
        assert(digits.contains(d as int));
        assert(smaller.len() == 8);
        assert(si.to_set().subset_of(smaller));
        vstd::set_lib::lemma_len_subset(si.to_set(), smaller);
        assert(false);
    }
    let i = choose|i: int| 0 <= i < si.len() && si[i] == d as int;
    assert(s[i] == d);
}

/// Law: in any solved grid, every row, every column, and every box contains
/// each digit 1-9 exactly once.
pub proof fn lemma_solution_slices_have_all_digits(g: Grid, k: int, d: u8)
    requires
        grid_wf(g),
        valid_grid(g),
        complete_grid(g),
        0 <= k < 9,
        1 <= d <= 9,
    ensures
        exactly_once(row_of(g, k), d),
        exactly_once(col_of(g, k), d),
        exactly_once(box_of(g, k), d),
{
    assert forall|i: int|
        0 <= i < 9 implies 1 <= #[trigger] row_of(g, k)[i] && row_of(g, k)[i] <= 9 && 1 <= col_of(
        g,
        k,
    )[i] && col_of(g, k)[i] <= 9 && 1 <= box_of(g, k)[i] && box_of(g, k)[i] <= 9 by {
        assert(0 <= 3 * (k / 3) + i / 3 < 9 && 0 <= 3 * (k % 3) + i % 3 < 9);
        assert(g[k][i] != 0 && g[i][k] != 0 && g[3 * (k / 3) + i / 3][3 * (k % 3) + i % 3] != 0);
    };
    lemma_full_slice_pigeonhole(row_of(g, k), d);
    lemma_full_slice_pigeonhole(col_of(g, k), d);
    lemma_full_slice_pigeonhole(box_of(g, k), d);
}

/// Law: a puzzle that repeats a non-zero digit within some row, column, or
/// box has no solution.
pub proof fn lemma_contradiction_has_no_solution(p: Grid)
    requires
        !valid_grid(p),
    ensures
        forall|t: Grid| !is_solution_for(t, p),
{
    assert forall|t: Grid| !is_solution_for(t, p) by {
        if is_solution_for(t, p) {
            lemma_invalid_extends(p, t);
            assert(false);
        }
    };
}

/// Law: the solver's contract determines its result. A grid that solves the
/// puzzle and is least in the row-major lexicographic order among its
/// solutions is unique, so two runs of the solver on one puzzle return
/// identical results.
pub proof fn lemma_solution_deterministic(p: Grid, s1: Grid, s2: Grid)
    requires
        is_solution_for(s1, p),
        forall|t: Grid| is_solution_for(t, p) ==> grid_le(s1, t),
        is_solution_for(s2, p),
        forall|t: Grid| is_solution_for(t, p) ==> grid_le(s2, t),
    ensures
        s1 == s2,
{
    broadcast use vstd::array::axiom_array_ext_equal;

    assert(grid_le(s1, s2));
    assert(grid_le(s2, s1));
    if !(forall|k: int| 0 <= k < 81 ==> cell_at(s1, k) == cell_at(s2, k)) {
        let k1 = choose|k: int|
            0 <= k < 81 && cell_at(s1, k) < cell_at(s2, k) && (forall|j: int|
                0 <= j < k ==> cell_at(s1, j) == cell_at(s2, j));
        let k2 = choose|k: int|
            0 <= k < 81 && cell_at(s2, k) < cell_at(s1, k) && (forall|j: int|
                0 <= j < k ==> cell_at(s2, j) == cell_at(s1, j));
        if k1 < k2 {
            assert(cell_at(s2, k1) == cell_at(s1, k1));
        } else if k2 < k1 {
            assert(cell_at(s1, k2) == cell_at(s2, k2));
        }
        assert(false);
    }
    assert forall|r: int, c: int| 0 <= r < 9 && 0 <= c < 9 implies s1[r][c] == s2[r][c] by {
        lemma_cell_key(s1, r, c);
        lemma_cell_key(s2, r, c);
        assert(cell_at(s1, r * 9 + c) == cell_at(s2, r * 9 + c));
    };
    assert forall|r: int| 0 <= r < 9 implies s1[r] == s2[r] by {
        assert(s1[r] =~= s2[r]);
    };
    assert(s1 =~= s2);
}

} // verus!
