//! Textual form of a grid: rendering a solved grid as plain or bordered
//! text, and reading a puzzle out of either form.

use vstd::prelude::*;
use vstd::string::StrSliceExecFns;
use vstd::string::StringExecFns;

use crate::sudoku::Grid;
use crate::sudoku::Puzzle;
use crate::sudoku::Solution;
use crate::sudoku::grid_wf;
use crate::sudoku::horizontal_slice;
use crate::sudoku::row_of;

verus! {

/// The character printed for a digit 0-9.
pub open spec fn digit_char(d: u8) -> char {
    if d == 0 {
        '0'
    } else if d == 1 {
        '1'
    } else if d == 2 {
        '2'
    } else if d == 3 {
        '3'
    } else if d == 4 {
        '4'
    } else if d == 5 {
        '5'
    } else if d == 6 {
        '6'
    } else if d == 7 {
        '7'
    } else if d == 8 {
        '8'
    } else {
        '9'
    }
}

/// The one-character text of a digit 0-9.
fn digit_str(d: u8) -> (s: &'static str)
    requires
        d <= 9,
    ensures
        s@ == seq![digit_char(d)],
{
    let s = match d {
        0 => "0",
        1 => "1",
        2 => "2",
        3 => "3",
        4 => "4",
        5 => "5",
        6 => "6",
        7 => "7",
        8 => "8",
        _ => "9",
    };
    proof {
        reveal_strlit("0");
        reveal_strlit("1");
        reveal_strlit("2");
        reveal_strlit("3");
        reveal_strlit("4");
        reveal_strlit("5");
        reveal_strlit("6");
        reveal_strlit("7");
        reveal_strlit("8");
        reveal_strlit("9");
        assert(s@ =~= seq![digit_char(d)]);
    }
    s
}

/// The text of one row: its nine digit characters, left to right.
pub open spec fn row_text(g: Grid, r: int) -> Seq<char> {
    Seq::new(9, |c: int| digit_char(g[r][c]))
}

/// The text of the first `n` rows, joined by newlines.
pub open spec fn rows_text_upto(g: Grid, n: int) -> Seq<char>
    decreases n,
{
    if n <= 0 {
        Seq::empty()
    } else if n == 1 {
        row_text(g, 0)
    } else {
        rows_text_upto(g, n - 1) + seq!['\n'] + row_text(g, n - 1)
    }
}

/// The plain text of a grid: nine rows of nine digit characters, joined by
/// newlines.
pub open spec fn plain_text(g: Grid) -> Seq<char> {
    rows_text_upto(g, 9)
}

/// Converts a solution to a String for printing.
pub fn solution_to_string(solution: Solution) -> (out: String)
    requires
        grid_wf(solution),
    ensures
        out@ == plain_text(solution),
{
    let mut out = String::new();
    let mut r: usize = 0;
    while r < 9
        invariant
            grid_wf(solution),
            r <= 9,
            out@ == rows_text_upto(solution, r as int),
        decreases 9 - r,
    {
        if r > 0 {
            out.append("\n");
            proof {
                reveal_strlit("\n");
            }
        }
        let ghost prefix = out@;
        let mut c: usize = 0;
        while c < 9
            invariant
                grid_wf(solution),
                r < 9,
                c <= 9,
                out@ == prefix + row_text(solution, r as int).take(c as int),
            decreases 9 - c,
        {
            out.append(digit_str(solution[r][c]));
            proof {
                assert(row_text(solution, r as int).take(c as int + 1) =~= row_text(
                    solution,
                    r as int,
                ).take(c as int).push(digit_char(solution[r as int][c as int])));
                assert(out@ =~= prefix + row_text(solution, r as int).take(c as int + 1));
            }
            c = c + 1;
        }
        r = r + 1;
        proof {
            assert(row_text(solution, r as int - 1).take(9) =~= row_text(solution, r as int - 1));
            assert(out@ =~= rows_text_upto(solution, r as int));
        }
    }
    out
}

/// The bordered text of one row: the digits in groups of three between
/// vertical rules, ending in a newline.
pub open spec fn border_row_text(row: Seq<u8>) -> Seq<char> {
    "║"@ + seq![digit_char(row[0]), digit_char(row[1]), digit_char(row[2])] + "│"@ + seq![
        digit_char(row[3]),
        digit_char(row[4]),
        digit_char(row[5]),
    ] + "│"@ + seq![digit_char(row[6]), digit_char(row[7]), digit_char(row[8])] + "║\n"@
}

/// One line of a bordered grid.
pub fn row_to_border_string(row: [u8; 9]) -> (out: String)
    requires
        forall|i: int| 0 <= i < 9 ==> row[i] <= 9,
    ensures
        out@ == border_row_text(row@),
{
    let mut out = String::new();
    out.append("║");
    out.append(digit_str(row[0]));
    out.append(digit_str(row[1]));
    out.append(digit_str(row[2]));
    out.append("│");
    out.append(digit_str(row[3]));
    out.append(digit_str(row[4]));
    out.append(digit_str(row[5]));
    out.append("│");
    out.append(digit_str(row[6]));
    out.append(digit_str(row[7]));
    out.append(digit_str(row[8]));
    out.append("║\n");
    proof {
        assert(out@ =~= border_row_text(row@));
    }
    out
}

/// The bordered text of a grid: the nine bordered rows in groups of three,
/// between a top rule, two separator rules, and a bottom rule.
pub open spec fn border_text(g: Grid) -> Seq<char> {
    "╔═══╤═══╤═══╗\n"@ + border_row_text(row_of(g, 0)) + border_row_text(row_of(g, 1))
        + border_row_text(row_of(g, 2)) + "╟───┼───┼───╢\n"@ + border_row_text(row_of(g, 3))
        + border_row_text(row_of(g, 4)) + border_row_text(row_of(g, 5)) + "╟───┼───┼───╢\n"@
        + border_row_text(row_of(g, 6)) + border_row_text(row_of(g, 7)) + border_row_text(
        row_of(g, 8),
    ) + "╚═══╧═══╧═══╝"@
}

/// The bordered rows before row `n`, with the separator rules that precede
/// rows 3 and 6.
pub open spec fn border_rows_upto(g: Grid, n: int) -> Seq<char>
    decreases n,
{
    if n <= 0 {
        Seq::empty()
    } else {
        border_rows_upto(g, n - 1) + (if n - 1 == 3 || n - 1 == 6 {
            "╟───┼───┼───╢\n"@
        } else {
            Seq::empty()
        }) + border_row_text(row_of(g, n - 1))
    }
}

/// Converts a solution to a String for printing, with a decorative border
/// around each 3x3 square.
#[verifier::rlimit(50)]
pub fn solution_to_border_string(solution: Solution) -> (out: String)
    requires
        grid_wf(solution),
    ensures
        out@ == border_text(solution),
{
    let mut out = String::new();
    out.append("╔═══╤═══╤═══╗\n");
    let mut r: usize = 0;
    while r < 9
        invariant
            grid_wf(solution),
            r <= 9,
            out@ == "╔═══╤═══╤═══╗\n"@ + border_rows_upto(solution, r as int),
        decreases 9 - r,
    {
        if r == 3 || r == 6 {
            out.append("╟───┼───┼───╢\n");
        }
        let line = row_to_border_string(horizontal_slice(solution, r));
        out.append(line.as_str());
        r = r + 1;
        proof {
            assert(out@ =~= "╔═══╤═══╤═══╗\n"@ + border_rows_upto(solution, r as int));
        }
    }
    out.append("╚═══╧═══╧═══╝");
    proof {
        reveal_with_fuel(border_rows_upto, 10);
        assert(out@ =~= border_text(solution));
    }
    out
}

/// The value of a character read as one cell: the digits 1-9 count, any
/// other character (including the digit 0) is a blank.
pub open spec fn char_digit(c: char) -> u8 {
    if '1' as int <= c as int && c as int <= '9' as int {
        (c as int - '0' as int) as u8
    } else {
        0
    }
}

/// Reads one character as a cell value.
fn char_to_digit(c: char) -> (d: u8)
    ensures
        d == char_digit(c),
{
    let u = c as u32;
    if 49 <= u && u <= 57 {
        (u - 48) as u8
    } else {
        0
    }
}

/// The position of the first newline at or after `i`, or the end of the
/// text.
pub open spec fn next_newline(s: Seq<char>, i: int) -> int
    decreases s.len() - i,
{
    if i < 0 || i >= s.len() {
        s.len() as int
    } else if s[i] == '\n' {
        i
    } else {
        next_newline(s, i + 1)
    }
}

proof fn lemma_next_newline_bounds(s: Seq<char>, i: int)
    requires
        i <= s.len(),
    ensures
        i <= next_newline(s, i) <= s.len(),
    decreases s.len() - i,
{
    if 0 <= i && i < s.len() && s[i] != '\n' {
        lemma_next_newline_bounds(s, i + 1);
    }
}

/// A stretch without newlines that ends at a newline or at the end of the
/// text locates the first newline.
proof fn lemma_next_newline_at(s: Seq<char>, i: int, j: int)
    requires
        0 <= i <= j <= s.len(),
        forall|k: int| i <= k < j ==> s[k] != '\n',
        j == s.len() || s[j] == '\n',
    ensures
        next_newline(s, i) == j,
    decreases j - i,
{
    if i < j {
        lemma_next_newline_at(s, i + 1, j);
    }
}

/// A line with a trailing carriage return removed, as `str::lines` removes
/// it.
pub open spec fn strip_cr(line: Seq<char>) -> Seq<char> {
    if line.len() > 0 && line[line.len() - 1] == '\r' {
        line.drop_last()
    } else {
        line
    }
}

/// The non-empty lines of the text from position `i` on: split at newlines,
/// each without a trailing carriage return, empty lines dropped.
pub open spec fn lines_from(s: Seq<char>, i: int) -> Seq<Seq<char>>
    decreases s.len() - i,
    via lines_from_decreases
{
    if i < 0 || i >= s.len() {
        Seq::empty()
    } else {
        let j = next_newline(s, i);
        let line = strip_cr(s.subrange(i, j));
        let rest = if j >= s.len() {
            Seq::empty()
        } else {
            lines_from(s, j + 1)
        };
        if line.len() == 0 {
            rest
        } else {
            seq![line] + rest
        }
    }
}

#[via_fn]
proof fn lines_from_decreases(s: Seq<char>, i: int) {
    if 0 <= i && i < s.len() {
        lemma_next_newline_bounds(s, i);
    }
}

/// The non-empty lines of a text.
pub open spec fn text_lines(s: Seq<char>) -> Seq<Seq<char>> {
    lines_from(s, 0)
}

/// Why a text was rejected as a puzzle.
#[derive(Clone, Copy, Debug, PartialEq, Eq, Structural)]
pub enum ParseError {
    /// The text does not hold 9 lines (a plain grid) or 13 lines (a
    /// bordered grid).
    WrongRowCount,
    /// A plain line is longer than 9 characters, or a bordered line is not
    /// exactly 13 characters.
    WrongRowLength,
}

/// Nine lines, none longer than nine characters: a plain 9x9 grid.
pub open spec fn plain_shape(lv: Seq<Seq<char>>) -> bool {
    lv.len() == 9 && (forall|r: int| 0 <= r < 9 ==> (#[trigger] lv[r]).len() <= 9)
}

/// Thirteen lines of exactly thirteen characters: a bordered 13x13 grid.
pub open spec fn bordered_shape(lv: Seq<Seq<char>>) -> bool {
    lv.len() == 13 && (forall|r: int| 0 <= r < 13 ==> (#[trigger] lv[r]).len() == 13)
}

/// The cell at (r, c) of a plain grid text; a missing character is a blank.
pub open spec fn cell_of_plain(lv: Seq<Seq<char>>, r: int, c: int) -> u8 {
    if c < lv[r].len() {
        char_digit(lv[r][c])
    } else {
        0
    }
}

/// The cell at (r, c) of a bordered grid text; the border rows and columns
/// at positions 0, 4, 8 and 12 are skipped.
pub open spec fn cell_of_bordered(lv: Seq<Seq<char>>, r: int, c: int) -> u8 {
    char_digit(lv[r + r / 3 + 1][c + c / 3 + 1])
}

/// A collected line seen through the deep view of the line list.
proof fn lemma_line_view(lines: &Vec<Vec<char>>, i: int)
    requires
        0 <= i < lines@.len(),
    ensures
        lines.deep_view()[i] == lines@[i]@,
{
    assert(lines.deep_view()[i] =~= lines@[i]@);
}

/// Reads a text as a puzzle. The text must hold either a plain 9x9 grid of
/// digit characters, or a 13x13 grid that borders each 3x3 square with one
/// extra character row and column at positions 0, 4, 8 and 12. Non-digit
/// characters and the digit 0 read as blanks; so do missing characters at
/// the end of a plain line.
pub fn parse_puzzle(text: &str) -> (result: Result<Puzzle, ParseError>)
    ensures
        ({
            let lv = text_lines(text@);
            match result {
                Ok(p) => grid_wf(p) && (plain_shape(lv) || bordered_shape(lv)) && (plain_shape(lv)
                    ==> forall|r: int, c: int|
                    0 <= r < 9 && 0 <= c < 9 ==> p[r][c] == #[trigger] cell_of_plain(lv, r, c)) && (
                bordered_shape(lv) ==> forall|r: int, c: int|
                    0 <= r < 9 && 0 <= c < 9 ==> p[r][c] == #[trigger] cell_of_bordered(lv, r, c)),
                Err(e) => match e {
                    ParseError::WrongRowCount => lv.len() != 9 && lv.len() != 13,
                    ParseError::WrongRowLength => (lv.len() == 9 && !plain_shape(lv)) || (lv.len()
                        == 13 && !bordered_shape(lv)),
                },
            }
        }),
{
    let n = text.unicode_len();
    let mut lines: Vec<Vec<char>> = Vec::new();
    proof {
        assert(lines.deep_view() =~= Seq::<Seq<char>>::empty());
        assert(text_lines(text@) =~~= lines.deep_view() + lines_from(text@, 0));
    }
    let mut i: usize = 0;
    while i < n
        invariant
            n == text@.len(),
            i <= n,
            text_lines(text@) == lines.deep_view() + lines_from(text@, i as int),
        decreases n - i,
    {
        let ghost iv = i as int;
        let mut j: usize = i;
        let mut cur: Vec<char> = Vec::new();
        while j < n && text.get_char(j) != '\n'
            invariant
                n == text@.len(),
                i <= j <= n,
                cur@ == text@.subrange(i as int, j as int),
                forall|k: int| i <= k < j ==> text@[k] != '\n',
            decreases n - j,
        {
            let ch = text.get_char(j);
            cur.push(ch);
            j = j + 1;
            proof {
                assert(cur@ =~= text@.subrange(i as int, j as int));
            }
        }
        proof {
            lemma_next_newline_at(text@, i as int, j as int);
        }
        let ghost jj = j as int;
        let ghost raw = text@.subrange(iv, jj);
        let ghost line = strip_cr(raw);
        if cur.len() > 0 && cur[cur.len() - 1] == '\r' {
            let _ = cur.pop();
        }
        proof {
            assert(cur@ =~= line);
        }
        let ghost prev_deep = lines.deep_view();
        let keep = cur.len() > 0;
        proof {
            assert(cur.deep_view() =~= cur@);
        }
        if keep {
            lines.push(cur);
            proof {
                assert(lines.deep_view() =~= prev_deep.push(line));
            }
        }
        if j < n {
            i = j + 1;
        } else {
            i = n;
        }
        proof {
            let rest = if jj >= n as int {
                Seq::<Seq<char>>::empty()
            } else {
                lines_from(text@, jj + 1)
            };
            assert(lines_from(text@, iv) == if line.len() == 0 {
                rest
            } else {
                seq![line] + rest
            });
            assert(lines_from(text@, i as int) == rest);
            if keep {
                assert(prev_deep + (seq![line] + rest) =~~= prev_deep.push(line) + rest);
            } else {
                assert(prev_deep + rest =~~= lines.deep_view() + rest);
            }
            assert(text_lines(text@) =~~= lines.deep_view() + lines_from(text@, i as int));
        }
    }
    let ghost lv = text_lines(text@);
    proof {
        assert(lines_from(text@, i as int) =~~= Seq::<Seq<char>>::empty());
        assert(lv =~~= lines.deep_view());
        assert(lv.len() == lines@.len());
    }

    let count = lines.len();
    if count != 9 && count != 13 {
        return Err(ParseError::WrongRowCount);
    }

    if count == 13 {
        let mut r: usize = 0;
        while r < 13
            invariant
                lv == text_lines(text@),
                lv == lines.deep_view(),
                lines@.len() == 13,
                r <= 13,
                forall|k: int| 0 <= k < r ==> (#[trigger] lv[k]).len() == 13,
            decreases 13 - r,
        {
            proof {
                lemma_line_view(&lines, r as int);
            }
            if lines[r].len() != 13 {
                proof {
                    assert(lv[r as int].len() != 13);
                    assert(!bordered_shape(lv));
                }
                return Err(ParseError::WrongRowLength);
            }
            r = r + 1;
        }
        assert(bordered_shape(lv));
        let mut p: Puzzle = [[0u8; 9]; 9];
        let mut r: usize = 0;
        while r < 9
            invariant
                lv == text_lines(text@),
                lv == lines.deep_view(),
                lines@.len() == 13,
                bordered_shape(lv),
                r <= 9,
                forall|rr: int, cc: int|
                    0 <= rr < r && 0 <= cc < 9 ==> p[rr][cc] == #[trigger] cell_of_bordered(
                        lv,
                        rr,
                        cc,
                    ) && p[rr][cc] <= 9,
            decreases 9 - r,
        {
            let ir = r + r / 3 + 1;
            proof {
                lemma_line_view(&lines, ir as int);
                assert(lv[ir as int].len() == 13);
            }
            let mut row_arr = [0u8; 9];
            let mut c: usize = 0;
            while c < 9
                invariant
                    lv == lines.deep_view(),
                    lines@.len() == 13,
                    bordered_shape(lv),
                    r < 9,
                    ir == r + r / 3 + 1,
                    lines@[ir as int]@.len() == 13,
                    c <= 9,
                    forall|cc: int|
                        0 <= cc < c ==> row_arr[cc] == #[trigger] cell_of_bordered(lv, r as int, cc)
                            && row_arr[cc] <= 9,
                decreases 9 - c,
            {
                let ic = c + c / 3 + 1;
                let ch = lines[ir][ic];
                row_arr[c] = char_to_digit(ch);
                proof {
                    lemma_line_view(&lines, ir as int);
                    assert(lv[ir as int][ic as int] == lines@[ir as int]@[ic as int]);
                }
                c = c + 1;
            }
            p[r] = row_arr;
            r = r + 1;
        }
        proof {
            assert forall|rr: int, cc: int| 0 <= rr < 9 && 0 <= cc < 9 implies p[rr][cc] <= 9 by {
                assert(p[rr][cc] == cell_of_bordered(lv, rr, cc));
            };
            assert(grid_wf(p));
        }
        return Ok(p);
    }

    let mut r: usize = 0;
    while r < 9
        invariant
            lv == text_lines(text@),
            lv == lines.deep_view(),
            lines@.len() == 9,
            r <= 9,
            forall|k: int| 0 <= k < r ==> (#[trigger] lv[k]).len() <= 9,
        decreases 9 - r,
    {
        proof {
            lemma_line_view(&lines, r as int);
        }
        if lines[r].len() > 9 {
            proof {
                assert(lv[r as int].len() > 9);
                assert(!plain_shape(lv));
            }
            return Err(ParseError::WrongRowLength);
        }
        r = r + 1;
    }
    assert(plain_shape(lv));
    let mut p: Puzzle = [[0u8; 9]; 9];
    let mut r: usize = 0;
    while r < 9
        invariant
            lv == text_lines(text@),
            lv == lines.deep_view(),
            lines@.len() == 9,
            plain_shape(lv),
            r <= 9,
            forall|rr: int, cc: int|
                0 <= rr < r && 0 <= cc < 9 ==> p[rr][cc] == #[trigger] cell_of_plain(lv, rr, cc)
                    && p[rr][cc] <= 9,
        decreases 9 - r,
    {
        proof {
            lemma_line_view(&lines, r as int);
        }
        let len_r = lines[r].len();
        let mut row_arr = [0u8; 9];
        let mut c: usize = 0;
        while c < 9
            invariant
                lv == lines.deep_view(),
                lines@.len() == 9,
                plain_shape(lv),
                r < 9,
                len_r == lv[r as int].len(),
                len_r <= 9,
                c <= 9,
                forall|cc: int|
                    0 <= cc < c ==> row_arr[cc] == #[trigger] cell_of_plain(lv, r as int, cc)
                        && row_arr[cc] <= 9,
                forall|cc: int| c <= cc < 9 ==> row_arr[cc] == 0,
            decreases 9 - c,
        {
            if c < len_r {
                let ch = lines[r][c];
                row_arr[c] = char_to_digit(ch);
                proof {
                    lemma_line_view(&lines, r as int);
                    assert(lv[r as int][c as int] == lines@[r as int]@[c as int]);
                }
            }
            proof {
                assert forall|cc: int|
                    0 <= cc < c + 1 implies row_arr[cc] == cell_of_plain(lv, r as int, cc)
                        && row_arr[cc] <= 9 by {
                    if cc == c as int {
                        assert(row_arr[cc] == cell_of_plain(lv, r as int, cc));
                    }
                };
            }
            c = c + 1;
        }
        p[r] = row_arr;
        r = r + 1;
    }
    proof {
        assert forall|rr: int, cc: int| 0 <= rr < 9 && 0 <= cc < 9 implies p[rr][cc] <= 9 by {
            assert(p[rr][cc] == cell_of_plain(lv, rr, cc));
        };
        assert(grid_wf(p));
    }
    Ok(p)
}

} // verus!
