//! Checking a board of numbers for repeats in rows, columns and squares.
use std::collections::HashSet;
use vstd::prelude::*;
use crate::strings::{parse_small_number, small_number};

verus! {

broadcast use vstd::std_specs::hash::group_hash_axioms;

/// The texts of the cells of a line of a board.
pub open spec fn line_view(line: Seq<&str>) -> Seq<Seq<char>> {
    Seq::new(line.len(), |c: int| line[c]@)
}

/// The texts of the cells of a board, row by row.
pub open spec fn board_view(board: Seq<Vec<&str>>) -> Seq<Seq<Seq<char>>> {
    Seq::new(board.len(), |r: int| line_view(board[r]@))
}

/// Whether two of `cells` hold the same number. A cell holds a number if its
/// text writes one up to 255; any other cell counts as empty.
pub open spec fn numbers_repeat(cells: Seq<Seq<char>>) -> bool {
    exists|a: int, b: int|
        0 <= a < b < cells.len() && small_number(#[trigger] cells[a]) is Some && small_number(
            cells[a],
        ) == small_number(#[trigger] cells[b])
}

/// The cells of column `col`, from the first row to the last.
pub open spec fn column(cells: Seq<Seq<Seq<char>>>, col: int) -> Seq<Seq<char>> {
    Seq::new(cells.len(), |r: int| cells[r][col])
}

/// The cells in the rows from `top` to `upto`, and in each of them in the
/// `side` columns from `left` on; the upper bounds are not included.
pub open spec fn square_rows(
    cells: Seq<Seq<Seq<char>>>,
    top: int,
    left: int,
    side: int,
    upto: int,
) -> Seq<Seq<char>>
    decreases upto - top,
{
    if upto <= top {
        Seq::empty()
    } else {
        square_rows(cells, top, left, side, upto - 1) + cells[upto - 1].subrange(
            left,
            left + side,
        )
    }
}

/// The cells of the square of `side` rows and columns whose first cell
/// stands in row `top` and column `left`.
pub open spec fn square(cells: Seq<Seq<Seq<char>>>, top: int, left: int, side: int) -> Seq<
    Seq<char>,
> {
    square_rows(cells, top, left, side, top + side)
}

/// The square in the `a`-th band of rows and the `b`-th band of columns;
/// its side is a third of the number of rows, rounded down.
pub open spec fn block(cells: Seq<Seq<Seq<char>>>, a: int, b: int) -> Seq<Seq<char>> {
    let side = cells.len() as int / 3;
    square(cells, a * side, b * side, side)
}

/// Whether no row holds a number twice.
pub open spec fn rows_valid(cells: Seq<Seq<Seq<char>>>) -> bool {
    forall|r: int| 0 <= r < cells.len() ==> !numbers_repeat(#[trigger] cells[r])
}

/// Whether none of the first columns, as many as there are rows, holds a
/// number twice.
pub open spec fn columns_valid(cells: Seq<Seq<Seq<char>>>) -> bool {
    forall|c: int| 0 <= c < cells.len() ==> !numbers_repeat(#[trigger] column(cells, c))
}

/// Whether none of the nine squares, three by three, holds a number twice.
pub open spec fn squares_valid(cells: Seq<Seq<Seq<char>>>) -> bool {
    forall|a: int, b: int|
        0 <= a < 3 && 0 <= b < 3 ==> !numbers_repeat(#[trigger] block(cells, a, b))
}

/// Whether no number occurs twice among `data`.
fn unroll_data(data: &Vec<&str>) -> (valid: bool)
    ensures
        valid == !numbers_repeat(line_view(data@)),
{
    let ghost cells = line_view(data@);
    let mut hashed: HashSet<u8> = HashSet::new();
    let mut i: usize = 0;
    while i < data.len()
        invariant
            i <= data.len(),
            cells == line_view(data@),
            forall|a: int, b: int|
                0 <= a < b < i ==> !(small_number(#[trigger] cells[a]) is Some && small_number(
                    cells[a],
                ) == small_number(#[trigger] cells[b])),
            forall|num: u8|
                hashed@.contains(num) <==> exists|k: int|
                    0 <= k < i && small_number(#[trigger] cells[k]) == Some(num),
        decreases data.len() - i,
    {
        let parsed = parse_small_number(data[i]);
        assert(cells[i as int] == data@[i as int]@);
        match parsed {
            Some(num_rep) => {
                if hashed.contains(&num_rep) {
                    proof {
                        let k = choose|k: int|
                            0 <= k < i && small_number(#[trigger] cells[k]) == Some(num_rep);
                        assert(small_number(cells[k]) == small_number(cells[i as int]));
                    }
                    return false;
                } else {
                    hashed.insert(num_rep);
                    proof {
                        assert forall|num: u8|
                            hashed@.contains(num) <==> exists|k: int|
                                0 <= k < i + 1 && small_number(#[trigger] cells[k]) == Some(num) by {
                            if num == num_rep {
                                assert(small_number(cells[i as int]) == Some(num));
                            }
                        }
                    }
                }
            },
            None => {},
        }
        i = i + 1;
    }
    proof {
        if numbers_repeat(cells) {
            let (a, b) = choose|a: int, b: int|
                0 <= a < b < cells.len() && small_number(#[trigger] cells[a]) is Some
                    && small_number(cells[a]) == small_number(#[trigger] cells[b]);
        }
    }
    true
}

/// Whether no number occurs twice in the square of `side` rows and columns
/// whose first cell stands in row `top` and column `left`.
fn test_square(input: &Vec<Vec<&str>>, top: usize, left: usize, side: usize) -> (valid: bool)
    requires
        top + side <= input.len(),
        left + side <= input.len(),
        forall|r: int| 0 <= r < input.len() ==> (#[trigger] input@[r]).len() >= input.len(),
    ensures
        valid == !numbers_repeat(square(board_view(input@), top as int, left as int, side as int)),
{
    let ghost cells = board_view(input@);
    let bottom: usize = top + side;
    let right: usize = left + side;
    let mut flat: Vec<&str> = Vec::new();
    let mut i: usize = top;
    while i < bottom
        invariant
            top <= i <= bottom <= input.len(),
            bottom == top + side,
            right == left + side,
            right <= input.len(),
            cells == board_view(input@),
            forall|r: int| 0 <= r < input.len() ==> (#[trigger] input@[r]).len() >= input.len(),
            line_view(flat@) == square_rows(cells, top as int, left as int, side as int, i as int),
        decreases bottom - i,
    {
        let ghost done = line_view(flat@);
        let mut j: usize = left;
        proof {
            assert(cells[i as int].subrange(left as int, left as int) =~= Seq::<Seq<char>>::empty());
            assert(done + Seq::<Seq<char>>::empty() =~= done);
        }
        while j < right
            invariant
                left <= j <= right <= input.len(),
                i < input.len(),
                cells == board_view(input@),
                input@[i as int].len() >= input.len(),
                line_view(flat@) == done + cells[i as int].subrange(left as int, j as int),
            decreases right - j,
        {
            let ghost before = line_view(flat@);
            flat.push(input[i][j]);
            proof {
                assert(cells[i as int][j as int] == input@[i as int]@[j as int]@);
                assert(line_view(flat@) =~= before.push(cells[i as int][j as int]));
                assert(cells[i as int].subrange(left as int, j + 1) =~= cells[i as int].subrange(
                    left as int,
                    j as int,
                ).push(cells[i as int][j as int]));
                assert(before.push(cells[i as int][j as int]) =~= done + cells[i as int].subrange(
                    left as int,
                    j + 1,
                ));
            }
            j = j + 1;
        }
        i = i + 1;
    }
    unroll_data(&flat)
}

/// Whether no number occurs twice in column `col`.
fn test_column(input: &Vec<Vec<&str>>, col: usize) -> (valid: bool)
    requires
        forall|r: int| 0 <= r < input.len() ==> (#[trigger] input@[r]).len() > col,
    ensures
        valid == !numbers_repeat(column(board_view(input@), col as int)),
{
    let ghost cells = board_view(input@);
    let mut flat: Vec<&str> = Vec::new();
    let mut i: usize = 0;
    while i < input.len()
        invariant
            i <= input.len(),
            cells == board_view(input@),
            forall|r: int| 0 <= r < input.len() ==> (#[trigger] input@[r]).len() > col,
            line_view(flat@) == column(cells, col as int).take(i as int),
        decreases input.len() - i,
    {
        let ghost before = line_view(flat@);
        flat.push(input[i][col]);
        proof {
            assert(cells[i as int][col as int] == input@[i as int]@[col as int]@);
            assert(line_view(flat@) =~= before.push(cells[i as int][col as int]));
            assert(column(cells, col as int).take(i + 1) =~= column(cells, col as int).take(
                i as int,
            ).push(cells[i as int][col as int]));
        }
        i = i + 1;
    }
    proof {
        assert(column(cells, col as int).take(input.len() as int) =~= column(cells, col as int));
    }
    unroll_data(&flat)
}

/// Whether the board is valid: no row, none of the first columns (as many as
/// there are rows) and none of the nine squares, three by three, holds a
/// number twice. The side of a square is a third of the number of rows,
/// rounded down. Cells whose text is no number count as empty.
///
/// Where every row is valid, the columns and squares are looked at, so every
/// row must have at least as many cells as there are rows.
pub fn is_valid_sudoku(input: Vec<Vec<&str>>) -> (valid: bool)
    requires
        rows_valid(board_view(input@)) ==> forall|r: int|
            0 <= r < input.len() ==> (#[trigger] input@[r]).len() >= input.len(),
    ensures
        valid == (rows_valid(board_view(input@)) && columns_valid(board_view(input@))
            && squares_valid(board_view(input@))),
{
    let ghost cells = board_view(input@);
    let n = input.len();

    let mut row: usize = 0;
    while row < n
        invariant
            row <= n,
            n == input.len(),
            cells == board_view(input@),
            forall|r: int| 0 <= r < row ==> !numbers_repeat(#[trigger] cells[r]),
        decreases n - row,
    {
        assert(cells[row as int] == line_view(input@[row as int]@));
        if !unroll_data(&input[row]) {
            return false;
        }
        row = row + 1;
    }

    let mut col: usize = 0;
    while col < n
        invariant
            col <= n,
            n == input.len(),
            cells == board_view(input@),
            rows_valid(cells),
            forall|r: int| 0 <= r < input.len() ==> (#[trigger] input@[r]).len() >= input.len(),
            forall|c: int| 0 <= c < col ==> !numbers_repeat(#[trigger] column(cells, c)),
        decreases n - col,
    {
        if !test_column(&input, col) {
            return false;
        }
        col = col + 1;
    }

    let chunk_size: usize = n / 3;
    let mut band: usize = 0;
    let mut top: usize = 0;
    while band < 3
        invariant
            n == input.len(),
            cells == board_view(input@),
            cells.len() == n,
            chunk_size == n / 3,
            band <= 3,
            top == band * chunk_size,
            rows_valid(cells),
            columns_valid(cells),
            forall|r: int| 0 <= r < input.len() ==> (#[trigger] input@[r]).len() >= input.len(),
            forall|a: int, b: int|
                0 <= a < band && 0 <= b < 3 ==> !numbers_repeat(#[trigger] block(cells, a, b)),
        decreases 3 - band,
    {
        let mut strip: usize = 0;
        let mut left: usize = 0;
        while strip < 3
            invariant
                n == input.len(),
                cells == board_view(input@),
                cells.len() == n,
                chunk_size == n / 3,
                band < 3,
                strip <= 3,
                top == band * chunk_size,
                left == strip * chunk_size,
                forall|r: int|
                    0 <= r < input.len() ==> (#[trigger] input@[r]).len() >= input.len(),
                forall|a: int, b: int|
                    0 <= a < band && 0 <= b < 3 ==> !numbers_repeat(#[trigger] block(cells, a, b)),
                forall|b: int|
                    0 <= b < strip ==> !numbers_repeat(#[trigger] block(cells, band as int, b)),
            decreases 3 - strip,
        {
            assert(top + chunk_size <= n && left + chunk_size <= n) by (nonlinear_arith)
                requires
                    top == band * chunk_size,
                    left == strip * chunk_size,
                    band < 3,
                    strip < 3,
                    chunk_size == n / 3,
            ;
            if !test_square(&input, top, left, chunk_size) {
                assert(numbers_repeat(block(cells, band as int, strip as int)));
                return false;
            }
            assert((strip + 1) * chunk_size == left + chunk_size) by (nonlinear_arith)
                requires
                    left == strip * chunk_size,
            ;
            left = left + chunk_size;
            strip = strip + 1;
        }
        assert((band + 1) * chunk_size == top + chunk_size && top + chunk_size <= n)
            by (nonlinear_arith)
            requires
                top == band * chunk_size,
                band < 3,
                chunk_size == n / 3,
        ;
        top = top + chunk_size;
        band = band + 1;
    }
    true
}

} // verus!
