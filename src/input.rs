//! Turning user input into boards and flat lists into rows.

use vstd::prelude::*;
use vstd::arithmetic::mul::lemma_mul_is_distributive_add_other_way;
use crate::error::SlideError;
use crate::puzzle::{Board, CELLS, valid_board};

verus! {

pub open spec fn min(a: int, b: int) -> int {
    if a <= b {
        a
    } else {
        b
    }
}

/// Splits `vec` into rows of `row_size` items; the last row holds what is
/// left over.
pub fn to_matrix<T: Copy>(vec: Vec<T>, row_size: usize) -> (r: Vec<Vec<T>>)
    requires
        row_size > 0,
    ensures
        r@.len() * row_size >= vec@.len(),
        r@.len() == 0 || (r@.len() - 1) * row_size < vec@.len(),
        forall|i: int|
            0 <= i < r@.len() ==> (#[trigger] r@[i])@ == vec@.subrange(
                i * row_size,
                min(i * row_size + row_size, vec@.len() as int),
            ),
{
    let n = vec.len();
    let k = row_size;
    let mut rows: Vec<Vec<T>> = Vec::new();
    let mut s: usize = 0;
    assert(rows@.len() * k == 0);
    while s < n
        invariant
            n == vec@.len(),
            k == row_size,
            k > 0,
            s == min(rows@.len() * k, n as int),
            rows@.len() == 0 || (rows@.len() - 1) * k < n,
            forall|i: int|
                0 <= i < rows@.len() ==> (#[trigger] rows@[i])@ == vec@.subrange(
                    i * k,
                    min(i * k + k, n as int),
                ),
        decreases n - s,
    {
        let end: usize = if n - s > k { s + k } else { n };
        let mut row: Vec<T> = Vec::new();
        let mut j: usize = s;
        while j < end
            invariant
                s <= j <= end,
                end <= n == vec@.len(),
                row@ == vec@.subrange(s as int, j as int),
            decreases end - j,
        {
            row.push(vec[j]);
            assert(row@ =~= vec@.subrange(s as int, j + 1));
            j = j + 1;
        }
        proof {
            lemma_mul_is_distributive_add_other_way(k as int, rows@.len() as int, 1);
            assert(s == rows@.len() * k);
        }
        rows.push(row);
        s = end;
    }
    rows
}

pub open spec fn is_digit(c: char) -> bool {
    '0' <= c <= '9'
}

pub open spec fn digit_value(c: char) -> u8 {
    (c as u32 - '0' as u32) as u8
}

/// Reads a string of decimal digits into rows of three values; a last,
/// incomplete row is dropped.
pub fn string_to_i32_vec(input: String) -> (r: Vec<Vec<u8>>)
    requires
        forall|i: int| 0 <= i < input@.len() ==> is_digit(#[trigger] input@[i]),
    ensures
        r@.len() == input@.len() / 3,
        forall|i: int| 0 <= i < r@.len() ==> (#[trigger] r@[i])@.len() == 3,
        forall|i: int, j: int|
            0 <= i < r@.len() && 0 <= j < 3 ==> r@[i]@[j] == digit_value(input@[3 * i + j]),
{
    let s = input.as_str();
    let n = s.unicode_len();
    let mut grid: Vec<Vec<u8>> = Vec::new();
    let mut row: Vec<u8> = Vec::new();
    let mut i: usize = 0;
    while i < n
        invariant
            n == input@.len(),
            s@ == input@,
            i <= n,
            forall|k: int| 0 <= k < input@.len() ==> is_digit(#[trigger] input@[k]),
            grid@.len() == i / 3,
            row@.len() == i % 3,
            forall|a: int| 0 <= a < grid@.len() ==> (#[trigger] grid@[a])@.len() == 3,
            forall|a: int, b: int|
                0 <= a < grid@.len() && 0 <= b < 3 ==> grid@[a]@[b] == digit_value(
                    input@[3 * a + b],
                ),
            forall|b: int|
                0 <= b < row@.len() ==> #[trigger] row@[b] == digit_value(
                    input@[3 * (i / 3) + b],
                ),
        decreases n - i,
    {
        let c = s.get_char(i);
        row.push((c as u32 - '0' as u32) as u8);
        if (i + 1) % 3 == 0 {
            grid.push(row);
            row = Vec::new();
        }
        i = i + 1;
    }
    grid
}

/// The nine values of a 3×3 grid of rows, row by row.
pub open spec fn rows_board(rows: Seq<Vec<u8>>) -> Seq<u8> {
    Seq::new(9, |k: int| rows[k / 3]@[k % 3])
}

pub open spec fn is_three_by_three(rows: Seq<Vec<u8>>) -> bool {
    rows.len() == 3 && forall|i: int| 0 <= i < 3 ==> (#[trigger] rows[i])@.len() == 3
}

/// Checks that `b` holds each of `0..=8` exactly once.
pub fn is_valid_board(b: &Board) -> (r: bool)
    ensures
        r == valid_board(b@),
{
    let mut zero = false;
    let mut i: usize = 0;
    while i < CELLS
        invariant
            i <= 9,
            forall|a: int| 0 <= a < i ==> #[trigger] b@[a] < 9,
            forall|a: int, c: int| 0 <= a < i && 0 <= c < 9 && a != c ==> b@[a] != b@[c],
            zero == exists|a: int| 0 <= a < i && b@[a] == 0,
        decreases 9 - i,
    {
        if b[i] >= 9 {
            return false;
        }
        let mut j: usize = 0;
        while j < CELLS
            invariant
                i < 9,
                j <= 9,
                forall|c: int| 0 <= c < j && c != i ==> b@[i as int] != b@[c],
            decreases 9 - j,
        {
            if j != i && b[i] == b[j] {
                return false;
            }
            j = j + 1;
        }
        if b[i] == 0 {
            zero = true;
        }
        i = i + 1;
    }
    zero
}

/// Builds a board from three rows of three values, refusing anything that
/// does not hold each of `0..=8` exactly once.
pub fn board_from_rows(rows: &Vec<Vec<u8>>) -> (r: Result<Board, SlideError>)
    ensures
        r is Ok <==> is_three_by_three(rows@) && valid_board(rows_board(rows@)),
        r matches Ok(b) ==> b@ == rows_board(rows@),
        r matches Err(e) ==> e == SlideError::InvalidBoard,
{
    if rows.len() != 3 || rows[0].len() != 3 || rows[1].len() != 3 || rows[2].len() != 3 {
        return Err(SlideError::InvalidBoard);
    }
    let mut b: Board = [0u8; 9];
    let mut k: usize = 0;
    while k < CELLS
        invariant
            k <= 9,
            is_three_by_three(rows@),
            forall|a: int| 0 <= a < k ==> #[trigger] b@[a] == rows_board(rows@)[a],
        decreases 9 - k,
    {
        b[k] = rows[k / 3][k % 3];
        k = k + 1;
    }
    assert(b@ =~= rows_board(rows@));
    if is_valid_board(&b) {
        Ok(b)
    } else {
        Err(SlideError::InvalidBoard)
    }
}

/// The values of a string of nine digits, in order.
pub open spec fn digits_board(input: Seq<char>) -> Seq<u8> {
    Seq::new(9, |k: int| digit_value(input[k]))
}

/// Reads a board from nine digits, row by row, with `0` for the blank.
/// Anything else (another length, a character that is no digit, a digit
/// repeated or missing) is refused as an invalid board.
pub fn parse_board(input: String) -> (r: Result<Board, SlideError>)
    ensures
        r is Ok <==> input@.len() == 9 && (forall|i: int| 0 <= i < 9 ==> is_digit(#[trigger] input@[i]))
            && valid_board(digits_board(input@)),
        r matches Ok(b) ==> b@ == digits_board(input@),
        r matches Err(e) ==> e == SlideError::InvalidBoard,
{
    let n = input.as_str().unicode_len();
    if n != CELLS {
        return Err(SlideError::InvalidBoard);
    }
    let mut i: usize = 0;
    while i < n
        invariant
            n == input@.len() == 9,
            i <= n,
            forall|k: int| 0 <= k < i ==> is_digit(#[trigger] input@[k]),
        decreases n - i,
    {
        let c = input.as_str().get_char(i);
        if c < '0' || c > '9' {
            return Err(SlideError::InvalidBoard);
        }
        i = i + 1;
    }
    let ghost text = input@;
    let rows = string_to_i32_vec(input);
    assert(rows_board(rows@) =~= digits_board(text));
    board_from_rows(&rows)
}

} // verus!
