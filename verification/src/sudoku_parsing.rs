//! Turning a flat sequence of raw digits into the 9x9 grid the solver
//! takes, with exact reporting of malformed input.

use vstd::prelude::*;

verus! {

/// Why a flat digit sequence cannot stand for a Sudoku grid.
#[derive(Debug, PartialEq, Eq, Structural)]
pub enum ParseError {
    /// Fewer than 81 digits were supplied; carries the shortfall.
    MissingDigits(usize),
    /// More than 81 digits were supplied; carries the count supplied.
    TooManyDigits(usize),
    /// Some entry is greater than 9.
    DigitTooLarge,
}

/// Turn a flat, row-major sequence of exactly 81 digits, each at most 9,
/// into a 9x9 grid; report precisely how shorter, longer, or
/// out-of-range input is malformed.
pub fn parse_raw_sudoku(raw_sudoku: Vec<u8>) -> (r: Result<Vec<Vec<u8>>, ParseError>)
    ensures
        raw_sudoku@.len() < 81 ==> (r matches Err(e)
            && e == ParseError::MissingDigits((81 - raw_sudoku@.len()) as usize)),
        raw_sudoku@.len() > 81 ==> (r matches Err(e)
            && e == ParseError::TooManyDigits(raw_sudoku@.len() as usize)),
        raw_sudoku@.len() == 81 && (exists|i: int| 0 <= i < 81 && raw_sudoku@[i] > 9)
            ==> (r matches Err(e) && e == ParseError::DigitTooLarge),
        raw_sudoku@.len() == 81 && (forall|i: int| 0 <= i < 81 ==> raw_sudoku@[i] <= 9)
            ==> (r matches Ok(grid)
                && grid@.len() == 9
                && (forall|r2: int| 0 <= r2 < 9 ==> (#[trigger] grid@[r2])@.len() == 9)
                && (forall|r2: int, c2: int| 0 <= r2 < 9 && 0 <= c2 < 9
                    ==> (#[trigger] grid@[r2]@[c2]) == raw_sudoku@[r2 * 9 + c2])),
{
    if raw_sudoku.len() != 81 {
        if raw_sudoku.len() < 81 {
            return Err(ParseError::MissingDigits(81 - raw_sudoku.len()));
        } else {
            return Err(ParseError::TooManyDigits(raw_sudoku.len()));
        }
    }
    let mut i: usize = 0;
    while i < 81
        invariant
            raw_sudoku@.len() == 81,
            i <= 81,
            forall|j: int| 0 <= j < i ==> raw_sudoku@[j] <= 9,
        decreases 81 - i,
    {
        if raw_sudoku[i] > 9 {
            assert(raw_sudoku@[i as int] > 9);
            return Err(ParseError::DigitTooLarge);
        }
        i += 1;
    }
    let mut grid: Vec<Vec<u8>> = Vec::new();
    let mut r2: usize = 0;
    while r2 < 9
        invariant
            raw_sudoku@.len() == 81,
            r2 <= 9,
            grid@.len() == r2,
            forall|j: int| 0 <= j < 81 ==> raw_sudoku@[j] <= 9,
            forall|a: int| 0 <= a < r2 ==> (#[trigger] grid@[a])@.len() == 9,
            forall|a: int, b: int| 0 <= a < r2 && 0 <= b < 9
                ==> (#[trigger] grid@[a]@[b]) == raw_sudoku@[a * 9 + b],
        decreases 9 - r2,
    {
        let mut row_out: Vec<u8> = Vec::new();
        let mut c2: usize = 0;
        while c2 < 9
            invariant
                raw_sudoku@.len() == 81,
                r2 < 9,
                c2 <= 9,
                row_out@.len() == c2,
                forall|b: int| 0 <= b < c2 ==> (#[trigger] row_out@[b]) == raw_sudoku@[r2 * 9 + b],
            decreases 9 - c2,
        {
            row_out.push(raw_sudoku[r2 * 9 + c2]);
            c2 += 1;
        }
        grid.push(row_out);
        r2 += 1;
    }
    Ok(grid)
}

} // verus!
