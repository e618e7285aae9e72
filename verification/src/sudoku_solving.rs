//! The validator, the candidate-set initializer, and the backtracking
//! search with the minimum-remaining-values heuristic.

use vstd::prelude::*;

use crate::sudoku_definition::{
    all_digits, board_wf, cell, cell_after_narrow, cell_after_remove, cell_wf, clone_digits, contains_digit, filled_with, idx,
    in_range, is_digit, is_peer, same_box, sorted_digits, CellV, Field, Sudoku,
};

verus! {

/// Some cell of row `r` is filled with `d`.
pub open spec fn row_has(b: Seq<CellV>, r: int, d: u8) -> bool {
    exists|c: int| 0 <= c < 9 && filled_with(#[trigger] cell(b, r, c), d)
}

/// Some cell of column `c` is filled with `d`.
pub open spec fn col_has(b: Seq<CellV>, c: int, d: u8) -> bool {
    exists|r: int| 0 <= r < 9 && filled_with(#[trigger] cell(b, r, c), d)
}

/// Some cell of the box around (r, c) is filled with `d`.
pub open spec fn box_has(b: Seq<CellV>, r: int, c: int, d: u8) -> bool {
    exists|r2: int, c2: int|
        in_range(r2, c2) && same_box(r, c, r2, c2) && filled_with(#[trigger] cell(b, r2, c2), d)
}

/// Some peer of (r, c) is filled with `d`.
pub open spec fn peer_filled(b: Seq<CellV>, r: int, c: int, d: u8) -> bool {
    exists|r2: int, c2: int|
        in_range(r2, c2) && is_peer(r, c, r2, c2) && filled_with(#[trigger] cell(b, r2, c2), d)
}

/// The digit `d` is consistent at (r, c) with every filled cell of the
/// row, the column, and the box.
pub open spec fn candidate_ok(b: Seq<CellV>, r: int, c: int, d: u8) -> bool {
    &&& is_digit(d)
    &&& !row_has(b, r, d)
    &&& !col_has(b, c, d)
    &&& !box_has(b, r, c, d)
}

/// The filled cell at (r, c), if any, clashes with no peer.
pub open spec fn field_ok(b: Seq<CellV>, r: int, c: int) -> bool {
    match cell(b, r, c) {
        CellV::Filled(d) => !peer_filled(b, r, c, d),
        _ => true,
    }
}

/// No two filled cells sharing a row, a column, or a box hold the same
/// digit: the constraint-satisfaction invariant.
pub open spec fn valid_board(b: Seq<CellV>) -> bool {
    forall|r: int, c: int| in_range(r, c) ==> #[trigger] field_ok(b, r, c)
}

/// Does `cv` hold `x` among its candidates?
pub open spec fn opts_contain(cv: CellV, x: u8) -> bool {
    match cv {
        CellV::Options(s) => s.contains(x),
        _ => false,
    }
}

/// Every candidate everywhere is consistent with the filled peers of its
/// cell; preserved by the search as digits are assigned and propagated.
pub open spec fn options_consistent(b: Seq<CellV>) -> bool {
    forall|r: int, c: int, x: u8|
        in_range(r, c) && #[trigger] opts_contain(cell(b, r, c), x)
            ==> !peer_filled(b, r, c, x)
}

pub open spec fn no_empty_board(b: Seq<CellV>) -> bool {
    forall|i: int| 0 <= i < 81 ==> !(#[trigger] b[i] matches CellV::Empty)
}

pub open spec fn no_options_board(b: Seq<CellV>) -> bool {
    forall|i: int| 0 <= i < 81 ==> !(#[trigger] b[i] matches CellV::Options(_))
}

pub open spec fn all_filled_board(b: Seq<CellV>) -> bool {
    forall|i: int| 0 <= i < 81 ==> (#[trigger] b[i] matches CellV::Filled(_))
}

/// A board the search may run on: well formed, initialized, and with all
/// its filled cells and candidates mutually consistent.
pub open spec fn searchable(b: Seq<CellV>) -> bool {
    &&& board_wf(b)
    &&& no_empty_board(b)
    &&& valid_board(b)
    &&& options_consistent(b)
}

/// A board whose candidate sets have been computed and kept consistent
/// with its filled cells — what initialization establishes and every
/// successful propagation preserves; unlike `searchable` it does not ask
/// that the filled cells themselves be mutually consistent.
pub open spec fn propagated(b: Seq<CellV>) -> bool {
    &&& board_wf(b)
    &&& no_empty_board(b)
    &&& options_consistent(b)
}

/// One cell of a claimed solution against the board it must respect:
/// fixed digits are kept, and a candidate cell's digit is drawn from its
/// own set.
pub open spec fn compatible_cell(b: Seq<CellV>, sol: Seq<CellV>, r: int, c: int) -> bool {
    match cell(b, r, c) {
        CellV::Filled(d) => cell(sol, r, c) == CellV::Filled(d),
        CellV::Options(s) => (cell(sol, r, c) matches CellV::Filled(e) && s.contains(e)),
        CellV::Empty => cell(sol, r, c) matches CellV::Filled(_),
    }
}

/// A fully fixed board satisfying the Sudoku constraint that respects
/// every cell of `b`.
pub open spec fn solution_of(b: Seq<CellV>, sol: Seq<CellV>) -> bool {
    &&& sol.len() == 81
    &&& all_filled_board(sol)
    &&& valid_board(sol)
    &&& forall|r: int, c: int| in_range(r, c) ==> #[trigger] compatible_cell(b, sol, r, c)
}

/// Whether the board, considered purely at its currently filled cells,
/// satisfies the Sudoku constraint; unexamined and candidate cells never
/// count as violations.
pub fn sudoku_options_solvable(sudoku: &Sudoku) -> (r: bool)
    requires
        sudoku.wf(),
    ensures
        r == valid_board(sudoku@),
{
    let mut row: usize = 0;
    while row < 9
        invariant
            sudoku.wf(),
            row <= 9,
            forall|r2: int, c2: int| 0 <= r2 < row && 0 <= c2 < 9 ==> #[trigger] field_ok(sudoku@, r2, c2),
        decreases 9 - row,
    {
        let mut col: usize = 0;
        while col < 9
            invariant
                sudoku.wf(),
                row < 9,
                col <= 9,
                forall|r2: int, c2: int| 0 <= r2 < row && 0 <= c2 < 9 ==> #[trigger] field_ok(sudoku@, r2, c2),
                forall|c2: int| 0 <= c2 < col ==> #[trigger] field_ok(sudoku@, row as int, c2),
            decreases 9 - col,
        {
            if !sudoku_field_valid(sudoku, row, col) {
                return false;
            }
            col += 1;
        }
        row += 1;
    }
    true
}

/// The filled cell at (row, col), if any, clashes with none of its 8 row
/// peers, 8 column peers, and 8 box peers.
fn sudoku_field_valid(sudoku: &Sudoku, row: usize, col: usize) -> (r: bool)
    requires
        sudoku.wf(),
        row < 9,
        col < 9,
    ensures
        r == field_ok(sudoku@, row as int, col as int),
{
    let current_value = match &sudoku.0[row * 9 + col] {
        Field::Empty | Field::Options(_) => {
            return true;
        }
        Field::Filled(val) => *val,
    };
    assert(cell(sudoku@, row as int, col as int) == CellV::Filled(current_value));
    let mut i: usize = 0;
    while i < 9
        invariant
            sudoku.wf(),
            row < 9,
            col < 9,
            i <= 9,
            cell(sudoku@, row as int, col as int) == CellV::Filled(current_value),
            forall|r2: int| 0 <= r2 < i && r2 != row
                ==> !filled_with(#[trigger] cell(sudoku@, r2, col as int), current_value),
            forall|c2: int| 0 <= c2 < i && c2 != col
                ==> !filled_with(#[trigger] cell(sudoku@, row as int, c2), current_value),
        decreases 9 - i,
    {
        // check column peer in this row index
        if i != row && sudoku.0[i * 9 + col].eq_digit(current_value) {
            assert(!field_ok(sudoku@, row as int, col as int)) by {
                assert(is_peer(row as int, col as int, i as int, col as int));
                assert(filled_with(cell(sudoku@, i as int, col as int), current_value));
            }
            return false;
        }
        // check row peer in this column index
        if i != col && sudoku.0[row * 9 + i].eq_digit(current_value) {
            assert(!field_ok(sudoku@, row as int, col as int)) by {
                assert(is_peer(row as int, col as int, row as int, i as int));
                assert(filled_with(cell(sudoku@, row as int, i as int), current_value));
            }
            return false;
        }
        i += 1;
    }
    let row_offset = (row / 3) * 3;
    let col_offset = (col / 3) * 3;
    let mut r2 = row_offset;
    while r2 < row_offset + 3
        invariant
            sudoku.wf(),
            row < 9,
            col < 9,
            row_offset == (row / 3) * 3,
            col_offset == (col / 3) * 3,
            row_offset <= r2 <= row_offset + 3,
            cell(sudoku@, row as int, col as int) == CellV::Filled(current_value),
            forall|rr: int| 0 <= rr < 9 && rr != row
                ==> !filled_with(#[trigger] cell(sudoku@, rr, col as int), current_value),
            forall|cc: int| 0 <= cc < 9 && cc != col
                ==> !filled_with(#[trigger] cell(sudoku@, row as int, cc), current_value),
            forall|rr: int, cc: int|
                row_offset <= rr < r2 && col_offset <= cc < col_offset + 3
                    && !(rr == row && cc == col)
                    ==> !filled_with(#[trigger] cell(sudoku@, rr, cc), current_value),
        decreases row_offset + 3 - r2,
    {
        let mut c2 = col_offset;
        while c2 < col_offset + 3
            invariant
                sudoku.wf(),
                row < 9,
                col < 9,
                row_offset == (row / 3) * 3,
                col_offset == (col / 3) * 3,
                row_offset <= r2 < row_offset + 3,
                col_offset <= c2 <= col_offset + 3,
                cell(sudoku@, row as int, col as int) == CellV::Filled(current_value),
                forall|rr: int, cc: int|
                    row_offset <= rr < r2 && col_offset <= cc < col_offset + 3
                        && !(rr == row && cc == col)
                        ==> !filled_with(#[trigger] cell(sudoku@, rr, cc), current_value),
                forall|cc: int|
                    col_offset <= cc < c2 && !(r2 == row && cc == col)
                        ==> !filled_with(#[trigger] cell(sudoku@, r2 as int, cc), current_value),
            decreases col_offset + 3 - c2,
        {
            if !(r2 == row && c2 == col) {
                if sudoku.0[r2 * 9 + c2].eq_digit(current_value) {
                    assert(!field_ok(sudoku@, row as int, col as int)) by {
                        assert(same_box(row as int, col as int, r2 as int, c2 as int));
                        assert(is_peer(row as int, col as int, r2 as int, c2 as int));
                        assert(filled_with(cell(sudoku@, r2 as int, c2 as int), current_value));
                    }
                    return false;
                }
            }
            c2 += 1;
        }
        r2 += 1;
    }
    assert(field_ok(sudoku@, row as int, col as int)) by {
        assert forall|rr: int, cc: int|
            in_range(rr, cc) && is_peer(row as int, col as int, rr, cc)
                implies !filled_with(cell(sudoku@, rr, cc), current_value) by {
            if rr == row as int {
                assert(cc != col as int);
            } else if cc == col as int {
            } else {
                assert(same_box(row as int, col as int, rr, cc));
                assert(row_offset <= rr < row_offset + 3);
                assert(col_offset <= cc < col_offset + 3);
            }
        }
    }
    true
}

/// The digit a cell finally holds, if any.
pub open spec fn filled_of(cv: CellV) -> Option<u8> {
    match cv {
        CellV::Filled(d) => Some(d),
        _ => None,
    }
}

/// The two boards agree, cell by cell, on which digits are filled where.
pub open spec fn same_filled(b0: Seq<CellV>, b1: Seq<CellV>) -> bool {
    &&& b0.len() == 81
    &&& b1.len() == 81
    &&& forall|i: int| 0 <= i < 81 ==> filled_of(#[trigger] b0[i]) == filled_of(#[trigger] b1[i])
}

/// Row, column, box and peer occupancy, and validity, depend on the
/// filled cells alone.
proof fn lemma_same_filled_has(b0: Seq<CellV>, b1: Seq<CellV>)
    requires
        same_filled(b0, b1),
    ensures
        forall|r: int, d: u8| 0 <= r < 9 ==> #[trigger] row_has(b1, r, d) == row_has(b0, r, d),
        forall|c: int, d: u8| 0 <= c < 9 ==> #[trigger] col_has(b1, c, d) == col_has(b0, c, d),
        forall|r: int, c: int, d: u8|
            in_range(r, c) ==> #[trigger] box_has(b1, r, c, d) == box_has(b0, r, c, d),
        forall|r: int, c: int, d: u8|
            in_range(r, c) ==> #[trigger] peer_filled(b1, r, c, d) == peer_filled(b0, r, c, d),
        valid_board(b1) == valid_board(b0),
{
    assert forall|i: int, d: u8| 0 <= i < 81
        implies #[trigger] filled_with(b1[i], d) == #[trigger] filled_with(b0[i], d) by {
        assert(filled_of(b0[i]) == filled_of(b1[i]));
    }
    assert forall|r: int, d: u8| 0 <= r < 9
        implies #[trigger] row_has(b1, r, d) == row_has(b0, r, d) by {
        if row_has(b0, r, d) {
            let c = choose|c: int| 0 <= c < 9 && filled_with(cell(b0, r, c), d);
            assert(filled_with(cell(b1, r, c), d));
        }
        if row_has(b1, r, d) {
            let c = choose|c: int| 0 <= c < 9 && filled_with(cell(b1, r, c), d);
            assert(filled_with(cell(b0, r, c), d));
        }
    }
    assert forall|c: int, d: u8| 0 <= c < 9
        implies #[trigger] col_has(b1, c, d) == col_has(b0, c, d) by {
        if col_has(b0, c, d) {
            let r = choose|r: int| 0 <= r < 9 && filled_with(cell(b0, r, c), d);
            assert(filled_with(cell(b1, r, c), d));
        }
        if col_has(b1, c, d) {
            let r = choose|r: int| 0 <= r < 9 && filled_with(cell(b1, r, c), d);
            assert(filled_with(cell(b0, r, c), d));
        }
    }
    assert forall|r: int, c: int, d: u8| in_range(r, c)
        implies #[trigger] box_has(b1, r, c, d) == box_has(b0, r, c, d) by {
        if box_has(b0, r, c, d) {
            let (r2, c2) = choose|r2: int, c2: int|
                in_range(r2, c2) && same_box(r, c, r2, c2) && filled_with(cell(b0, r2, c2), d);
            assert(filled_with(cell(b1, r2, c2), d));
        }
        if box_has(b1, r, c, d) {
            let (r2, c2) = choose|r2: int, c2: int|
                in_range(r2, c2) && same_box(r, c, r2, c2) && filled_with(cell(b1, r2, c2), d);
            assert(filled_with(cell(b0, r2, c2), d));
        }
    }
    assert forall|r: int, c: int, d: u8| in_range(r, c)
        implies #[trigger] peer_filled(b1, r, c, d) == peer_filled(b0, r, c, d) by {
        if peer_filled(b0, r, c, d) {
            let (r2, c2) = choose|r2: int, c2: int|
                in_range(r2, c2) && is_peer(r, c, r2, c2) && filled_with(cell(b0, r2, c2), d);
            assert(filled_with(cell(b1, r2, c2), d));
        }
        if peer_filled(b1, r, c, d) {
            let (r2, c2) = choose|r2: int, c2: int|
                in_range(r2, c2) && is_peer(r, c, r2, c2) && filled_with(cell(b1, r2, c2), d);
            assert(filled_with(cell(b0, r2, c2), d));
        }
    }
    assert forall|r: int, c: int| in_range(r, c)
        implies #[trigger] field_ok(b1, r, c) == field_ok(b0, r, c) by {
        assert(filled_of(cell(b0, r, c)) == filled_of(cell(b1, r, c)));
    }
    if valid_board(b0) {
        assert forall|r: int, c: int| in_range(r, c) implies #[trigger] field_ok(b1, r, c) by {
            assert(field_ok(b0, r, c));
        }
    }
    if valid_board(b1) {
        assert forall|r: int, c: int| in_range(r, c) implies #[trigger] field_ok(b0, r, c) by {
            assert(field_ok(b1, r, c));
        }
    }
}

/// A filled peer always shows up in the row, the column, or the box.
proof fn lemma_peer_filled_groups(b: Seq<CellV>, r: int, c: int, d: u8)
    requires
        in_range(r, c),
        peer_filled(b, r, c, d),
    ensures
        row_has(b, r, d) || col_has(b, c, d) || box_has(b, r, c, d),
{
    let (r2, c2) = choose|r2: int, c2: int|
        in_range(r2, c2) && is_peer(r, c, r2, c2) && filled_with(cell(b, r2, c2), d);
    if r2 == r {
        assert(row_has(b, r, d)) by { assert(filled_with(cell(b, r, c2), d)); }
    } else if c2 == c {
        assert(col_has(b, c, d)) by { assert(filled_with(cell(b, r2, c), d)); }
    } else {
        assert(same_box(r, c, r2, c2));
        assert(box_has(b, r, c, d)) by { assert(filled_with(cell(b, r2, c2), d)); }
    }
}

/// Some cell of row `r` among the first `n` columns is filled with `x`.
pub open spec fn row_has_to(b: Seq<CellV>, r: int, n: int, x: u8) -> bool {
    exists|c: int| 0 <= c < n && filled_with(#[trigger] cell(b, r, c), x)
}

proof fn lemma_row_has_to_step(b: Seq<CellV>, r: int, n: int, x: u8)
    requires
        0 <= n,
    ensures
        row_has_to(b, r, n + 1, x) <==> (row_has_to(b, r, n, x) || filled_with(cell(b, r, n), x)),
{
    if row_has_to(b, r, n + 1, x) {
        let c = choose|c: int| 0 <= c < n + 1 && filled_with(cell(b, r, c), x);
        if c < n {
            assert(row_has_to(b, r, n, x)) by { assert(filled_with(cell(b, r, c), x)); }
        }
    }
    if row_has_to(b, r, n, x) {
        let c = choose|c: int| 0 <= c < n && filled_with(cell(b, r, c), x);
        assert(row_has_to(b, r, n + 1, x)) by { assert(filled_with(cell(b, r, c), x)); }
    }
    if filled_with(cell(b, r, n), x) {
        assert(row_has_to(b, r, n + 1, x));
    }
}

proof fn lemma_row_has_to_full(b: Seq<CellV>, r: int, x: u8)
    ensures
        row_has_to(b, r, 9, x) <==> row_has(b, r, x),
{
    if row_has_to(b, r, 9, x) {
        let c = choose|c: int| 0 <= c < 9 && filled_with(cell(b, r, c), x);
        assert(row_has(b, r, x)) by { assert(filled_with(cell(b, r, c), x)); }
    }
    if row_has(b, r, x) {
        let c = choose|c: int| 0 <= c < 9 && filled_with(cell(b, r, c), x);
        assert(row_has_to(b, r, 9, x)) by { assert(filled_with(cell(b, r, c), x)); }
    }
}

/// How one cell looks after its row pass: an unexamined cell now holds
/// exactly the digits no filled cell of its row uses, any other cell is
/// untouched.
pub open spec fn row_narrowed_cell(b0: Seq<CellV>, b1: Seq<CellV>, r: int, c: int) -> bool {
    match cell(b0, r, c) {
        CellV::Empty => {
            &&& cell(b1, r, c) matches CellV::Options(s)
            &&& sorted_digits(s)
            &&& (forall|x: u8| s.contains(x) <==> is_digit(x) && !row_has(b0, r, x))
        },
        _ => cell(b1, r, c) == cell(b0, r, c),
    }
}

/// First narrowing pass: every unexamined cell adopts the candidates its
/// row still allows.
#[verifier::loop_isolation(false)]
fn narrow_rows(sudoku: &mut Sudoku)
    requires
        old(sudoku).wf(),
        no_options_board(old(sudoku)@),
    ensures
        final(sudoku).wf(),
        forall|r: int, c: int|
            in_range(r, c) ==> #[trigger] row_narrowed_cell(old(sudoku)@, final(sudoku)@, r, c),
{
    let ghost b0 = sudoku@;
    let mut i: usize = 0;
    while i < 9
        invariant
            i <= 9,
            sudoku.wf(),
            forall|r: int, c: int| in_range(r, c) && r >= i ==> #[trigger] cell(sudoku@, r, c) == cell(b0, r, c),
            forall|r: int, c: int| in_range(r, c) && r < i ==> #[trigger] row_narrowed_cell(b0, sudoku@, r, c),
        decreases 9 - i,
    {
        let mut row_options = all_digits();
        let mut j: usize = 0;
        while j < 9
            invariant
                i < 9,
                j <= 9,
                sorted_digits(row_options@),
                forall|x: u8|
                    row_options@.contains(x) <==> is_digit(x) && !row_has_to(b0, i as int, j as int, x),
            decreases 9 - j,
        {
            sudoku.gen_options_from_field(i, j, &mut row_options);
            proof {
                assert forall|x: u8|
                    row_options@.contains(x) <==> is_digit(x) && !row_has_to(b0, i as int, j + 1, x) by {
                    lemma_row_has_to_step(b0, i as int, j as int, x);
                    assert(cell(sudoku@, i as int, j as int) == cell(b0, i as int, j as int));
                }
            }
            j += 1;
        }
        proof {
            assert forall|x: u8| row_options@.contains(x) <==> is_digit(x) && !row_has(b0, i as int, x) by {
                lemma_row_has_to_full(b0, i as int, x);
            }
        }
        let mut j: usize = 0;
        while j < 9
            invariant
                i < 9,
                j <= 9,
                sudoku.wf(),
                sorted_digits(row_options@),
                forall|x: u8| row_options@.contains(x) <==> is_digit(x) && !row_has(b0, i as int, x),
                forall|r: int, c: int| in_range(r, c) && r > i ==> #[trigger] cell(sudoku@, r, c) == cell(b0, r, c),
                forall|c: int| j <= c < 9 ==> #[trigger] cell(sudoku@, i as int, c) == cell(b0, i as int, c),
                forall|r: int, c: int| in_range(r, c) && r < i ==> #[trigger] row_narrowed_cell(b0, sudoku@, r, c),
                forall|c: int| 0 <= c < j ==> #[trigger] row_narrowed_cell(b0, sudoku@, i as int, c),
            decreases 9 - j,
        {
            let ghost before = sudoku@;
            sudoku.update_options(i, j, &row_options);
            proof {
                assert forall|r: int, c: int| in_range(r, c) && !(r == i && c == j)
                    implies cell(sudoku@, r, c) == cell(before, r, c) by {
                    assert(r * 9 + c != idx(i as int, j as int));
                }
                assert(row_narrowed_cell(b0, sudoku@, i as int, j as int)) by {
                    assert(cell_after_narrow(
                        cell(before, i as int, j as int),
                        cell(sudoku@, i as int, j as int),
                        row_options@,
                    ));
                    assert(cell(before, i as int, j as int) == cell(b0, i as int, j as int));
                    assert(!(b0[idx(i as int, j as int)] matches CellV::Options(_)));
                }
                assert forall|c: int| j + 1 <= c < 9
                    implies #[trigger] cell(sudoku@, i as int, c) == cell(b0, i as int, c) by {
                    assert(cell(sudoku@, i as int, c) == cell(before, i as int, c));
                    assert(cell(before, i as int, c) == cell(b0, i as int, c));
                }
                assert forall|r: int, c: int| in_range(r, c) && r < i
                    implies #[trigger] row_narrowed_cell(b0, sudoku@, r, c) by {
                    assert(row_narrowed_cell(b0, before, r, c));
                    assert(cell(sudoku@, r, c) == cell(before, r, c));
                }
                assert forall|c: int| 0 <= c < j + 1
                    implies #[trigger] row_narrowed_cell(b0, sudoku@, i as int, c) by {
                    if c < j {
                        assert(row_narrowed_cell(b0, before, i as int, c));
                        assert(cell(sudoku@, i as int, c) == cell(before, i as int, c));
                    }
                }
            }
            j += 1;
        }
        i += 1;
    }
}

/// Some cell of column `c` among the first `n` rows is filled with `x`.
pub open spec fn col_has_to(b: Seq<CellV>, c: int, n: int, x: u8) -> bool {
    exists|r: int| 0 <= r < n && filled_with(#[trigger] cell(b, r, c), x)
}

proof fn lemma_col_has_to_step(b: Seq<CellV>, c: int, n: int, x: u8)
    requires
        0 <= n,
    ensures
        col_has_to(b, c, n + 1, x) <==> (col_has_to(b, c, n, x) || filled_with(cell(b, n, c), x)),
{
    if col_has_to(b, c, n + 1, x) {
        let r = choose|r: int| 0 <= r < n + 1 && filled_with(cell(b, r, c), x);
        if r < n {
            assert(col_has_to(b, c, n, x)) by { assert(filled_with(cell(b, r, c), x)); }
        }
    }
    if col_has_to(b, c, n, x) {
        let r = choose|r: int| 0 <= r < n && filled_with(cell(b, r, c), x);
        assert(col_has_to(b, c, n + 1, x)) by { assert(filled_with(cell(b, r, c), x)); }
    }
    if filled_with(cell(b, n, c), x) {
        assert(col_has_to(b, c, n + 1, x));
    }
}

proof fn lemma_col_has_to_full(b: Seq<CellV>, c: int, x: u8)
    ensures
        col_has_to(b, c, 9, x) <==> col_has(b, c, x),
{
    if col_has_to(b, c, 9, x) {
        let r = choose|r: int| 0 <= r < 9 && filled_with(cell(b, r, c), x);
        assert(col_has(b, c, x)) by { assert(filled_with(cell(b, r, c), x)); }
    }
    if col_has(b, c, x) {
        let r = choose|r: int| 0 <= r < 9 && filled_with(cell(b, r, c), x);
        assert(col_has_to(b, c, 9, x)) by { assert(filled_with(cell(b, r, c), x)); }
    }
}

/// How one cell looks after its column pass: a candidate cell keeps
/// exactly the digits no filled cell of its column uses, any other cell
/// is untouched.
pub open spec fn col_narrowed_cell(b0: Seq<CellV>, b1: Seq<CellV>, r: int, c: int) -> bool {
    match cell(b0, r, c) {
        CellV::Options(s) => {
            &&& cell(b1, r, c) matches CellV::Options(s2)
            &&& sorted_digits(s2)
            &&& (forall|x: u8| s2.contains(x) <==> s.contains(x) && is_digit(x) && !col_has(b0, c, x))
        },
        _ => cell(b1, r, c) == cell(b0, r, c),
    }
}

/// Second narrowing pass: every candidate cell is intersected with what
/// its column still allows.
#[verifier::loop_isolation(false)]
fn narrow_cols(sudoku: &mut Sudoku)
    requires
        old(sudoku).wf(),
        no_empty_board(old(sudoku)@),
    ensures
        final(sudoku).wf(),
        forall|r: int, c: int|
            in_range(r, c) ==> #[trigger] col_narrowed_cell(old(sudoku)@, final(sudoku)@, r, c),
{
    let ghost b0 = sudoku@;
    let mut i: usize = 0;
    while i < 9
        invariant
            i <= 9,
            sudoku.wf(),
            forall|r: int, c: int| in_range(r, c) && c >= i ==> #[trigger] cell(sudoku@, r, c) == cell(b0, r, c),
            forall|r: int, c: int| in_range(r, c) && c < i ==> #[trigger] col_narrowed_cell(b0, sudoku@, r, c),
        decreases 9 - i,
    {
        let mut col_options = all_digits();
        let mut j: usize = 0;
        while j < 9
            invariant
                i < 9,
                j <= 9,
                sorted_digits(col_options@),
                forall|x: u8|
                    col_options@.contains(x) <==> is_digit(x) && !col_has_to(b0, i as int, j as int, x),
            decreases 9 - j,
        {
            sudoku.gen_options_from_field(j, i, &mut col_options);
            proof {
                assert forall|x: u8|
                    col_options@.contains(x) <==> is_digit(x) && !col_has_to(b0, i as int, j + 1, x) by {
                    lemma_col_has_to_step(b0, i as int, j as int, x);
                    assert(cell(sudoku@, j as int, i as int) == cell(b0, j as int, i as int));
                }
            }
            j += 1;
        }
        proof {
            assert forall|x: u8| col_options@.contains(x) <==> is_digit(x) && !col_has(b0, i as int, x) by {
                lemma_col_has_to_full(b0, i as int, x);
            }
        }
        let mut j: usize = 0;
        while j < 9
            invariant
                i < 9,
                j <= 9,
                sudoku.wf(),
                sorted_digits(col_options@),
                forall|x: u8| col_options@.contains(x) <==> is_digit(x) && !col_has(b0, i as int, x),
                forall|r: int, c: int| in_range(r, c) && c > i ==> #[trigger] cell(sudoku@, r, c) == cell(b0, r, c),
                forall|r: int| j <= r < 9 ==> #[trigger] cell(sudoku@, r, i as int) == cell(b0, r, i as int),
                forall|r: int, c: int| in_range(r, c) && c < i ==> #[trigger] col_narrowed_cell(b0, sudoku@, r, c),
                forall|r: int| 0 <= r < j ==> #[trigger] col_narrowed_cell(b0, sudoku@, r, i as int),
            decreases 9 - j,
        {
            let ghost before = sudoku@;
            sudoku.update_options(j, i, &col_options);
            proof {
                assert forall|r: int, c: int| in_range(r, c) && !(r == j && c == i)
                    implies cell(sudoku@, r, c) == cell(before, r, c) by {
                    assert(r * 9 + c != idx(j as int, i as int));
                }
                assert(col_narrowed_cell(b0, sudoku@, j as int, i as int)) by {
                    assert(cell_after_narrow(
                        cell(before, j as int, i as int),
                        cell(sudoku@, j as int, i as int),
                        col_options@,
                    ));
                    assert(cell(before, j as int, i as int) == cell(b0, j as int, i as int));
                    assert(!(b0[idx(j as int, i as int)] matches CellV::Empty));
                    match cell(b0, j as int, i as int) {
                        CellV::Options(s) => {
                            assert forall|x: u8| s.contains(x) implies is_digit(x) by {
                                assert(cell_wf(b0[idx(j as int, i as int)]));
                                let a = choose|a: int| 0 <= a < s.len() && s[a] == x;
                                assert(is_digit(s[a]));
                            }
                        }
                        _ => {}
                    }
                }
                assert forall|r: int, c: int| in_range(r, c) && c < i
                    implies #[trigger] col_narrowed_cell(b0, sudoku@, r, c) by {
                    assert(col_narrowed_cell(b0, before, r, c));
                    assert(cell(sudoku@, r, c) == cell(before, r, c));
                }
                assert forall|r: int| 0 <= r < j + 1
                    implies #[trigger] col_narrowed_cell(b0, sudoku@, r, i as int) by {
                    if r < j {
                        assert(col_narrowed_cell(b0, before, r, i as int));
                        assert(cell(sudoku@, r, i as int) == cell(before, r, i as int));
                    }
                }
                assert forall|r: int| j + 1 <= r < 9
                    implies #[trigger] cell(sudoku@, r, i as int) == cell(b0, r, i as int) by {
                    assert(cell(sudoku@, r, i as int) == cell(before, r, i as int));
                    assert(cell(before, r, i as int) == cell(b0, r, i as int));
                }
            }
            j += 1;
        }
        i += 1;
    }
}

/// The box (0..9) that the cell at (r, c) belongs to.
pub open spec fn box_of(r: int, c: int) -> int {
    (r / 3) * 3 + c / 3
}

/// Some cell among the first `n` positions of the box with corner
/// (rs, cs) is filled with `x`; positions run row-major inside the box.
pub open spec fn box_has_to(b: Seq<CellV>, rs: int, cs: int, n: int, x: u8) -> bool {
    exists|k: int| 0 <= k < n && filled_with(#[trigger] cell(b, rs + k / 3, cs + k % 3), x)
}

proof fn lemma_box_has_to_step(b: Seq<CellV>, rs: int, cs: int, n: int, x: u8)
    requires
        0 <= n,
    ensures
        box_has_to(b, rs, cs, n + 1, x)
            <==> (box_has_to(b, rs, cs, n, x) || filled_with(cell(b, rs + n / 3, cs + n % 3), x)),
{
    if box_has_to(b, rs, cs, n + 1, x) {
        let k = choose|k: int| 0 <= k < n + 1 && filled_with(#[trigger] cell(b, rs + k / 3, cs + k % 3), x);
        if k < n {
            assert(box_has_to(b, rs, cs, n, x)) by {
                assert(filled_with(cell(b, rs + k / 3, cs + k % 3), x));
            }
        }
    }
    if box_has_to(b, rs, cs, n, x) {
        let k = choose|k: int| 0 <= k < n && filled_with(#[trigger] cell(b, rs + k / 3, cs + k % 3), x);
        assert(box_has_to(b, rs, cs, n + 1, x)) by {
            assert(filled_with(cell(b, rs + k / 3, cs + k % 3), x));
        }
    }
    if filled_with(cell(b, rs + n / 3, cs + n % 3), x) {
        assert(box_has_to(b, rs, cs, n + 1, x));
    }
}

/// Scanning all nine positions of a box sees exactly the digits that
/// `box_has` reports for any cell of that box.
proof fn lemma_box_has_to_full(b: Seq<CellV>, r: int, c: int, x: u8)
    requires
        in_range(r, c),
    ensures
        box_has_to(b, (r / 3) * 3, (c / 3) * 3, 9, x) <==> box_has(b, r, c, x),
{
    let rs = (r / 3) * 3;
    let cs = (c / 3) * 3;
    if box_has_to(b, rs, cs, 9, x) {
        let k = choose|k: int| 0 <= k < 9 && filled_with(#[trigger] cell(b, rs + k / 3, cs + k % 3), x);
        let r2 = rs + k / 3;
        let c2 = cs + k % 3;
        assert(in_range(r2, c2));
        assert(same_box(r, c, r2, c2));
        assert(box_has(b, r, c, x)) by { assert(filled_with(cell(b, r2, c2), x)); }
    }
    if box_has(b, r, c, x) {
        let (r2, c2) = choose|r2: int, c2: int|
            in_range(r2, c2) && same_box(r, c, r2, c2) && filled_with(cell(b, r2, c2), x);
        let k = (r2 - rs) * 3 + (c2 - cs);
        assert(rs <= r2 < rs + 3 && cs <= c2 < cs + 3);
        assert(0 <= k < 9);
        assert(rs + k / 3 == r2 && cs + k % 3 == c2);
        assert(box_has_to(b, rs, cs, 9, x)) by {
            assert(filled_with(cell(b, rs + k / 3, cs + k % 3), x));
        }
    }
}

/// How one cell looks after its box pass: a candidate cell keeps exactly
/// the digits no filled cell of its box uses, any other cell is
/// untouched.
pub open spec fn box_narrowed_cell(b0: Seq<CellV>, b1: Seq<CellV>, r: int, c: int) -> bool {
    match cell(b0, r, c) {
        CellV::Options(s) => {
            &&& cell(b1, r, c) matches CellV::Options(s2)
            &&& sorted_digits(s2)
            &&& (forall|x: u8| s2.contains(x) <==> s.contains(x) && is_digit(x) && !box_has(b0, r, c, x))
        },
        _ => cell(b1, r, c) == cell(b0, r, c),
    }
}

/// Narrow every candidate cell of box `i` to the digits that box still
/// allows; every cell outside the box is untouched.
#[verifier::loop_isolation(false)]
#[verifier::rlimit(100)]
fn narrow_one_box(sudoku: &mut Sudoku, i: usize)
    requires
        old(sudoku).wf(),
        i < 9,
        no_empty_board(old(sudoku)@),
    ensures
        final(sudoku).wf(),
        forall|r: int, c: int|
            in_range(r, c) && box_of(r, c) == i
                ==> #[trigger] box_narrowed_cell(old(sudoku)@, final(sudoku)@, r, c),
        forall|r: int, c: int|
            in_range(r, c) && box_of(r, c) != i
                ==> #[trigger] cell(final(sudoku)@, r, c) == cell(old(sudoku)@, r, c),
{
    let ghost b0 = sudoku@;
    let row_start = (i / 3) * 3;
    let col_start = (i % 3) * 3;
    let mut k: usize = 0;
    let mut square_options = all_digits();
    while k < 9
        invariant
            i < 9,
            k <= 9,
            row_start == (i / 3) * 3,
            col_start == (i % 3) * 3,
            sorted_digits(square_options@),
            forall|x: u8|
                square_options@.contains(x)
                    <==> is_digit(x) && !box_has_to(b0, row_start as int, col_start as int, k as int, x),
        decreases 9 - k,
    {
        let r2 = row_start + k / 3;
        let c2 = col_start + k % 3;
        sudoku.gen_options_from_field(r2, c2, &mut square_options);
        proof {
            assert forall|x: u8|
                square_options@.contains(x)
                    <==> is_digit(x) && !box_has_to(b0, row_start as int, col_start as int, k + 1, x) by {
                lemma_box_has_to_step(b0, row_start as int, col_start as int, k as int, x);
            }
        }
        k += 1;
    }
    let mut k: usize = 0;
    while k < 9
        invariant
            i < 9,
            k <= 9,
            row_start == (i / 3) * 3,
            col_start == (i % 3) * 3,
            sudoku.wf(),
            sorted_digits(square_options@),
            forall|x: u8|
                square_options@.contains(x)
                    <==> is_digit(x) && !box_has_to(b0, row_start as int, col_start as int, 9, x),
            forall|r: int, c: int| in_range(r, c) && box_of(r, c) != i ==> #[trigger] cell(sudoku@, r, c) == cell(b0, r, c),
            forall|k2: int| k <= k2 < 9
                ==> #[trigger] cell(sudoku@, row_start + k2 / 3, col_start + k2 % 3)
                    == cell(b0, row_start + k2 / 3, col_start + k2 % 3),
            forall|k2: int| 0 <= k2 < k
                ==> #[trigger] box_narrowed_cell(b0, sudoku@, row_start + k2 / 3, col_start + k2 % 3),
        decreases 9 - k,
    {
        let r2 = row_start + k / 3;
        let c2 = col_start + k % 3;
        assert(cell(sudoku@, r2 as int, c2 as int) == cell(b0, r2 as int, c2 as int)) by {
            assert(0 <= k < 9);
        }
        let ghost before = sudoku@;
        sudoku.update_options(r2, c2, &square_options);
        proof {
            assert forall|r: int, c: int| in_range(r, c) && !(r == r2 && c == c2)
                implies cell(sudoku@, r, c) == cell(before, r, c) by {
                assert(r * 9 + c != idx(r2 as int, c2 as int));
            }
            assert(box_narrowed_cell(b0, sudoku@, r2 as int, c2 as int)) by {
                assert(cell_after_narrow(
                    cell(before, r2 as int, c2 as int),
                    cell(sudoku@, r2 as int, c2 as int),
                    square_options@,
                ));
                assert(cell(before, r2 as int, c2 as int) == cell(b0, r2 as int, c2 as int));
                assert(!(b0[idx(r2 as int, c2 as int)] matches CellV::Empty));
                assert((r2 as int) / 3 * 3 == row_start as int && (c2 as int) / 3 * 3 == col_start as int);
                assert forall|x: u8|
                    box_has_to(b0, row_start as int, col_start as int, 9, x)
                        <==> box_has(b0, r2 as int, c2 as int, x) by {
                    lemma_box_has_to_full(b0, r2 as int, c2 as int, x);
                }
                match cell(b0, r2 as int, c2 as int) {
                    CellV::Options(s) => {
                        assert forall|x: u8| s.contains(x) implies is_digit(x) by {
                            assert(cell_wf(b0[idx(r2 as int, c2 as int)]));
                            let a = choose|a: int| 0 <= a < s.len() && s[a] == x;
                            assert(is_digit(s[a]));
                        }
                    }
                    _ => {}
                }
            }
            assert forall|k2: int| 0 <= k2 < k + 1
                implies #[trigger] box_narrowed_cell(b0, sudoku@, row_start + k2 / 3, col_start + k2 % 3) by {
                if k2 < k {
                    assert(box_narrowed_cell(b0, before, row_start + k2 / 3, col_start + k2 % 3));
                    assert(!(row_start + k2 / 3 == r2 as int && col_start + k2 % 3 == c2 as int));
                    assert(cell(sudoku@, row_start + k2 / 3, col_start + k2 % 3)
                        == cell(before, row_start + k2 / 3, col_start + k2 % 3));
                }
            }
            assert forall|k2: int| k + 1 <= k2 < 9
                implies #[trigger] cell(sudoku@, row_start + k2 / 3, col_start + k2 % 3)
                    == cell(b0, row_start + k2 / 3, col_start + k2 % 3) by {
                assert(!(row_start + k2 / 3 == r2 as int && col_start + k2 % 3 == c2 as int));
                assert(cell(sudoku@, row_start + k2 / 3, col_start + k2 % 3)
                    == cell(before, row_start + k2 / 3, col_start + k2 % 3));
            }
            assert forall|r: int, c: int| in_range(r, c) && box_of(r, c) != i
                implies #[trigger] cell(sudoku@, r, c) == cell(b0, r, c) by {
                assert(!(r == r2 as int && c == c2 as int));
                assert(cell(sudoku@, r, c) == cell(before, r, c));
            }
        }
        k += 1;
    }
    proof {
        assert forall|r: int, c: int| in_range(r, c) && box_of(r, c) == i
            implies #[trigger] box_narrowed_cell(b0, sudoku@, r, c) by {
            let k2 = (r - row_start) * 3 + (c - col_start);
            assert(row_start <= r < row_start + 3 && col_start <= c < col_start + 3);
            assert(0 <= k2 < 9);
            assert(row_start + k2 / 3 == r && col_start + k2 % 3 == c);
            assert(box_narrowed_cell(b0, sudoku@, row_start + k2 / 3, col_start + k2 % 3));
        }
    }
}

/// Third narrowing pass: every candidate cell is intersected with what
/// its box still allows.
#[verifier::loop_isolation(false)]
#[verifier::rlimit(100)]
fn narrow_boxes(sudoku: &mut Sudoku)
    requires
        old(sudoku).wf(),
        no_empty_board(old(sudoku)@),
    ensures
        final(sudoku).wf(),
        forall|r: int, c: int|
            in_range(r, c) ==> #[trigger] box_narrowed_cell(old(sudoku)@, final(sudoku)@, r, c),
{
    let ghost b0 = sudoku@;
    let mut i: usize = 0;
    while i < 9
        invariant
            i <= 9,
            sudoku.wf(),
            no_empty_board(sudoku@),
            same_filled(b0, sudoku@),
            forall|r: int, c: int| in_range(r, c) && box_of(r, c) >= i ==> #[trigger] cell(sudoku@, r, c) == cell(b0, r, c),
            forall|r: int, c: int| in_range(r, c) && box_of(r, c) < i ==> #[trigger] box_narrowed_cell(b0, sudoku@, r, c),
        decreases 9 - i,
    {
        let ghost bi = sudoku@;
        narrow_one_box(sudoku, i);
        proof {
            let bi1 = sudoku@;
            assert forall|j: int| 0 <= j < 81
                implies !(#[trigger] bi1[j] matches CellV::Empty)
                    && filled_of(bi1[j]) == filled_of(bi[j]) by {
                let r = j / 9;
                let c = j % 9;
                assert(j == r * 9 + c && in_range(r, c));
                if box_of(r, c) == i {
                    assert(box_narrowed_cell(bi, bi1, r, c));
                } else {
                    assert(cell(bi1, r, c) == cell(bi, r, c));
                }
                assert(!(bi[j] matches CellV::Empty));
            }
            assert(same_filled(b0, bi1)) by {
                assert forall|j: int| 0 <= j < 81
                    implies filled_of(#[trigger] b0[j]) == filled_of(#[trigger] bi1[j]) by {
                    assert(filled_of(b0[j]) == filled_of(bi[j]));
                    assert(filled_of(bi[j]) == filled_of(bi1[j]));
                }
            }
            lemma_same_filled_has(b0, bi);
            assert forall|r: int, c: int| in_range(r, c) && box_of(r, c) < i + 1
                implies #[trigger] box_narrowed_cell(b0, bi1, r, c) by {
                if box_of(r, c) == i {
                    assert(box_narrowed_cell(bi, bi1, r, c));
                    assert(cell(bi, r, c) == cell(b0, r, c));
                    match cell(b0, r, c) {
                        CellV::Options(s) => {
                            assert forall|x: u8| box_has(bi, r, c, x) == box_has(b0, r, c, x) by {
                            }
                        }
                        _ => {}
                    }
                } else {
                    assert(box_narrowed_cell(b0, bi, r, c));
                    assert(cell(bi1, r, c) == cell(bi, r, c));
                }
            }
            assert forall|r: int, c: int| in_range(r, c) && box_of(r, c) >= i + 1
                implies #[trigger] cell(sudoku@, r, c) == cell(b0, r, c) by {
                assert(cell(bi1, r, c) == cell(bi, r, c));
            }
        }
        i += 1;
    }
}

/// How one cell looks after initialization: an unexamined cell now holds
/// exactly the digits 1..=9 no filled cell of its row, column, or box
/// uses; a filled cell is untouched.
pub open spec fn initialized_cell(b0: Seq<CellV>, b1: Seq<CellV>, r: int, c: int) -> bool {
    match cell(b0, r, c) {
        CellV::Empty => {
            &&& cell(b1, r, c) matches CellV::Options(s)
            &&& sorted_digits(s)
            &&& (forall|x: u8| s.contains(x) <==> candidate_ok(b0, r, c, x))
        },
        _ => cell(b1, r, c) == cell(b0, r, c),
    }
}

/// Populate candidates for every unexamined cell of a board whose cells
/// are all unexamined or filled: one narrowing pass per grouping kind
/// (rows, then columns, then boxes), each completed across all nine
/// groups before the next starts.  Afterwards every candidate set holds
/// exactly the digits consistent with the filled cells of its row,
/// column, and box; filled cells, and hence validity, are untouched.
pub fn build_initial_options(sudoku: &mut Sudoku)
    requires
        old(sudoku).wf(),
        no_options_board(old(sudoku)@),
    ensures
        final(sudoku).wf(),
        forall|r: int, c: int|
            in_range(r, c) ==> #[trigger] initialized_cell(old(sudoku)@, final(sudoku)@, r, c),
        no_empty_board(final(sudoku)@),
        same_filled(old(sudoku)@, final(sudoku)@),
        options_consistent(final(sudoku)@),
        propagated(final(sudoku)@),
        valid_board(final(sudoku)@) == valid_board(old(sudoku)@),
{
    let ghost b0 = sudoku@;
    narrow_rows(sudoku);
    let ghost b1 = sudoku@;
    proof {
        assert forall|i: int| 0 <= i < 81 implies !(#[trigger] b1[i] matches CellV::Empty) by {
            let r = i / 9;
            let c = i % 9;
            assert(i == r * 9 + c && in_range(r, c));
            assert(row_narrowed_cell(b0, b1, r, c));
            assert(!(b0[i] matches CellV::Options(_)));
        }
        assert(same_filled(b0, b1)) by {
            assert forall|i: int| 0 <= i < 81
                implies filled_of(#[trigger] b0[i]) == filled_of(#[trigger] b1[i]) by {
                let r = i / 9;
                let c = i % 9;
                assert(i == r * 9 + c && in_range(r, c));
                assert(row_narrowed_cell(b0, b1, r, c));
            }
        }
    }
    narrow_cols(sudoku);
    let ghost b2 = sudoku@;
    proof {
        assert forall|i: int| 0 <= i < 81 implies !(#[trigger] b2[i] matches CellV::Empty) by {
            let r = i / 9;
            let c = i % 9;
            assert(i == r * 9 + c && in_range(r, c));
            assert(col_narrowed_cell(b1, b2, r, c));
            assert(!(b1[i] matches CellV::Empty));
        }
        assert(same_filled(b1, b2)) by {
            assert forall|i: int| 0 <= i < 81
                implies filled_of(#[trigger] b1[i]) == filled_of(#[trigger] b2[i]) by {
                let r = i / 9;
                let c = i % 9;
                assert(i == r * 9 + c && in_range(r, c));
                assert(col_narrowed_cell(b1, b2, r, c));
            }
        }
        assert(same_filled(b0, b2)) by {
            assert forall|i: int| 0 <= i < 81
                implies filled_of(#[trigger] b0[i]) == filled_of(#[trigger] b2[i]) by {
                assert(filled_of(b0[i]) == filled_of(b1[i]));
                assert(filled_of(b1[i]) == filled_of(b2[i]));
            }
        }
    }
    narrow_boxes(sudoku);
    let ghost b3 = sudoku@;
    proof {
        assert(same_filled(b2, b3)) by {
            assert forall|i: int| 0 <= i < 81
                implies filled_of(#[trigger] b2[i]) == filled_of(#[trigger] b3[i]) by {
                let r = i / 9;
                let c = i % 9;
                assert(i == r * 9 + c && in_range(r, c));
                assert(box_narrowed_cell(b2, b3, r, c));
            }
        }
        assert(same_filled(b0, b3)) by {
            assert forall|i: int| 0 <= i < 81
                implies filled_of(#[trigger] b0[i]) == filled_of(#[trigger] b3[i]) by {
                assert(filled_of(b0[i]) == filled_of(b2[i]));
                assert(filled_of(b2[i]) == filled_of(b3[i]));
            }
        }
        lemma_same_filled_has(b0, b1);
        lemma_same_filled_has(b0, b2);
        lemma_same_filled_has(b0, b3);
        assert forall|r: int, c: int| in_range(r, c)
            implies #[trigger] initialized_cell(b0, b3, r, c) by {
            assert(row_narrowed_cell(b0, b1, r, c));
            assert(col_narrowed_cell(b1, b2, r, c));
            assert(box_narrowed_cell(b2, b3, r, c));
            match cell(b0, r, c) {
                CellV::Empty => {
                    assert(cell(b1, r, c) matches CellV::Options(_));
                    assert(cell(b2, r, c) matches CellV::Options(_));
                }
                _ => {}
            }
        }
        assert forall|i: int| 0 <= i < 81 implies !(#[trigger] b3[i] matches CellV::Empty) by {
            let r = i / 9;
            let c = i % 9;
            assert(i == r * 9 + c && in_range(r, c));
            assert(box_narrowed_cell(b2, b3, r, c));
            assert(!(b2[i] matches CellV::Empty));
        }
        assert forall|r: int, c: int, x: u8|
            in_range(r, c) && #[trigger] opts_contain(cell(b3, r, c), x)
            implies !peer_filled(b3, r, c, x) by {
            assert(initialized_cell(b0, b3, r, c));
            assert(cell(b0, r, c) matches CellV::Empty) by {
                assert(!(b0[idx(r, c)] matches CellV::Options(_)));
                match cell(b0, r, c) {
                    CellV::Filled(d) => {
                        assert(cell(b3, r, c) == cell(b0, r, c));
                        assert(!opts_contain(cell(b3, r, c), x));
                    }
                    _ => {}
                }
            }
            assert(candidate_ok(b0, r, c, x));
            if peer_filled(b3, r, c, x) {
                lemma_peer_filled_groups(b3, r, c, x);
                assert(!row_has(b3, r, x) && !col_has(b3, c, x) && !box_has(b3, r, c, x));
            }
        }
    }
}

/// How one peer cell looks after a newly fixed digit is propagated into
/// it: a candidate cell loses the digit yet stays non-empty, any other
/// cell is untouched.
pub open spec fn cell_removed(before: CellV, after: CellV, d: u8) -> bool {
    match before {
        CellV::Options(s) => {
            &&& after matches CellV::Options(s2)
            &&& sorted_digits(s2)
            &&& s2.len() > 0
            &&& (forall|x: u8| s2.contains(x) <==> s.contains(x) && x != d)
        },
        _ => after == before,
    }
}

/// What a successful trial assignment did to the board: the chosen cell,
/// previously unfilled and (if a candidate cell) allowing `d`, is now
/// fixed to `d`; every candidate peer lost `d` and kept at least one
/// digit; every other cell is untouched.
pub open spec fn fill_result(b0: Seq<CellV>, b1: Seq<CellV>, row: int, col: int, d: u8) -> bool {
    &&& !(cell(b0, row, col) matches CellV::Filled(_))
    &&& (cell(b0, row, col) matches CellV::Options(s) ==> s.contains(d))
    &&& cell(b1, row, col) == CellV::Filled(d)
    &&& forall|r2: int, c2: int|
            #![trigger cell(b1, r2, c2)]
            in_range(r2, c2) && !(r2 == row && c2 == col) ==> {
                if is_peer(row, col, r2, c2) {
                    cell_removed(cell(b0, r2, c2), cell(b1, r2, c2), d)
                } else {
                    cell(b1, r2, c2) == cell(b0, r2, c2)
                }
            }
}

/// A candidate cell whose set would be emptied by striking `d`.
pub open spec fn dead_after_remove(cv: CellV, d: u8) -> bool {
    &&& cv matches CellV::Options(s)
    &&& (forall|x: u8| #[trigger] s.contains(x) ==> x == d)
}

/// Why a trial assignment reports failure: the chosen cell is already
/// fixed, does not allow the digit, or some peer's candidates would be
/// emptied by the propagation.
pub open spec fn fill_failure(b0: Seq<CellV>, row: int, col: int, d: u8) -> bool {
    ||| cell(b0, row, col) matches CellV::Filled(_)
    ||| (cell(b0, row, col) matches CellV::Options(s) && !s.contains(d))
    ||| exists|r2: int, c2: int|
            in_range(r2, c2) && is_peer(row, col, r2, c2)
                && dead_after_remove(#[trigger] cell(b0, r2, c2), d)
}

/// When pruning `d` from the cell at (tr, tc) reports an emptied set, on
/// a board where that cell either still holds its pre-assignment state
/// or has been pruned once already, the pre-assignment board had a peer
/// whose candidates `d` exhausts.
proof fn lemma_failed_removal(
    b0: Seq<CellV>,
    bmid: Seq<CellV>,
    bafter: Seq<CellV>,
    row: int,
    col: int,
    tr: int,
    tc: int,
    d: u8,
)
    requires
        in_range(row, col),
        in_range(tr, tc),
        cell_after_remove(cell(bmid, tr, tc), cell(bafter, tr, tc), d, false),
        (tr == row && tc == col) ==> cell(bmid, tr, tc) == CellV::Filled(d),
        !(tr == row && tc == col) ==> is_peer(row, col, tr, tc)
            && (cell(bmid, tr, tc) == cell(b0, tr, tc)
                || cell_removed(cell(b0, tr, tc), cell(bmid, tr, tc), d)),
    ensures
        fill_failure(b0, row, col, d),
{
    if tr == row && tc == col {
        // a fixed cell is never pruned, so the call cannot have failed
        assert(false);
    } else {
        match cell(bmid, tr, tc) {
            CellV::Options(s2) => {
                assert forall|x: u8| #[trigger] s2.contains(x) implies x == d by {
                    if x != d {
                        let s3 = match cell(bafter, tr, tc) {
                            CellV::Options(s3) => s3,
                            _ => Seq::empty(),
                        };
                        assert(cell(bafter, tr, tc) == CellV::Options(s3));
                        assert(s3.len() == 0);
                        assert(s3.contains(x));
                    }
                }
                if cell(bmid, tr, tc) == cell(b0, tr, tc) {
                    assert(fill_failure(b0, row, col, d)) by {
                        assert(dead_after_remove(cell(b0, tr, tc), d));
                    }
                } else {
                    // a set pruned once is non-empty and free of `d`,
                    // so pruning it again cannot fail
                    assert(s2.len() > 0);
                    assert(s2.contains(s2[0]));
                    assert(false);
                }
            }
            _ => {
                assert(false);
            }
        }
    }
}

/// Fix `new_value` at (row, col) and remove it from the candidates of
/// every peer.  Reports `false`, leaving the board in a state the caller
/// must discard, when the cell is already fixed, does not allow the
/// digit, or when some peer's candidate set would be emptied.
#[verifier::loop_isolation(false)]
#[verifier::rlimit(100)]
fn fill_field(sudoku: &mut Sudoku, row: usize, col: usize, new_value: u8) -> (r: bool)
    requires
        old(sudoku).wf(),
        row < 9,
        col < 9,
        is_digit(new_value),
    ensures
        final(sudoku).wf(),
        r ==> fill_result(old(sudoku)@, final(sudoku)@, row as int, col as int, new_value),
        !r ==> fill_failure(old(sudoku)@, row as int, col as int, new_value),
{
    let ghost b0 = sudoku@;
    let i = row * 9 + col;
    let proceed: bool = match &sudoku.0[i] {
        Field::Empty => true,
        Field::Filled(_) => false,
        Field::Options(options) => contains_digit(options, new_value),
    };
    if !proceed {
        proof {
            match cell(b0, row as int, col as int) {
                CellV::Empty => {
                    assert(false);
                }
                CellV::Options(s) => {
                    assert(!s.contains(new_value));
                }
                CellV::Filled(_) => {}
            }
        }
        return false;
    }
    sudoku.0.set(i, Field::Filled(new_value));
    proof {
        assert forall|j: int| 0 <= j < 81 implies cell_wf(#[trigger] sudoku@[j]) by {
            if j != i {
                assert(sudoku@[j] == b0[j]);
            }
        }
    }
    // propagate along the row and the column
    let mut index: usize = 0;
    while index < 9
        invariant
            index <= 9,
            sudoku.wf(),
            cell(sudoku@, row as int, col as int) == CellV::Filled(new_value),
            forall|r2: int, c2: int|
                #![trigger cell(sudoku@, r2, c2)]
                in_range(r2, c2) && !(r2 == row && c2 == col) ==> {
                    if (r2 == row && c2 < index) || (c2 == col && r2 < index) {
                        cell_removed(cell(b0, r2, c2), cell(sudoku@, r2, c2), new_value)
                    } else {
                        cell(sudoku@, r2, c2) == cell(b0, r2, c2)
                    }
                },
        decreases 9 - index,
    {
        let ghost before = sudoku@;
        let ok1 = sudoku.update_existing_options(row, index, new_value);
        proof {
            assert forall|r2: int, c2: int| in_range(r2, c2) && !(r2 == row && c2 == index)
                implies cell(sudoku@, r2, c2) == cell(before, r2, c2) by {
                assert(r2 * 9 + c2 != idx(row as int, index as int));
            }
        }
        if !ok1 {
            proof {
                lemma_failed_removal(b0, before, sudoku@, row as int, col as int,
                    row as int, index as int, new_value);
            }
            return false;
        }
        let ghost mid = sudoku@;
        let ok2 = sudoku.update_existing_options(index, col, new_value);
        proof {
            assert forall|r2: int, c2: int| in_range(r2, c2) && !(r2 == index && c2 == col)
                implies cell(sudoku@, r2, c2) == cell(mid, r2, c2) by {
                assert(r2 * 9 + c2 != idx(index as int, col as int));
            }
        }
        if !ok2 {
            proof {
                assert(cell(mid, index as int, col as int) == cell(before, index as int, col as int));
                lemma_failed_removal(b0, mid, sudoku@, row as int, col as int,
                    index as int, col as int, new_value);
            }
            return false;
        }
        proof {
            assert forall|r2: int, c2: int|
                in_range(r2, c2) && !(r2 == row && c2 == col) implies {
                    if (r2 == row && c2 < index + 1) || (c2 == col && r2 < index + 1) {
                        cell_removed(cell(b0, r2, c2), #[trigger] cell(sudoku@, r2, c2), new_value)
                    } else {
                        cell(sudoku@, r2, c2) == cell(b0, r2, c2)
                    }
                } by {
                if r2 == row && c2 == index {
                    assert(cell(before, r2, c2) == cell(b0, r2, c2));
                    assert(cell_after_remove(cell(before, r2, c2), cell(mid, r2, c2), new_value, ok1));
                    assert(cell(sudoku@, r2, c2) == cell(mid, r2, c2));
                } else if r2 == index && c2 == col {
                    assert(cell(mid, r2, c2) == cell(before, r2, c2));
                    assert(cell(before, r2, c2) == cell(b0, r2, c2));
                    assert(cell_after_remove(cell(mid, r2, c2), cell(sudoku@, r2, c2), new_value, ok2));
                } else {
                    assert(cell(sudoku@, r2, c2) == cell(mid, r2, c2));
                    assert(cell(mid, r2, c2) == cell(before, r2, c2));
                }
            }
        }
        index += 1;
    }
    // propagate inside the box
    let row_offset = (row / 3) * 3;
    let col_offset = (col / 3) * 3;
    let mut k: usize = 0;
    while k < 9
        invariant
            k <= 9,
            row_offset == (row / 3) * 3,
            col_offset == (col / 3) * 3,
            sudoku.wf(),
            cell(sudoku@, row as int, col as int) == CellV::Filled(new_value),
            forall|r2: int, c2: int|
                #![trigger cell(sudoku@, r2, c2)]
                in_range(r2, c2) && !(r2 == row && c2 == col) ==> {
                    if (r2 == row || c2 == col)
                        || (same_box(row as int, col as int, r2, c2)
                            && (r2 - row_offset) * 3 + (c2 - col_offset) < k) {
                        cell_removed(cell(b0, r2, c2), cell(sudoku@, r2, c2), new_value)
                    } else {
                        cell(sudoku@, r2, c2) == cell(b0, r2, c2)
                    }
                },
        decreases 9 - k,
    {
        let r2 = row_offset + k / 3;
        let c2 = col_offset + k % 3;
        let ghost before = sudoku@;
        let ok = sudoku.update_existing_options(r2, c2, new_value);
        proof {
            assert forall|rr: int, cc: int| in_range(rr, cc) && !(rr == r2 && cc == c2)
                implies cell(sudoku@, rr, cc) == cell(before, rr, cc) by {
                assert(rr * 9 + cc != idx(r2 as int, c2 as int));
            }
        }
        if !ok {
            proof {
                assert(same_box(row as int, col as int, r2 as int, c2 as int));
                lemma_failed_removal(b0, before, sudoku@, row as int, col as int,
                    r2 as int, c2 as int, new_value);
            }
            return false;
        }
        proof {
            assert(same_box(row as int, col as int, r2 as int, c2 as int));
            assert((r2 as int - row_offset) * 3 + (c2 as int - col_offset) == k);
            assert forall|rr: int, cc: int|
                in_range(rr, cc) && !(rr == row && cc == col) implies {
                    if (rr == row || cc == col)
                        || (same_box(row as int, col as int, rr, cc)
                            && (rr - row_offset) * 3 + (cc - col_offset) < k + 1) {
                        cell_removed(cell(b0, rr, cc), #[trigger] cell(sudoku@, rr, cc), new_value)
                    } else {
                        cell(sudoku@, rr, cc) == cell(b0, rr, cc)
                    }
                } by {
                if rr == r2 as int && cc == c2 as int {
                    assert(cell_after_remove(cell(before, rr, cc), cell(sudoku@, rr, cc), new_value, ok));
                    if rr == row || cc == col {
                        // already pruned by the row/column sweep; pruning again changes nothing
                        assert(cell_removed(cell(b0, rr, cc), cell(before, rr, cc), new_value));
                    } else {
                        assert(cell(before, rr, cc) == cell(b0, rr, cc));
                    }
                } else {
                    assert(cell(sudoku@, rr, cc) == cell(before, rr, cc));
                }
            }
        }
        k += 1;
    }
    proof {
        assert forall|r2: int, c2: int|
            in_range(r2, c2) && !(r2 == row && c2 == col) implies {
                if is_peer(row as int, col as int, r2, c2) {
                    cell_removed(cell(b0, r2, c2), #[trigger] cell(sudoku@, r2, c2), new_value)
                } else {
                    cell(sudoku@, r2, c2) == cell(b0, r2, c2)
                }
            } by {
            if is_peer(row as int, col as int, r2, c2) {
                if r2 == row || c2 == col {
                } else {
                    assert(same_box(row as int, col as int, r2, c2));
                    assert(row_offset <= r2 < row_offset + 3);
                    assert(col_offset <= c2 < col_offset + 3);
                    assert((r2 - row_offset) * 3 + (c2 - col_offset) < 9);
                }
            } else {
                assert(!(r2 == row || c2 == col));
                assert(!same_box(row as int, col as int, r2, c2));
            }
        }
        assert(cell(b0, row as int, col as int) matches CellV::Options(s) ==> s.contains(new_value));
    }
    true
}

/// Is the cell still a candidate cell?
pub open spec fn is_options(cv: CellV) -> bool {
    cv matches CellV::Options(_)
}

/// How many of the first `n` cells are candidate cells.
pub open spec fn count_options_to(b: Seq<CellV>, n: int) -> nat
    decreases n,
{
    if n <= 0 {
        0
    } else {
        count_options_to(b, n - 1) + if is_options(b[n - 1]) { 1nat } else { 0nat }
    }
}

/// How many cells of the board are candidate cells: the measure that
/// shrinks with every trial assignment.
pub open spec fn count_options(b: Seq<CellV>) -> nat {
    count_options_to(b, 81)
}

proof fn lemma_count_options_change(b1: Seq<CellV>, b2: Seq<CellV>, t: int, n: int)
    requires
        0 <= t < 81,
        is_options(b1[t]),
        !is_options(b2[t]),
        forall|i: int| 0 <= i < 81 && i != t ==> (#[trigger] is_options(b1[i])) == is_options(b2[i]),
        0 <= n <= 81,
    ensures
        count_options_to(b2, n) + (if t < n { 1nat } else { 0nat }) == count_options_to(b1, n),
    decreases n,
{
    if n > 0 {
        lemma_count_options_change(b1, b2, t, n - 1);
    }
}

/// One cell of the second board, compared with the first under a solved
/// search: fixed digits are kept, unexamined cells are kept, and every
/// candidate cell ended fixed to one of its own candidates.
pub open spec fn completed_cell(b0: Seq<CellV>, b1: Seq<CellV>, r: int, c: int) -> bool {
    match cell(b0, r, c) {
        CellV::Filled(d) => cell(b1, r, c) == CellV::Filled(d),
        CellV::Empty => cell(b1, r, c) == CellV::Empty,
        CellV::Options(s) => exists|d: u8| #[trigger] s.contains(d) && cell(b1, r, c) == CellV::Filled(d),
    }
}

/// The second board is an outcome of searching the first: cell by cell,
/// as `completed_cell` says.
pub open spec fn completes(b0: Seq<CellV>, b1: Seq<CellV>) -> bool {
    forall|r: int, c: int| in_range(r, c) ==> #[trigger] completed_cell(b0, b1, r, c)
}

/// A successful trial assignment keeps the board propagated, and keeps
/// it free of clashes if it was: the new digit conflicts with nothing,
/// and every surviving candidate is still consistent with the filled
/// cells.
proof fn lemma_fill_preserves_propagated(b0: Seq<CellV>, b1: Seq<CellV>, row: int, col: int, d: u8)
    requires
        propagated(b0),
        board_wf(b1),
        in_range(row, col),
        cell(b0, row, col) matches CellV::Options(_),
        fill_result(b0, b1, row, col, d),
    ensures
        propagated(b1),
        valid_board(b0) ==> valid_board(b1),
{
    let s = match cell(b0, row, col) {
        CellV::Options(s) => s,
        _ => Seq::empty(),
    };
    assert(cell(b0, row, col) == CellV::Options(s));
    assert(s.contains(d));
    assert(opts_contain(cell(b0, row, col), d));
    assert(!peer_filled(b0, row, col, d));
    assert forall|r2: int, c2: int| in_range(r2, c2) && !(r2 == row && c2 == col)
        implies filled_of(#[trigger] cell(b1, r2, c2)) == filled_of(cell(b0, r2, c2)) by {
        if is_peer(row, col, r2, c2) {
            assert(cell_removed(cell(b0, r2, c2), cell(b1, r2, c2), d));
        } else {
            assert(cell(b1, r2, c2) == cell(b0, r2, c2));
        }
    }
    assert forall|i: int| 0 <= i < 81 implies !(#[trigger] b1[i] matches CellV::Empty) by {
        let r2 = i / 9;
        let c2 = i % 9;
        assert(i == r2 * 9 + c2 && in_range(r2, c2));
        if r2 == row && c2 == col {
            assert(cell(b1, r2, c2) == CellV::Filled(d));
        } else {
            if is_peer(row, col, r2, c2) {
                assert(cell_removed(cell(b0, r2, c2), cell(b1, r2, c2), d));
            } else {
                assert(cell(b1, r2, c2) == cell(b0, r2, c2));
            }
            assert(!(b0[i] matches CellV::Empty));
        }
    }
    if valid_board(b0) {
        assert forall|r: int, c: int| in_range(r, c) implies #[trigger] field_ok(b1, r, c) by {
            match cell(b1, r, c) {
                CellV::Filled(e) => {
                    if peer_filled(b1, r, c, e) {
                        let (r2, c2) = choose|r2: int, c2: int|
                            in_range(r2, c2) && is_peer(r, c, r2, c2)
                                && filled_with(#[trigger] cell(b1, r2, c2), e);
                        if r == row && c == col {
                            assert(e == d);
                            assert(filled_of(cell(b0, r2, c2)) == Some(e));
                            assert(peer_filled(b0, row, col, d)) by {
                                assert(filled_with(cell(b0, r2, c2), d));
                            }
                            assert(false);
                        } else if r2 == row && c2 == col {
                            assert(e == d);
                            assert(filled_of(cell(b0, r, c)) == Some(e));
                            assert(is_peer(row, col, r, c));
                            assert(peer_filled(b0, row, col, d)) by {
                                assert(filled_with(cell(b0, r, c), d));
                            }
                            assert(false);
                        } else {
                            assert(filled_of(cell(b0, r, c)) == Some(e));
                            assert(filled_of(cell(b0, r2, c2)) == Some(e));
                            assert(field_ok(b0, r, c));
                            assert(peer_filled(b0, r, c, e)) by {
                                assert(filled_with(cell(b0, r2, c2), e));
                            }
                            assert(false);
                        }
                    }
                }
                _ => {}
            }
        }
    }
    assert forall|r: int, c: int, x: u8|
        in_range(r, c) && #[trigger] opts_contain(cell(b1, r, c), x)
        implies !peer_filled(b1, r, c, x) by {
        assert(!(r == row && c == col));
        if is_peer(row, col, r, c) {
            assert(cell_removed(cell(b0, r, c), cell(b1, r, c), d));
            assert(opts_contain(cell(b0, r, c), x) && x != d);
        } else {
            assert(cell(b1, r, c) == cell(b0, r, c));
            assert(opts_contain(cell(b0, r, c), x));
        }
        assert(!peer_filled(b0, r, c, x));
        if peer_filled(b1, r, c, x) {
            let (r2, c2) = choose|r2: int, c2: int|
                in_range(r2, c2) && is_peer(r, c, r2, c2)
                    && filled_with(#[trigger] cell(b1, r2, c2), x);
            if r2 == row && c2 == col {
                assert(x == d);
                assert(is_peer(row, col, r, c));
                assert(false);
            } else {
                assert(filled_of(cell(b0, r2, c2)) == Some(x));
                assert(peer_filled(b0, r, c, x)) by {
                    assert(filled_with(cell(b0, r2, c2), x));
                }
                assert(false);
            }
        }
    }
}

/// A board that completes the state after a trial assignment also
/// completes the state before it.
proof fn lemma_completes_after_fill(
    b0: Seq<CellV>,
    b1: Seq<CellV>,
    sol: Seq<CellV>,
    row: int,
    col: int,
    d: u8,
)
    requires
        in_range(row, col),
        cell(b0, row, col) matches CellV::Options(_),
        fill_result(b0, b1, row, col, d),
        completes(b1, sol),
    ensures
        completes(b0, sol),
{
    assert forall|r: int, c: int| in_range(r, c) implies #[trigger] completed_cell(b0, sol, r, c) by {
        assert(completed_cell(b1, sol, r, c));
        if r == row && c == col {
            let s = match cell(b0, r, c) {
                CellV::Options(s) => s,
                _ => Seq::empty(),
            };
            assert(cell(b0, r, c) == CellV::Options(s));
            assert(s.contains(d));
            assert(cell(b1, r, c) == CellV::Filled(d));
            assert(cell(sol, r, c) == CellV::Filled(d));
        } else {
            match cell(b0, r, c) {
                CellV::Filled(_) | CellV::Empty => {
                    if is_peer(row, col, r, c) {
                        assert(cell_removed(cell(b0, r, c), cell(b1, r, c), d));
                        assert(cell(b1, r, c) == cell(b0, r, c));
                    } else {
                        assert(cell(b1, r, c) == cell(b0, r, c));
                    }
                }
                CellV::Options(s) => {
                    if is_peer(row, col, r, c) {
                        assert(cell_removed(cell(b0, r, c), cell(b1, r, c), d));
                        let s2 = match cell(b1, r, c) {
                            CellV::Options(s2) => s2,
                            _ => Seq::empty(),
                        };
                        assert(cell(b1, r, c) == CellV::Options(s2));
                        let e = choose|e: u8| #[trigger] s2.contains(e) && cell(sol, r, c) == CellV::Filled(e);
                        assert(s.contains(e));
                    } else {
                        assert(cell(b1, r, c) == cell(b0, r, c));
                    }
                }
            }
        }
    }
}

/// A solution of the board before a trial assignment that places the
/// tried digit in the chosen cell is also a solution of the board after
/// the assignment and its propagation.
proof fn lemma_solution_survives_fill(
    b0: Seq<CellV>,
    b1: Seq<CellV>,
    sol: Seq<CellV>,
    row: int,
    col: int,
    d: u8,
)
    requires
        in_range(row, col),
        cell(b0, row, col) matches CellV::Options(_),
        fill_result(b0, b1, row, col, d),
        solution_of(b0, sol),
        cell(sol, row, col) == CellV::Filled(d),
    ensures
        solution_of(b1, sol),
{
    assert forall|r: int, c: int| in_range(r, c) implies #[trigger] compatible_cell(b1, sol, r, c) by {
        assert(compatible_cell(b0, sol, r, c));
        if r == row && c == col {
            assert(cell(b1, r, c) == CellV::Filled(d));
        } else if is_peer(row, col, r, c) {
            assert(cell_removed(cell(b0, r, c), cell(b1, r, c), d));
            match cell(b0, r, c) {
                CellV::Options(s) => {
                    match cell(sol, r, c) {
                        CellV::Filled(e) => {
                            assert(s.contains(e));
                            if e == d {
                                assert(field_ok(sol, r, c));
                                assert(peer_filled(sol, r, c, e)) by {
                                    assert(is_peer(r, c, row, col));
                                    assert(filled_with(cell(sol, row, col), e));
                                }
                                assert(false);
                            }
                        }
                        _ => {
                            assert(false);
                        }
                    }
                }
                _ => {
                    assert(cell(b1, r, c) == cell(b0, r, c));
                }
            }
        } else {
            assert(cell(b1, r, c) == cell(b0, r, c));
        }
    }
}

/// When a trial assignment fails, no solution of the board places the
/// tried digit in the chosen cell.
proof fn lemma_failure_bars_digit(b0: Seq<CellV>, sol: Seq<CellV>, row: int, col: int, d: u8)
    requires
        in_range(row, col),
        opts_contain(cell(b0, row, col), d),
        fill_failure(b0, row, col, d),
        solution_of(b0, sol),
    ensures
        cell(sol, row, col) != CellV::Filled(d),
{
    if cell(sol, row, col) == CellV::Filled(d) {
        let (r2, c2) = choose|r2: int, c2: int|
            in_range(r2, c2) && is_peer(row, col, r2, c2)
                && dead_after_remove(#[trigger] cell(b0, r2, c2), d);
        assert(compatible_cell(b0, sol, r2, c2));
        match cell(b0, r2, c2) {
            CellV::Options(sp) => {
                match cell(sol, r2, c2) {
                    CellV::Filled(g) => {
                        assert(sp.contains(g));
                        assert(g == d);
                        assert(field_ok(sol, row, col));
                        assert(peer_filled(sol, row, col, d)) by {
                            assert(filled_with(cell(sol, r2, c2), d));
                        }
                        assert(false);
                    }
                    _ => {
                        assert(false);
                    }
                }
            }
            _ => {
                assert(false);
            }
        }
    }
}

/// The digit `d` is barred from the chosen cell by every solution seen
/// through the candidate list's first `k` entries.
spec fn no_solution_via(b: Seq<CellV>, row: int, col: int, s: Seq<u8>, k: int) -> bool {
    forall|sol: Seq<CellV>, j: int|
        #![trigger solution_of(b, sol), s[j]]
        solution_of(b, sol) && 0 <= j < k ==> cell(sol, row, col) != CellV::Filled(s[j])
}

/// Does the cell, if a candidate cell, hold at least `n` digits?
spec fn options_min_len(cv: CellV, n: int) -> bool {
    match cv {
        CellV::Options(s) => s.len() >= n,
        _ => true,
    }
}

/// A strictly sorted digit list with nine or more entries holds every
/// digit.
proof fn lemma_big_digit_set(s: Seq<u8>)
    requires
        sorted_digits(s),
        s.len() >= 9,
    ensures
        forall|d: u8| is_digit(d) ==> s.contains(d),
{
    let ds = Seq::new(9, |i: int| s[i] as int);
    assert forall|i: int| 0 <= i < 9 implies 1 <= #[trigger] ds[i] <= 9 by {
        assert(is_digit(s[i]));
    }
    assert forall|i: int, j: int| 0 <= i < j < 9 implies ds[i] != ds[j] by {
        assert(s[i] < s[j]);
    }
    lemma_nine_distinct_digits(ds);
    assert forall|d: u8| is_digit(d) implies s.contains(d) by {
        assert(ds.contains(d as int));
        let i = choose|i: int| 0 <= i < 9 && ds[i] == d as int;
        assert(s.contains(d)) by {
            assert(s[i] == d);
        }
    }
}

/// On a propagated board whose candidate cells all still hold all nine
/// digits, the corner cell cannot be fixed: a candidate cell would then
/// allow the digit of a fixed cell it can see, directly or through the
/// cell sharing the corner's row and its own column.
proof fn lemma_saturated_board_corner(b: Seq<CellV>, or2: int, oc2: int)
    requires
        propagated(b),
        in_range(or2, oc2),
        cell(b, or2, oc2) matches CellV::Options(_),
        forall|r: int, c: int| in_range(r, c) ==> options_min_len(#[trigger] cell(b, r, c), 9),
    ensures
        !(cell(b, 0, 0) matches CellV::Filled(_)),
{
    let so = match cell(b, or2, oc2) {
        CellV::Options(s) => s,
        _ => Seq::empty(),
    };
    assert(cell(b, or2, oc2) == CellV::Options(so));
    assert(sorted_digits(so)) by {
        assert(cell_wf(b[idx(or2, oc2)]));
    }
    assert(so.len() >= 9) by {
        assert(options_min_len(cell(b, or2, oc2), 9));
    }
    lemma_big_digit_set(so);
    match cell(b, 0, 0) {
        CellV::Filled(df) => {
            assert(is_digit(df)) by {
                assert(cell_wf(b[idx(0, 0)]));
            }
            if or2 == 0 || oc2 == 0 || same_box(0, 0, or2, oc2) {
                // the fixed corner is a peer of the saturated candidate cell
                assert(is_peer(or2, oc2, 0, 0));
                assert(opts_contain(cell(b, or2, oc2), df)) by {
                    assert(so.contains(df));
                }
                assert(peer_filled(b, or2, oc2, df)) by {
                    assert(filled_with(cell(b, 0, 0), df));
                }
                assert(false);
            } else {
                // look at the cell sharing the corner's row and the candidate's column
                match cell(b, 0, oc2) {
                    CellV::Empty => {
                        assert(!(b[idx(0, oc2)] matches CellV::Empty));
                        assert(false);
                    }
                    CellV::Filled(dm) => {
                        assert(is_peer(or2, oc2, 0, oc2));
                        assert(opts_contain(cell(b, or2, oc2), dm)) by {
                            assert(is_digit(dm)) by {
                                assert(cell_wf(b[idx(0, oc2)]));
                            }
                            assert(so.contains(dm));
                        }
                        assert(peer_filled(b, or2, oc2, dm)) by {
                            assert(filled_with(cell(b, 0, oc2), dm));
                        }
                        assert(false);
                    }
                    CellV::Options(sm) => {
                        assert(sorted_digits(sm)) by {
                            assert(cell_wf(b[idx(0, oc2)]));
                        }
                        assert(sm.len() >= 9) by {
                            assert(options_min_len(cell(b, 0, oc2), 9));
                        }
                        lemma_big_digit_set(sm);
                        assert(opts_contain(cell(b, 0, oc2), df)) by {
                            assert(sm.contains(df));
                        }
                        assert(is_peer(0, oc2, 0, 0));
                        assert(peer_filled(b, 0, oc2, df)) by {
                            assert(filled_with(cell(b, 0, 0), df));
                        }
                        assert(false);
                    }
                }
            }
        }
        _ => {}
    }
}

/// Recursive backtracking search.  Finds the candidate cell with the
/// fewest remaining digits (first such cell in row-major order on ties),
/// tries each of its candidates in ascending order on a fresh copy of
/// the board, propagates, and recurses; the first completion found wins.
/// A board with no candidate cells is returned as it is, at once.  On a
/// searchable board, any board returned is fully fixed and satisfies the
/// Sudoku constraint; on a propagated board, nothing is returned only
/// when no compatible solution exists at all.
#[verifier::loop_isolation(false)]
#[verifier::rlimit(100)]
pub fn solve(sudoku: Sudoku) -> (r: Option<Sudoku>)
    requires
        sudoku.wf(),
    ensures
        no_options_board(sudoku@) ==> (r matches Some(sol) && sol@ == sudoku@),
        r matches Some(sol) ==> sol.wf() && no_options_board(sol@) && completes(sudoku@, sol@),
        r matches Some(sol) ==> (searchable(sudoku@) ==> all_filled_board(sol@) && valid_board(sol@)),
        (!(r matches Some(_)) && propagated(sudoku@))
            ==> forall|sol: Seq<CellV>| !(#[trigger] solution_of(sudoku@, sol)),
    decreases count_options(sudoku@),
{
    let ghost b0 = sudoku@;
    // find the candidate cell with the fewest options
    let mut min_row: usize = 0;
    let mut min_col: usize = 0;
    let mut count: usize = 9;
    let mut finished: bool = true;
    let mut row: usize = 0;
    while row < 9
        invariant
            row <= 9,
            sudoku.wf(),
            min_row < 9,
            min_col < 9,
            count <= 9,
            is_options(cell(b0, min_row as int, min_col as int))
                || (min_row == 0 && min_col == 0 && count == 9),
            forall|r2: int, c2: int|
                0 <= r2 < row && 0 <= c2 < 9 ==> options_min_len(#[trigger] cell(b0, r2, c2), count as int),
            finished ==> forall|r2: int, c2: int|
                0 <= r2 < row && 0 <= c2 < 9 ==> !is_options(#[trigger] cell(b0, r2, c2)),
            !finished ==> !no_options_board(b0),
        decreases 9 - row,
    {
        let mut col: usize = 0;
        while col < 9
            invariant
                row < 9,
                col <= 9,
                sudoku.wf(),
                min_row < 9,
                min_col < 9,
                count <= 9,
                is_options(cell(b0, min_row as int, min_col as int))
                    || (min_row == 0 && min_col == 0 && count == 9),
                forall|r2: int, c2: int|
                    0 <= r2 < row && 0 <= c2 < 9 ==> options_min_len(#[trigger] cell(b0, r2, c2), count as int),
                forall|c2: int|
                    0 <= c2 < col ==> options_min_len(#[trigger] cell(b0, row as int, c2), count as int),
                finished ==> forall|r2: int, c2: int|
                    0 <= r2 < row && 0 <= c2 < 9 ==> !is_options(#[trigger] cell(b0, r2, c2)),
                finished ==> forall|c2: int|
                    0 <= c2 < col ==> !is_options(#[trigger] cell(b0, row as int, c2)),
                !finished ==> !no_options_board(b0),
            decreases 9 - col,
        {
            match &sudoku.0[row * 9 + col] {
                Field::Options(options) => {
                    finished = false;
                    if options.len() < count {
                        count = options.len();
                        min_row = row;
                        min_col = col;
                    }
                    proof {
                        assert(cell(b0, row as int, col as int) == CellV::Options(options@));
                        assert(options_min_len(cell(b0, row as int, col as int), count as int));
                        assert(!no_options_board(b0)) by {
                            assert(b0[idx(row as int, col as int)] matches CellV::Options(_));
                        }
                    }
                }
                _ => {}
            }
            col += 1;
        }
        row += 1;
    }
    if finished {
        proof {
            assert forall|i: int| 0 <= i < 81
                implies !(#[trigger] b0[i] matches CellV::Options(_)) by {
                let r2 = i / 9;
                let c2 = i % 9;
                assert(i == r2 * 9 + c2 && in_range(r2, c2));
                assert(!is_options(cell(b0, r2, c2)));
            }
            assert forall|r2: int, c2: int| in_range(r2, c2)
                implies #[trigger] completed_cell(b0, b0, r2, c2) by {
                assert(!is_options(cell(b0, r2, c2)));
            }
            if searchable(b0) {
                assert forall|i: int| 0 <= i < 81
                    implies #[trigger] b0[i] matches CellV::Filled(_) by {
                    assert(!(b0[i] matches CellV::Empty));
                    assert(!(b0[i] matches CellV::Options(_)));
                }
            }
        }
        return Some(sudoku);
    }
    let mi = min_row * 9 + min_col;
    let options: Vec<u8> = match &sudoku.0[mi] {
        Field::Options(opts) => clone_digits(opts),
        _ => {
            // the tracked minimum never moved off a non-candidate cell;
            // on a propagated board that cannot happen at all
            proof {
                if propagated(b0) {
                    assert(!is_options(cell(b0, min_row as int, min_col as int)));
                    assert(min_row == 0 && min_col == 0 && count == 9);
                    assert(!(b0[idx(0, 0)] matches CellV::Empty));
                    let oi = choose|oi: int| 0 <= oi < 81 && (#[trigger] b0[oi] matches CellV::Options(_));
                    let or2 = oi / 9;
                    let oc2 = oi % 9;
                    assert(oi == or2 * 9 + oc2 && in_range(or2, oc2));
                    assert forall|r2: int, c2: int| in_range(r2, c2)
                        implies options_min_len(#[trigger] cell(b0, r2, c2), 9) by {
                    }
                    lemma_saturated_board_corner(b0, or2, oc2);
                    assert(cell(b0, 0, 0) matches CellV::Filled(_));
                    assert(false);
                }
            }
            return None;
        }
    };
    proof {
        assert(cell(b0, min_row as int, min_col as int) == CellV::Options(options@));
        assert(sorted_digits(options@)) by {
            assert(cell_wf(b0[idx(min_row as int, min_col as int)]));
        }
    }
    let mut k: usize = 0;
    while k < options.len()
        invariant
            k <= options@.len(),
            sudoku.wf(),
            sudoku@ == b0,
            min_row < 9,
            min_col < 9,
            cell(b0, min_row as int, min_col as int) == CellV::Options(options@),
            sorted_digits(options@),
            propagated(b0) ==> no_solution_via(b0, min_row as int, min_col as int, options@, k as int),
        decreases options@.len() - k,
    {
        let opt = options[k];
        assert(is_digit(opt)) by {
            assert(is_digit(options@[k as int]));
        }
        proof {
            assert(opts_contain(cell(b0, min_row as int, min_col as int), opt)) by {
                assert(options@.contains(opt)) by {
                    assert(options@[k as int] == opt);
                }
            }
        }
        let mut trial = sudoku.clone();
        if fill_field(&mut trial, min_row, min_col, opt) {
            let ghost b1 = trial@;
            proof {
                assert(fill_result(b0, b1, min_row as int, min_col as int, opt));
                assert forall|i2: int| 0 <= i2 < 81 && i2 != idx(min_row as int, min_col as int)
                    implies (#[trigger] is_options(b0[i2])) == is_options(b1[i2]) by {
                    let r2 = i2 / 9;
                    let c2 = i2 % 9;
                    assert(i2 == r2 * 9 + c2 && in_range(r2, c2));
                    if is_peer(min_row as int, min_col as int, r2, c2) {
                        assert(cell_removed(cell(b0, r2, c2), cell(b1, r2, c2), opt));
                    } else {
                        assert(cell(b1, r2, c2) == cell(b0, r2, c2));
                    }
                }
                assert(is_options(b0[idx(min_row as int, min_col as int)]));
                assert(!is_options(b1[idx(min_row as int, min_col as int)])) by {
                    assert(cell(b1, min_row as int, min_col as int) == CellV::Filled(opt));
                }
                lemma_count_options_change(b0, b1, idx(min_row as int, min_col as int), 81);
                if propagated(b0) {
                    lemma_fill_preserves_propagated(b0, b1, min_row as int, min_col as int, opt);
                }
            }
            match solve(trial) {
                Some(solution) => {
                    proof {
                        lemma_completes_after_fill(
                            b0,
                            b1,
                            solution@,
                            min_row as int,
                            min_col as int,
                            opt,
                        );
                        if searchable(b0) {
                            assert(propagated(b0));
                            assert(searchable(b1));
                        }
                    }
                    return Some(solution);
                }
                None => {
                    proof {
                        if propagated(b0) {
                            assert(no_solution_via(
                                b0, min_row as int, min_col as int, options@, k + 1,
                            )) by {
                                assert forall|sol: Seq<CellV>, j: int|
                                    #![trigger solution_of(b0, sol), options@[j]]
                                    solution_of(b0, sol) && 0 <= j < k + 1
                                    implies cell(sol, min_row as int, min_col as int)
                                        != CellV::Filled(options@[j]) by {
                                    if j == k {
                                        if cell(sol, min_row as int, min_col as int)
                                            == CellV::Filled(opt) {
                                            lemma_solution_survives_fill(
                                                b0, b1, sol,
                                                min_row as int, min_col as int, opt,
                                            );
                                            assert(!solution_of(b1, sol));
                                            assert(false);
                                        }
                                    }
                                }
                            }
                        }
                    }
                }
            }
        } else {
            proof {
                if propagated(b0) {
                    assert(no_solution_via(
                        b0, min_row as int, min_col as int, options@, k + 1,
                    )) by {
                        assert forall|sol: Seq<CellV>, j: int|
                            #![trigger solution_of(b0, sol), options@[j]]
                            solution_of(b0, sol) && 0 <= j < k + 1
                            implies cell(sol, min_row as int, min_col as int)
                                != CellV::Filled(options@[j]) by {
                            if j == k {
                                lemma_failure_bars_digit(
                                    b0, sol, min_row as int, min_col as int, opt,
                                );
                            }
                        }
                    }
                }
            }
        }
        k += 1;
    }
    proof {
        if propagated(b0) {
            assert forall|sol: Seq<CellV>| !(#[trigger] solution_of(b0, sol)) by {
                if solution_of(b0, sol) {
                    assert(compatible_cell(b0, sol, min_row as int, min_col as int));
                    match cell(sol, min_row as int, min_col as int) {
                        CellV::Filled(e) => {
                            assert(options@.contains(e));
                            let j = choose|j: int| 0 <= j < options@.len() && options@[j] == e;
                            assert(cell(sol, min_row as int, min_col as int)
                                != CellV::Filled(options@[j]));
                            assert(false);
                        }
                        _ => {
                            assert(false);
                        }
                    }
                }
            }
        }
    }
    None
}

/// Nine pairwise distinct digits drawn from 1..=9 must cover all of
/// 1..=9.
proof fn lemma_nine_distinct_digits(ds: Seq<int>)
    requires
        ds.len() == 9,
        forall|i: int| 0 <= i < 9 ==> 1 <= #[trigger] ds[i] <= 9,
        forall|i: int, j: int| 0 <= i < j < 9 ==> ds[i] != ds[j],
    ensures
        forall|d: int| 1 <= d <= 9 ==> ds.contains(d),
{
    broadcast use vstd::seq_lib::seq_to_set_is_finite;

    assert(ds.no_duplicates()) by {
        assert forall|i: int, j: int| i != j && 0 <= i < 9 && 0 <= j < 9
            implies ds[i] != ds[j] by {
            if i < j {
            } else {
                assert(ds[j] != ds[i]);
            }
        }
    }
    ds.unique_seq_to_set();
    let s = ds.to_set();
    let range = vstd::set_lib::set_int_range(1, 10);
    vstd::set_lib::lemma_int_range(1, 10);
    assert(s.subset_of(range)) by {
        assert forall|d: int| s.contains(d) implies range.contains(d) by {
            assert(ds.contains(d));
            let i = choose|i: int| 0 <= i < 9 && ds[i] == d;
            assert(1 <= ds[i] <= 9);
        }
    }
    vstd::set_lib::lemma_subset_equality(s, range);
    assert forall|d: int| 1 <= d <= 9 implies ds.contains(d) by {
        assert(range.contains(d));
        assert(s.contains(d));
    }
}

/// For a fully fixed board satisfying the Sudoku constraint, the nine
/// values of every row, every column, and every box are exactly the
/// digits 1..=9, each present (and, by the constraint, present once).
pub proof fn lemma_solved_board_groups(b: Seq<CellV>)
    requires
        board_wf(b),
        all_filled_board(b),
        valid_board(b),
    ensures
        forall|r: int, d: u8| 0 <= r < 9 && is_digit(d) ==> #[trigger] row_has(b, r, d),
        forall|c: int, d: u8| 0 <= c < 9 && is_digit(d) ==> #[trigger] col_has(b, c, d),
        forall|r: int, c: int, d: u8|
            in_range(r, c) && is_digit(d) ==> #[trigger] box_has(b, r, c, d),
{
    let digit_at = |r: int, c: int| -> int {
        match cell(b, r, c) {
            CellV::Filled(e) => e as int,
            _ => 0,
        }
    };
    assert forall|r: int, c: int| in_range(r, c)
        implies 1 <= digit_at(r, c) <= 9 && filled_with(cell(b, r, c), digit_at(r, c) as u8) by {
        assert(b[idx(r, c)] matches CellV::Filled(_));
        assert(cell_wf(b[idx(r, c)]));
    }
    assert forall|r: int, d: u8| 0 <= r < 9 && is_digit(d) implies #[trigger] row_has(b, r, d) by {
        let ds = Seq::new(9, |c: int| digit_at(r, c));
        assert forall|c1: int, c2: int| 0 <= c1 < c2 < 9 implies ds[c1] != ds[c2] by {
            assert(field_ok(b, r, c1));
            assert(is_peer(r, c1, r, c2));
            if ds[c1] == ds[c2] {
                assert(peer_filled(b, r, c1, digit_at(r, c1) as u8)) by {
                    assert(filled_with(cell(b, r, c2), digit_at(r, c1) as u8));
                }
            }
        }
        lemma_nine_distinct_digits(ds);
        assert(ds.contains(d as int));
        let c = choose|c: int| 0 <= c < 9 && ds[c] == d as int;
        assert(row_has(b, r, d)) by {
            assert(filled_with(cell(b, r, c), d));
        }
    }
    assert forall|c: int, d: u8| 0 <= c < 9 && is_digit(d) implies #[trigger] col_has(b, c, d) by {
        let ds = Seq::new(9, |r: int| digit_at(r, c));
        assert forall|r1: int, r2: int| 0 <= r1 < r2 < 9 implies ds[r1] != ds[r2] by {
            assert(field_ok(b, r1, c));
            assert(is_peer(r1, c, r2, c));
            if ds[r1] == ds[r2] {
                assert(peer_filled(b, r1, c, digit_at(r1, c) as u8)) by {
                    assert(filled_with(cell(b, r2, c), digit_at(r1, c) as u8));
                }
            }
        }
        lemma_nine_distinct_digits(ds);
        assert(ds.contains(d as int));
        let r = choose|r: int| 0 <= r < 9 && ds[r] == d as int;
        assert(col_has(b, c, d)) by {
            assert(filled_with(cell(b, r, c), d));
        }
    }
    assert forall|r: int, c: int, d: u8| in_range(r, c) && is_digit(d)
        implies #[trigger] box_has(b, r, c, d) by {
        let rs = (r / 3) * 3;
        let cs = (c / 3) * 3;
        let ds = Seq::new(9, |k: int| digit_at(rs + k / 3, cs + k % 3));
        assert forall|k1: int, k2: int| 0 <= k1 < k2 < 9 implies ds[k1] != ds[k2] by {
            let ra = rs + k1 / 3;
            let ca = cs + k1 % 3;
            let rb = rs + k2 / 3;
            let cb = cs + k2 % 3;
            assert(in_range(ra, ca) && in_range(rb, cb));
            assert(!(ra == rb && ca == cb));
            assert(same_box(ra, ca, rb, cb));
            assert(field_ok(b, ra, ca));
            assert(is_peer(ra, ca, rb, cb));
            if ds[k1] == ds[k2] {
                assert(peer_filled(b, ra, ca, digit_at(ra, ca) as u8)) by {
                    assert(filled_with(cell(b, rb, cb), digit_at(ra, ca) as u8));
                }
            }
        }
        lemma_nine_distinct_digits(ds);
        assert(ds.contains(d as int));
        let k = choose|k: int| 0 <= k < 9 && ds[k] == d as int;
        let r2 = rs + k / 3;
        let c2 = cs + k % 3;
        assert(box_has(b, r, c, d)) by {
            assert(in_range(r2, c2));
            assert(same_box(r, c, r2, c2));
            assert(filled_with(cell(b, r2, c2), d));
        }
    }
}

/// Checking the same unmodified board twice gives the same answer: the
/// validator's result is a function of the board alone.
pub proof fn lemma_validator_deterministic(b: Seq<CellV>, r1: bool, r2: bool)
    requires
        r1 == valid_board(b),
        r2 == valid_board(b),
    ensures
        r1 == r2,
{
}

/// A board holding the same fixed digit twice in one row can never be
/// completed: every solution would keep both copies and so break the
/// constraint itself.
pub proof fn lemma_duplicate_in_row_unsolvable(b: Seq<CellV>, r: int, c1: int, c2: int, d: u8)
    requires
        in_range(r, c1),
        in_range(r, c2),
        c1 != c2,
        filled_with(cell(b, r, c1), d),
        filled_with(cell(b, r, c2), d),
    ensures
        forall|sol: Seq<CellV>| !(#[trigger] solution_of(b, sol)),
{
    assert forall|sol: Seq<CellV>| !(#[trigger] solution_of(b, sol)) by {
        if solution_of(b, sol) {
            assert(compatible_cell(b, sol, r, c1));
            assert(compatible_cell(b, sol, r, c2));
            assert(cell(sol, r, c1) == CellV::Filled(d));
            assert(cell(sol, r, c2) == CellV::Filled(d));
            assert(field_ok(sol, r, c1));
            assert(peer_filled(sol, r, c1, d)) by {
                assert(is_peer(r, c1, r, c2));
                assert(filled_with(cell(sol, r, c2), d));
            }
            assert(false);
        }
    }
}

/// A board with no fixed digits, such as the all-zero input, violates no
/// constraint.
pub proof fn lemma_all_blank_valid(b: Seq<CellV>)
    requires
        b.len() == 81,
        forall|i: int| 0 <= i < 81 ==> !(#[trigger] b[i] matches CellV::Filled(_)),
    ensures
        valid_board(b),
{
    assert forall|r: int, c: int| in_range(r, c) implies #[trigger] field_ok(b, r, c) by {
        assert(!(b[idx(r, c)] matches CellV::Filled(_)));
    }
}

} // verus!
