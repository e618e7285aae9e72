//! The cell and board data model, its mathematical view, and the local
//! cell operations (candidate intersection and single-digit removal).

use vstd::prelude::*;

verus! {

/// Mathematical picture of one cell, used by every contract.
#[verifier::ext_equal]
pub enum CellV {
    /// No candidate information computed yet.
    Empty,
    /// The digits still possible at this position.
    Options(Seq<u8>),
    /// The cell's final, assigned digit.
    Filled(u8),
}

/// One position of the grid: not yet examined, a set of remaining
/// candidate digits, or a finally assigned digit.
#[derive(Debug)]
pub enum Field {
    Empty,
    Options(Vec<u8>),
    Filled(u8),
}

impl View for Field {
    type V = CellV;

    open spec fn view(&self) -> CellV {
        match self {
            Field::Empty => CellV::Empty,
            Field::Options(v) => CellV::Options(v@),
            Field::Filled(d) => CellV::Filled(*d),
        }
    }
}

/// A digit that may stand in a solved grid.
pub open spec fn is_digit(d: u8) -> bool {
    1 <= d <= 9
}

/// Candidate lists are kept strictly ascending, so they are duplicate-free,
/// and hold digits only.
pub open spec fn sorted_digits(s: Seq<u8>) -> bool {
    &&& forall|i: int, j: int| 0 <= i < j < s.len() ==> s[i] < s[j]
    &&& forall|i: int| 0 <= i < s.len() ==> is_digit(#[trigger] s[i])
}

pub open spec fn cell_wf(cv: CellV) -> bool {
    match cv {
        CellV::Empty => true,
        CellV::Options(s) => sorted_digits(s),
        CellV::Filled(d) => is_digit(d),
    }
}

/// The 9x9 grid of cells, stored row-major as 81 fields.
pub struct Sudoku(pub Vec<Field>);

impl View for Sudoku {
    type V = Seq<CellV>;

    open spec fn view(&self) -> Seq<CellV> {
        Seq::new(self.0@.len(), |i: int| self.0@[i]@)
    }
}

/// Row-major position of (row, col).
pub open spec fn idx(r: int, c: int) -> int {
    r * 9 + c
}

pub open spec fn in_range(r: int, c: int) -> bool {
    0 <= r < 9 && 0 <= c < 9
}

/// The cell of board `b` at (r, c).
pub open spec fn cell(b: Seq<CellV>, r: int, c: int) -> CellV {
    b[r * 9 + c]
}

pub open spec fn board_wf(b: Seq<CellV>) -> bool {
    &&& b.len() == 81
    &&& forall|i: int| 0 <= i < 81 ==> cell_wf(#[trigger] b[i])
}

impl Sudoku {
    pub open spec fn wf(&self) -> bool {
        board_wf(self@)
    }
}

/// Does `cv` hold the final digit `d`?
pub open spec fn filled_with(cv: CellV, d: u8) -> bool {
    cv == CellV::Filled(d)
}

/// The two positions share a 3x3 box.
pub open spec fn same_box(r1: int, c1: int, r2: int, c2: int) -> bool {
    r1 / 3 == r2 / 3 && c1 / 3 == c2 / 3
}

/// Distinct positions sharing a row, a column, or a box.
pub open spec fn is_peer(r1: int, c1: int, r2: int, c2: int) -> bool {
    !(r1 == r2 && c1 == c2) && (r1 == r2 || c1 == c2 || same_box(r1, c1, r2, c2))
}

/// Does `d` stand anywhere in the first `n` entries of `s`?
pub open spec fn in_prefix(s: Seq<u8>, n: int, x: u8) -> bool {
    exists|j: int| 0 <= j < n && s[j] == x
}

pub(crate) fn clone_digits(v: &Vec<u8>) -> (r: Vec<u8>)
    ensures
        r@ == v@,
{
    let mut r: Vec<u8> = Vec::new();
    let mut i: usize = 0;
    while i < v.len()
        invariant
            i <= v@.len(),
            r@ == v@.subrange(0, i as int),
        decreases v@.len() - i,
    {
        r.push(v[i]);
        assert(r@ =~= v@.subrange(0, i + 1 as int));
        i += 1;
    }
    assert(r@ =~= v@);
    r
}

pub(crate) fn contains_digit(v: &Vec<u8>, d: u8) -> (r: bool)
    ensures
        r == v@.contains(d),
{
    let mut i: usize = 0;
    while i < v.len()
        invariant
            i <= v@.len(),
            forall|j: int| 0 <= j < i ==> v@[j] != d,
        decreases v@.len() - i,
    {
        if v[i] == d {
            assert(v@.contains(d)) by {
                assert(v@[i as int] == d);
            }
            return true;
        }
        i += 1;
    }
    false
}

/// A fresh copy of `v` with every occurrence of `d` left out; order
/// and strict sortedness are preserved.
fn remove_digit(v: &Vec<u8>, d: u8) -> (r: Vec<u8>)
    requires
        sorted_digits(v@),
    ensures
        sorted_digits(r@),
        forall|x: u8| r@.contains(x) <==> v@.contains(x) && x != d,
{
    let mut r: Vec<u8> = Vec::new();
    let mut i: usize = 0;
    while i < v.len()
        invariant
            sorted_digits(v@),
            i <= v@.len(),
            sorted_digits(r@),
            forall|x: u8| r@.contains(x) <==> in_prefix(v@, i as int, x) && x != d,
            forall|j: int| i <= j < v@.len() && r@.len() > 0 ==> r@.last() < v@[j],
        decreases v@.len() - i,
    {
        let x = v[i];
        let ghost r0 = r@;
        if x != d {
            r.push(x);
            assert forall|y: u8| r@.contains(y) <==> in_prefix(v@, i + 1, y) && y != d by {
                if r@.contains(y) {
                    let a = choose|a: int| 0 <= a < r@.len() && r@[a] == y;
                    if a < r0.len() {
                        assert(r0.contains(y)) by { assert(r0[a] == y); }
                    } else {
                        assert(y == x);
                        assert(in_prefix(v@, i + 1, y)) by { assert(v@[i as int] == y); }
                    }
                }
                if in_prefix(v@, i + 1, y) && y != d {
                    let j = choose|j: int| 0 <= j < i + 1 && v@[j] == y;
                    if j < i {
                        assert(in_prefix(v@, i as int, y)) by { assert(v@[j] == y); }
                        assert(r0.contains(y));
                        let a = choose|a: int| 0 <= a < r0.len() && r0[a] == y;
                        assert(r@[a] == y);
                    } else {
                        assert(r@[r@.len() - 1] == y);
                    }
                }
            }
            assert(sorted_digits(r@)) by {
                assert(forall|a: int| 0 <= a < r0.len() ==> r@[a] == r0[a]);
                assert(r0.len() > 0 ==> r0.last() < x);
            }
        } else {
            assert forall|y: u8| r@.contains(y) <==> in_prefix(v@, i + 1, y) && y != d by {
                if in_prefix(v@, i + 1, y) && y != d {
                    let j = choose|j: int| 0 <= j < i + 1 && v@[j] == y;
                    assert(j < i) by {
                        if j == i {
                            assert(v@[j] == d);
                        }
                    }
                    assert(in_prefix(v@, i as int, y)) by { assert(v@[j] == y); }
                }
                if r@.contains(y) {
                    assert(in_prefix(v@, i as int, y) && y != d);
                    let j = choose|j: int| 0 <= j < i && v@[j] == y;
                    assert(in_prefix(v@, i + 1, y)) by { assert(v@[j] == y); }
                }
            }
        }
        i += 1;
    }
    assert forall|x: u8| r@.contains(x) <==> v@.contains(x) && x != d by {
        if v@.contains(x) && x != d {
            let j = choose|j: int| 0 <= j < v@.len() && v@[j] == x;
            assert(in_prefix(v@, v@.len() as int, x)) by { assert(v@[j] == x); }
        }
        if r@.contains(x) {
            let j = choose|j: int| 0 <= j < v@.len() && v@[j] == x;
            assert(v@.contains(x)) by { assert(v@[j] == x); }
        }
    }
    r
}

/// A fresh copy of `v` keeping only the digits that `allowed` also holds;
/// order and strict sortedness are preserved.
fn intersect_digits(v: &Vec<u8>, allowed: &Vec<u8>) -> (r: Vec<u8>)
    requires
        sorted_digits(v@),
    ensures
        sorted_digits(r@),
        forall|x: u8| r@.contains(x) <==> v@.contains(x) && allowed@.contains(x),
{
    let mut r: Vec<u8> = Vec::new();
    let mut i: usize = 0;
    while i < v.len()
        invariant
            sorted_digits(v@),
            i <= v@.len(),
            sorted_digits(r@),
            forall|x: u8| r@.contains(x) <==> in_prefix(v@, i as int, x) && allowed@.contains(x),
            forall|j: int| i <= j < v@.len() && r@.len() > 0 ==> r@.last() < v@[j],
        decreases v@.len() - i,
    {
        let x = v[i];
        let ghost r0 = r@;
        if contains_digit(allowed, x) {
            r.push(x);
            assert forall|y: u8| r@.contains(y) <==> in_prefix(v@, i + 1, y) && allowed@.contains(y) by {
                if r@.contains(y) {
                    let a = choose|a: int| 0 <= a < r@.len() && r@[a] == y;
                    if a < r0.len() {
                        assert(r0.contains(y)) by { assert(r0[a] == y); }
                    } else {
                        assert(y == x);
                        assert(in_prefix(v@, i + 1, y)) by { assert(v@[i as int] == y); }
                    }
                }
                if in_prefix(v@, i + 1, y) && allowed@.contains(y) {
                    let j = choose|j: int| 0 <= j < i + 1 && v@[j] == y;
                    if j < i {
                        assert(in_prefix(v@, i as int, y)) by { assert(v@[j] == y); }
                        assert(r0.contains(y));
                        let a = choose|a: int| 0 <= a < r0.len() && r0[a] == y;
                        assert(r@[a] == y);
                    } else {
                        assert(r@[r@.len() - 1] == y);
                    }
                }
            }
            assert(sorted_digits(r@)) by {
                assert(forall|a: int| 0 <= a < r0.len() ==> r@[a] == r0[a]);
                assert(r0.len() > 0 ==> r0.last() < x);
            }
        } else {
            assert forall|y: u8| r@.contains(y) <==> in_prefix(v@, i + 1, y) && allowed@.contains(y) by {
                if in_prefix(v@, i + 1, y) && allowed@.contains(y) {
                    let j = choose|j: int| 0 <= j < i + 1 && v@[j] == y;
                    assert(j < i) by {
                        if j == i {
                            assert(v@[j] == x);
                        }
                    }
                    assert(in_prefix(v@, i as int, y)) by { assert(v@[j] == y); }
                }
                if r@.contains(y) {
                    assert(in_prefix(v@, i as int, y) && allowed@.contains(y));
                    let j = choose|j: int| 0 <= j < i && v@[j] == y;
                    assert(in_prefix(v@, i + 1, y)) by { assert(v@[j] == y); }
                }
            }
        }
        i += 1;
    }
    assert forall|x: u8| r@.contains(x) <==> v@.contains(x) && allowed@.contains(x) by {
        if v@.contains(x) && allowed@.contains(x) {
            let j = choose|j: int| 0 <= j < v@.len() && v@[j] == x;
            assert(in_prefix(v@, v@.len() as int, x)) by { assert(v@[j] == x); }
        }
        if r@.contains(x) {
            let j = choose|j: int| 0 <= j < v@.len() && v@[j] == x;
            assert(v@.contains(x)) by { assert(v@[j] == x); }
        }
    }
    r
}

/// The full candidate list 1..=9.
pub(crate) fn all_digits() -> (v: Vec<u8>)
    ensures
        sorted_digits(v@),
        v@.len() == 9,
        forall|x: u8| v@.contains(x) <==> is_digit(x),
{
    let mut v: Vec<u8> = Vec::new();
    let mut d: u8 = 1;
    while d <= 9
        invariant
            1 <= d <= 10,
            v@.len() == d - 1,
            forall|j: int| 0 <= j < v@.len() ==> v@[j] == j + 1,
        decreases 10 - d,
    {
        v.push(d);
        d += 1;
    }
    assert forall|x: u8| v@.contains(x) <==> is_digit(x) by {
        if v@.contains(x) {
            let j = choose|j: int| 0 <= j < v@.len() && v@[j] == x;
        }
        if is_digit(x) {
            assert(v@[x - 1] == x);
        }
    }
    v
}

impl Field {
    /// Equality between a cell and a literal digit: holds only when the
    /// cell is filled with exactly that digit.
    pub fn eq_digit(&self, other: u8) -> (r: bool)
        ensures
            r == filled_with(self@, other),
    {
        match self {
            Field::Empty => false,
            Field::Options(_) => false,
            Field::Filled(value) => *value == other,
        }
    }
}

impl Clone for Field {
    fn clone(&self) -> (r: Field)
        ensures
            r@ == self@,
    {
        match self {
            Field::Empty => Field::Empty,
            Field::Options(v) => Field::Options(clone_digits(v)),
            Field::Filled(d) => Field::Filled(*d),
        }
    }
}

impl Clone for Sudoku {
    fn clone(&self) -> (r: Sudoku)
        ensures
            r@ == self@,
    {
        let mut grid: Vec<Field> = Vec::new();
        let mut k: usize = 0;
        while k < self.0.len()
            invariant
                k <= self.0@.len(),
                grid@.len() == k,
                forall|j: int| 0 <= j < k ==> grid@[j]@ == self.0@[j]@,
            decreases self.0@.len() - k,
        {
            let f = self.0[k].clone();
            grid.push(f);
            k += 1;
        }
        let r = Sudoku(grid);
        assert(r@ =~= self@);
        r
    }
}

/// How one cell changes when a digit is struck from its candidates:
/// a candidate cell loses every occurrence of `number` and reports
/// whether anything is left; any other cell is untouched.
pub open spec fn cell_after_remove(before: CellV, after: CellV, number: u8, r: bool) -> bool {
    match before {
        CellV::Options(s) => {
            &&& after matches CellV::Options(s2)
            &&& sorted_digits(s2)
            &&& (forall|x: u8| s2.contains(x) <==> s.contains(x) && x != number)
            &&& (r <==> s2.len() > 0)
        },
        _ => after == before && r == true,
    }
}

/// How one cell changes when a candidate list is intersected into it:
/// an unexamined cell adopts the list, a candidate cell keeps only the
/// digits the list also holds, a filled cell is untouched.
pub open spec fn cell_after_narrow(before: CellV, after: CellV, allowed: Seq<u8>) -> bool {
    match before {
        CellV::Empty => after == CellV::Options(allowed),
        CellV::Options(s) => {
            &&& after matches CellV::Options(s2)
            &&& sorted_digits(s2)
            &&& (forall|x: u8| s2.contains(x) <==> s.contains(x) && allowed.contains(x))
        },
        CellV::Filled(_) => after == before,
    }
}

impl Sudoku {
    /// A fresh board from a 9x9 grid of raw digits: 0 becomes an
    /// unexamined cell, 1..=9 a filled one.
    pub fn new(input: Vec<Vec<u8>>) -> (s: Sudoku)
        requires
            input@.len() == 9,
            forall|r: int| 0 <= r < 9 ==> (#[trigger] input@[r])@.len() == 9,
            forall|r: int, c: int| 0 <= r < 9 && 0 <= c < 9 ==> (#[trigger] input@[r]@[c]) <= 9,
        ensures
            s.wf(),
            s@.len() == 81,
            forall|r: int, c: int| in_range(r, c) ==> #[trigger] cell(s@, r, c) == (
                if input@[r]@[c] == 0 { CellV::Empty } else { CellV::Filled(input@[r]@[c]) }
            ),
            forall|i: int| 0 <= i < 81 ==> !(#[trigger] s@[i] matches CellV::Options(_)),
    {
        let mut grid: Vec<Field> = Vec::new();
        let mut r: usize = 0;
        while r < 9
            invariant
                r <= 9,
                grid@.len() == r * 9,
                input@.len() == 9,
                forall|r2: int| 0 <= r2 < 9 ==> (#[trigger] input@[r2])@.len() == 9,
                forall|r2: int, c2: int| 0 <= r2 < 9 && 0 <= c2 < 9 ==> (#[trigger] input@[r2]@[c2]) <= 9,
                forall|r2: int, c2: int| 0 <= r2 < r && 0 <= c2 < 9 ==> #[trigger] grid@[r2 * 9 + c2]@ == (
                    if input@[r2]@[c2] == 0 { CellV::Empty } else { CellV::Filled(input@[r2]@[c2]) }
                ),
            decreases 9 - r,
        {
            let row_digits = &input[r];
            let mut c: usize = 0;
            while c < 9
                invariant
                    r < 9,
                    c <= 9,
                    grid@.len() == r * 9 + c,
                    input@.len() == 9,
                    row_digits == input@[r as int],
                    forall|r2: int| 0 <= r2 < 9 ==> (#[trigger] input@[r2])@.len() == 9,
                    forall|r2: int, c2: int| 0 <= r2 < 9 && 0 <= c2 < 9 ==> (#[trigger] input@[r2]@[c2]) <= 9,
                    forall|r2: int, c2: int| 0 <= r2 < r && 0 <= c2 < 9 ==> #[trigger] grid@[r2 * 9 + c2]@ == (
                        if input@[r2]@[c2] == 0 { CellV::Empty } else { CellV::Filled(input@[r2]@[c2]) }
                    ),
                    forall|c2: int| 0 <= c2 < c ==> #[trigger] grid@[r * 9 + c2]@ == (
                        if input@[r as int]@[c2] == 0 { CellV::Empty } else { CellV::Filled(input@[r as int]@[c2]) }
                    ),
                decreases 9 - c,
            {
                let d = row_digits[c];
                if d == 0 {
                    grid.push(Field::Empty);
                } else {
                    grid.push(Field::Filled(d));
                }
                c += 1;
            }
            r += 1;
        }
        let s = Sudoku(grid);
        assert forall|i: int| 0 <= i < 81 implies cell_wf(#[trigger] s@[i]) && !(s@[i] matches CellV::Options(_)) by {
            let r2 = i / 9;
            let c2 = i % 9;
            assert(i == r2 * 9 + c2);
            assert(s@[r2 * 9 + c2] == grid@[r2 * 9 + c2]@);
        }
        s
    }

    /// The grid as raw digits: a filled cell gives its digit, any other
    /// cell gives 0.
    pub fn to_digits(&self) -> (out: Vec<Vec<u8>>)
        requires
            self.wf(),
        ensures
            out@.len() == 9,
            forall|r: int| 0 <= r < 9 ==> (#[trigger] out@[r])@.len() == 9,
            forall|r: int, c: int| in_range(r, c) ==> #[trigger] out@[r]@[c] == (
                match cell(self@, r, c) {
                    CellV::Filled(d) => d,
                    _ => 0u8,
                }
            ),
    {
        let mut out: Vec<Vec<u8>> = Vec::new();
        let mut r: usize = 0;
        while r < 9
            invariant
                self.wf(),
                r <= 9,
                out@.len() == r,
                forall|r2: int| 0 <= r2 < r ==> (#[trigger] out@[r2])@.len() == 9,
                forall|r2: int, c2: int| 0 <= r2 < r && 0 <= c2 < 9 ==> #[trigger] out@[r2]@[c2] == (
                    match cell(self@, r2, c2) {
                        CellV::Filled(d) => d,
                        _ => 0u8,
                    }
                ),
            decreases 9 - r,
        {
            let mut row_out: Vec<u8> = Vec::new();
            let mut c: usize = 0;
            while c < 9
                invariant
                    self.wf(),
                    r < 9,
                    c <= 9,
                    row_out@.len() == c,
                    forall|c2: int| 0 <= c2 < c ==> #[trigger] row_out@[c2] == (
                        match cell(self@, r as int, c2) {
                            CellV::Filled(d) => d,
                            _ => 0u8,
                        }
                    ),
                decreases 9 - c,
            {
                let d = match &self.0[r * 9 + c] {
                    Field::Filled(d) => *d,
                    _ => 0u8,
                };
                row_out.push(d);
                c += 1;
            }
            out.push(row_out);
            r += 1;
        }
        out
    }

    /// Strike the digit of a filled cell from the candidate list `options`;
    /// an unexamined or candidate cell leaves the list as it is.
    pub(crate) fn gen_options_from_field(&self, row: usize, col: usize, options: &mut Vec<u8>)
        requires
            self.wf(),
            row < 9,
            col < 9,
            sorted_digits(old(options)@),
        ensures
            sorted_digits(final(options)@),
            match cell(self@, row as int, col as int) {
                CellV::Filled(d) => forall|x: u8|
                    final(options)@.contains(x) <==> old(options)@.contains(x) && x != d,
                _ => final(options)@ == old(options)@,
            },
    {
        match &self.0[row * 9 + col] {
            Field::Empty => {}
            Field::Options(_) => {}
            Field::Filled(value) => {
                let filtered = remove_digit(options, *value);
                *options = filtered;
            }
        }
    }

    /// Intersect a peer-derived candidate list into the cell at (row, col):
    /// an unexamined cell adopts the list, a candidate cell keeps only the
    /// digits the list also holds, a filled cell is untouched.
    pub(crate) fn update_options(&mut self, row: usize, col: usize, options: &Vec<u8>)
        requires
            old(self).wf(),
            row < 9,
            col < 9,
            sorted_digits(options@),
        ensures
            final(self).wf(),
            final(self)@.len() == 81,
            forall|i: int| 0 <= i < 81 && i != idx(row as int, col as int)
                ==> #[trigger] final(self)@[i] == old(self)@[i],
            cell_after_narrow(
                cell(old(self)@, row as int, col as int),
                cell(final(self)@, row as int, col as int),
                options@,
            ),
    {
        let i = row * 9 + col;
        let replacement: Option<Field> = match &self.0[i] {
            Field::Empty => Some(Field::Options(clone_digits(options))),
            Field::Options(current_options) => {
                Some(Field::Options(intersect_digits(current_options, options)))
            }
            Field::Filled(_) => None,
        };
        match replacement {
            Some(f) => {
                self.0.set(i, f);
            }
            None => {}
        }
        assert forall|j: int| 0 <= j < 81 && j != idx(row as int, col as int)
            implies #[trigger] final(self)@[j] == old(self)@[j] by {
            assert(final(self).0@[j] == old(self).0@[j]);
        }
    }

    /// Remove a single digit from the candidates of the cell at (row, col),
    /// reporting `false` exactly when the candidate set is left empty.
    /// An unexamined or filled cell is untouched and reports `true`.
    pub(crate) fn update_existing_options(&mut self, row: usize, col: usize, number: u8) -> (r: bool)
        requires
            old(self).wf(),
            row < 9,
            col < 9,
        ensures
            final(self).wf(),
            final(self)@.len() == 81,
            forall|i: int| 0 <= i < 81 && i != idx(row as int, col as int)
                ==> #[trigger] final(self)@[i] == old(self)@[i],
            cell_after_remove(
                cell(old(self)@, row as int, col as int),
                cell(final(self)@, row as int, col as int),
                number,
                r,
            ),
    {
        let i = row * 9 + col;
        let r = match &self.0[i] {
            Field::Empty | Field::Filled(_) => true,
            Field::Options(options) => {
                let filtered = remove_digit(options, number);
                let ok = filtered.len() > 0;
                if !ok {
                    assert(forall|x: u8| !filtered@.contains(x));
                }
                self.0.set(i, Field::Options(filtered));
                ok
            }
        };
        assert forall|j: int| 0 <= j < 81 && j != idx(row as int, col as int)
            implies #[trigger] final(self)@[j] == old(self)@[j] by {
            assert(final(self).0@[j] == old(self).0@[j]);
        }
        r
    }
}

} // verus!
