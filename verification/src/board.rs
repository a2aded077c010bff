pub mod error;

use vstd::prelude::*;
use vstd::string::StrSliceExecFns;
use vstd::string::StringExecFns;
use crate::board::error::{BoardError, BoardParseError};

verus! {

/// The marker for an empty cell.
pub const EMPTY: u8 = 0;

/// A digit d is present somewhere in row y of the 81-cell, row-major
/// grid sequence s.
pub open spec fn digit_in_row(s: Seq<u8>, y: int, d: u8) -> bool {
    exists|x: int| 0 <= x < 9 && #[trigger] s[y * 9 + x] == d
}

/// A digit d is present somewhere in column x of the grid sequence s.
pub open spec fn digit_in_col(s: Seq<u8>, x: int, d: u8) -> bool {
    exists|y: int| 0 <= y < 9 && #[trigger] s[y * 9 + x] == d
}

/// A digit d is present somewhere in the 3-by-3 box containing cell
/// (y, x) of the grid sequence s.
pub open spec fn digit_in_box(s: Seq<u8>, y: int, x: int, d: u8) -> bool {
    exists|a: int, b: int|
        0 <= a < 3 && 0 <= b < 3 && #[trigger] s[(3 * (y / 3) + a) * 9 + (3 * (x / 3) + b)] == d
}

/// Bit n of a 16-bit occupancy mask stands for digit n + 1; the digit d
/// is recorded in mask m exactly when its bit is set.
pub open spec fn mask_has(m: u16, d: u8) -> bool {
    m & (1u16 << ((d - 1) as u16)) != 0
}

/// Setting bit a of a mask leaves every bit b as it was, except bit a
/// itself, which is now set.
proof fn lemma_mask_or_bit(m: u16, a: u16, b: u16)
    by (bit_vector)
    requires
        a < 16,
        b < 16,
    ensures
        ((m | (1u16 << a)) & (1u16 << b) != 0) == ((m & (1u16 << b) != 0) || a == b),
{
}

/// The empty mask records no digit.
proof fn lemma_mask_empty(b: u16)
    by (bit_vector)
    ensures
        0u16 & (1u16 << b) == 0,
{
}

/// Bit n of the combined candidate mask is set exactly when bit n is
/// clear in all three occupancy masks.
proof fn lemma_possible_bit(m1: u16, m2: u16, m3: u16, n: u16)
    by (bit_vector)
    requires
        n < 9,
    ensures
        ((!(m1 ^ 0b1111_1110_0000_0000u16) & !(m2 ^ 0b1111_1110_0000_0000u16) & !(m3
            ^ 0b1111_1110_0000_0000u16)) & (1u16 << n) != 0) == ((m1 & (1u16 << n) == 0) && (m2 & (
        1u16 << n) == 0) && (m3 & (1u16 << n) == 0)),
{
}

/// Declares nalgebra's `Matrix` so that a 9-by-9 byte matrix can back the
/// board; the value is opaque, `grid_seq` names its contents.
#[verifier::external_type_specification]
#[verifier::external_body]
#[verifier::reject_recursive_types(T)]
#[verifier::reject_recursive_types(R)]
#[verifier::reject_recursive_types(C)]
#[verifier::reject_recursive_types(S)]
pub struct ExMatrix<T, R, C, S>(nalgebra::Matrix<T, R, C, S>);

/// Declares nalgebra's type-level dimension `Const`, a generic argument
/// of the statically sized matrix.
#[verifier::external_type_specification]
#[verifier::external_body]
pub struct ExConst<const R: usize>(nalgebra::Const<R>);

/// Declares nalgebra's `ArrayStorage`, the buffer of a statically sized
/// matrix.
#[verifier::external_type_specification]
#[verifier::external_body]
#[verifier::reject_recursive_types(T)]
pub struct ExArrayStorage<T, const R: usize, const C: usize>(nalgebra::ArrayStorage<T, R, C>);

/// The contents of the backing matrix, as the row-major sequence of its
/// 81 cells.
pub uninterp spec fn grid_seq(g: nalgebra::SMatrix<u8, 9, 9>) -> Seq<u8>;

/// Relies on nalgebra's `SMatrix::from_row_iterator`, which fills the
/// 9-by-9 matrix from the iterator in row-major order (element k goes to
/// row k / 9, column k % 9) and panics when the iterator yields fewer
/// than 81 elements.
#[verifier::external_body]
fn grid_from_cells(v: Vec<u8>) -> (g: nalgebra::SMatrix<u8, 9, 9>)
    requires
        v@.len() == 81,
    ensures
        grid_seq(g) == v@,
{
    nalgebra::SMatrix::from_row_iterator(v.into_iter())
}

/// Relies on nalgebra's `Matrix::get` with a (row, column) pair: `Some`
/// of the addressed cell when both coordinates are in bounds, `None`
/// otherwise.
#[verifier::external_body]
fn grid_get(g: &nalgebra::SMatrix<u8, 9, 9>, y: usize, x: usize) -> (r: Option<u8>)
    ensures
        r == (if y < 9 && x < 9 {
            Some(grid_seq(*g)[y as int * 9 + x as int])
        } else {
            None::<u8>
        }),
{
    g.get((y, x)).copied()
}

/// Relies on nalgebra's `IndexMut` for (row, column) pairs: writes the one
/// addressed cell and leaves every other cell unchanged.
#[verifier::external_body]
fn grid_set(g: &mut nalgebra::SMatrix<u8, 9, 9>, y: usize, x: usize, d: u8)
    requires
        y < 9,
        x < 9,
    ensures
        grid_seq(*final(g)) == grid_seq(*old(g)).update(y as int * 9 + x as int, d),
{
    g[(y, x)] = d;
}

/// A 9-by-9 Sudoku board: 81 cells in row-major order, each 0 (empty)
/// or a digit 1..=9.
#[derive(Clone, Copy)]
pub struct Board {
    grid: nalgebra::SMatrix<u8, 9, 9>,
}

impl View for Board {
    type V = Seq<u8>;

    closed spec fn view(&self) -> Seq<u8> {
        grid_seq(self.grid)
    }
}

impl Board {
    /// The board holds exactly 81 cells, each a value 0..=9.
    pub open spec fn wf(&self) -> bool {
        self@.len() == 81 && forall|i: int| 0 <= i < 81 ==> self@[i] <= 9
    }

    /// Builds a board from exactly 81 cell values, each 0 (empty) or a
    /// digit 1..=9. Rejects any other length, and the first value above 9.
    pub fn new(b: Vec<u8>) -> (r: Result<Board, BoardError>)
        ensures
            b@.len() != 81 ==> r == Err::<Board, BoardError>(BoardError::InvalidLength(b@.len() as usize)),
            b@.len() == 81 && (forall|i: int| 0 <= i < 81 ==> b@[i] <= 9)
                ==> (r matches Ok(g) && g@ == b@ && g.wf()),
            b@.len() == 81 && !(forall|i: int| 0 <= i < 81 ==> b@[i] <= 9)
                ==> (exists|i: int|
                    0 <= i < 81 && b@[i] > 9 && (forall|j: int| 0 <= j < i ==> b@[j] <= 9)
                        && r == Err::<Board, BoardError>(BoardError::InvalidDigit(b@[i]))),
    {
        if b.len() != 81 {
            return Err(BoardError::InvalidLength(b.len()));
        }
        let mut i: usize = 0;
        while i < 81
            invariant
                b@.len() == 81,
                i <= 81,
                forall|j: int| 0 <= j < i ==> b@[j] <= 9,
            decreases 81 - i,
        {
            if b[i] > 9 {
                return Err(BoardError::InvalidDigit(b[i]));
            }
            i += 1;
        }
        Ok(Board { grid: grid_from_cells(b) })
    }

    /// Reads the cell at (row y, column x): `Some` when both coordinates
    /// are in 0..=8, `None` otherwise.
    pub fn get(&self, y: usize, x: usize) -> (r: Option<u8>)
        ensures
            y < 9 && x < 9 ==> r == Some(self@[y as int * 9 + x as int]),
            !(y < 9 && x < 9) ==> r is None,
    {
        grid_get(&self.grid, y, x)
    }

    /// Reads an in-bounds cell directly.
    fn at(&self, y: usize, x: usize) -> (d: u8)
        requires
            y < 9,
            x < 9,
        ensures
            d == self@[y as int * 9 + x as int],
    {
        match grid_get(&self.grid, y, x) {
            Some(v) => v,
            None => 0,
        }
    }

    /// Computes the digits that can be placed at (row y, column x): those
    /// in 1..=9 that are present nowhere in row y, column x, or the
    /// containing 3-by-3 box, in ascending order. A digit already fixed
    /// elsewhere in one of the three groups is never returned.
    pub fn possible_inputs(&self, y: usize, x: usize) -> (r: Vec<u8>)
        requires
            self.wf(),
            y < 9,
            x < 9,
        ensures
            forall|k1: int, k2: int| 0 <= k1 < k2 < r@.len() ==> r@[k1] < r@[k2],
            forall|k: int| 0 <= k < r@.len() ==> 1 <= #[trigger] r@[k] <= 9,
            forall|d: u8|
                1 <= d <= 9
                    ==> (#[trigger] r@.contains(d) <==> !digit_in_row(self@, y as int, d)
                        && !digit_in_col(self@, x as int, d)
                        && !digit_in_box(self@, y as int, x as int, d)),
    {
        // Take all the digits used in the row, the column, and the box, and
        // return the ones whose bit is clear in all three masks.
        let (s1, s2, s3) = self.sums(y, x);
        let zero: u16 = 0b1111_1110_0000_0000;
        let possible: u16 = !(s1 ^ zero) & !(s2 ^ zero) & !(s3 ^ zero);
        let ghost free: spec_fn(u8) -> bool = |d: u8|
            !mask_has(s1, d) && !mask_has(s2, d) && !mask_has(s3, d);
        let mut r: Vec<u8> = Vec::new();
        // The bitmap is 0-based but the digits are 1-based.
        let mut n: u8 = 0;
        while n < 9
            invariant
                n <= 9,
                possible == !(s1 ^ 0b1111_1110_0000_0000u16) & !(s2 ^ 0b1111_1110_0000_0000u16)
                    & !(s3 ^ 0b1111_1110_0000_0000u16),
                free == (|d: u8| !mask_has(s1, d) && !mask_has(s2, d) && !mask_has(s3, d)),
                forall|k: int| 0 <= k < r@.len() ==> 1 <= #[trigger] r@[k] <= n,
                forall|k1: int, k2: int| 0 <= k1 < k2 < r@.len() ==> r@[k1] < r@[k2],
                forall|d: u8| 1 <= d <= n ==> (#[trigger] r@.contains(d) <==> free(d)),
            decreases 9 - n,
        {
            let ghost prev = r@;
            if possible & (1u16 << (n as u16)) != 0 {
                r.push(n + 1);
            }
            proof {
                lemma_possible_bit(s1, s2, s3, n as u16);
                assert(mask_has(s1, (n + 1) as u8) == (s1 & (1u16 << (n as u16)) != 0));
                assert forall|d: u8| 1 <= d <= n + 1 implies
                    (#[trigger] r@.contains(d) <==> free(d)) by {
                    if d <= n {
                        if prev.contains(d) {
                            let k = choose|k: int| 0 <= k < prev.len() && prev[k] == d;
                            assert(r@[k] == d);
                        }
                        if r@.contains(d) {
                            let k = choose|k: int| 0 <= k < r@.len() && r@[k] == d;
                            assert(prev[k] == d);
                        }
                    } else {
                        if r@.len() > prev.len() {
                            assert(r@[r@.len() - 1] == n + 1);
                        }
                        if r@.contains(d) {
                            let k = choose|k: int| 0 <= k < r@.len() && r@[k] == d;
                            assert(k == r@.len() - 1);
                        }
                    }
                }
            }
            n += 1;
        }
        r
    }

    /// Calculates the row, column, and box occupancy masks, in that order:
    /// bit n of a mask is set exactly when digit n + 1 is present in the
    /// group. An empty cell sets no bit.
    fn sums(&self, y: usize, x: usize) -> (r: (u16, u16, u16))
        requires
            self.wf(),
            y < 9,
            x < 9,
        ensures
            forall|d: u8|
                1 <= d <= 9 ==> (#[trigger] mask_has(r.0, d) <==> digit_in_row(self@, y as int, d)),
            forall|d: u8|
                1 <= d <= 9 ==> (#[trigger] mask_has(r.1, d) <==> digit_in_col(self@, x as int, d)),
            forall|d: u8|
                1 <= d <= 9
                    ==> (#[trigger] mask_has(r.2, d) <==> digit_in_box(
                    self@,
                    y as int,
                    x as int,
                    d,
                )),
    {
        proof {
            assert forall|d: u8| 1 <= d <= 9 implies !mask_has(0u16, d) by {
                lemma_mask_empty((d - 1) as u16);
            }
        }
        let mut s1: u16 = 0;
        let mut k: usize = 0;
        while k < 9
            invariant
                self.wf(),
                y < 9,
                x < 9,
                k <= 9,
                forall|d: u8|
                    1 <= d <= 9 ==> (#[trigger] mask_has(s1, d) <==> exists|c: int|
                        0 <= c < k && #[trigger] self@[y as int * 9 + c] == d),
            decreases 9 - k,
        {
            let d0 = self.at(y, k);
            if d0 != 0 {
                let ghost old_s1 = s1;
                s1 = s1 | (1u16 << ((d0 - 1) as u16));
                proof {
                    assert forall|d: u8| 1 <= d <= 9 implies
                        (#[trigger] mask_has(s1, d) <==> (mask_has(old_s1, d) || d == d0)) by {
                        lemma_mask_or_bit(old_s1, (d0 - 1) as u16, (d - 1) as u16);
                    }
                }
            }
            k += 1;
        }
        let mut s2: u16 = 0;
        k = 0;
        while k < 9
            invariant
                self.wf(),
                y < 9,
                x < 9,
                k <= 9,
                forall|d: u8|
                    1 <= d <= 9 ==> (#[trigger] mask_has(s2, d) <==> exists|c: int|
                        0 <= c < k && #[trigger] self@[c * 9 + x as int] == d),
            decreases 9 - k,
        {
            let d0 = self.at(k, x);
            if d0 != 0 {
                let ghost old_s2 = s2;
                s2 = s2 | (1u16 << ((d0 - 1) as u16));
                proof {
                    assert forall|d: u8| 1 <= d <= 9 implies
                        (#[trigger] mask_has(s2, d) <==> (mask_has(old_s2, d) || d == d0)) by {
                        lemma_mask_or_bit(old_s2, (d0 - 1) as u16, (d - 1) as u16);
                    }
                }
            }
            k += 1;
        }
        let by0 = y / 3 * 3;
        let bx0 = x / 3 * 3;
        let mut s3: u16 = 0;
        k = 0;
        while k < 9
            invariant
                self.wf(),
                y < 9,
                x < 9,
                by0 == 3 * (y as int / 3),
                bx0 == 3 * (x as int / 3),
                k <= 9,
                forall|d: u8|
                    1 <= d <= 9 ==> (#[trigger] mask_has(s3, d) <==> exists|a: int, b: int|
                        0 <= a < 3 && 0 <= b < 3 && a * 3 + b < k && #[trigger] self@[(by0 + a) * 9
                            + (bx0 + b)] == d),
            decreases 9 - k,
        {
            let a0 = k / 3;
            let b0 = k % 3;
            proof {
                vstd::arithmetic::div_mod::lemma_fundamental_div_mod(k as int, 3);
            }
            let d0 = self.at(by0 + a0, bx0 + b0);
            let ghost old_s3 = s3;
            if d0 != 0 {
                s3 = s3 | (1u16 << ((d0 - 1) as u16));
                proof {
                    assert forall|d: u8| 1 <= d <= 9 implies
                        (#[trigger] mask_has(s3, d) <==> (mask_has(old_s3, d) || d == d0)) by {
                        lemma_mask_or_bit(old_s3, (d0 - 1) as u16, (d - 1) as u16);
                    }
                }
            }
            proof {
                assert forall|d: u8| 1 <= d <= 9 implies
                    (#[trigger] mask_has(s3, d) <==> exists|a: int, b: int|
                        0 <= a < 3 && 0 <= b < 3 && a * 3 + b < k + 1 && #[trigger] self@[(by0
                            + a) * 9 + (bx0 + b)] == d) by {
                    if mask_has(s3, d) {
                        if mask_has(old_s3, d) || d0 == 0 {
                        } else {
                            assert(self@[(by0 + a0 as int) * 9 + (bx0 + b0 as int)] == d0);
                            assert((a0 as int) * 3 + (b0 as int) < k as int + 1);
                        }
                    }
                }
            }
            k += 1;
        }
        proof {
            assert forall|d: u8| 1 <= d <= 9 implies
                (mask_has(s3, d) <==> digit_in_box(self@, y as int, x as int, d)) by {
                assert(forall|a: int, b: int| 0 <= a < 3 && 0 <= b < 3 ==> #[trigger] (a * 3 + b) < 9);
            }
        }
        (s1, s2, s3)
    }

    /// Overwrites the cell at (row y, column x) with d. Out-of-range
    /// coordinates or values are precondition violations, never met by
    /// the search.
    pub fn set(&mut self, y: usize, x: usize, d: u8)
        requires
            old(self).wf(),
            y < 9,
            x < 9,
            d <= 9,
        ensures
            final(self).wf(),
            final(self)@ == old(self)@.update(y as int * 9 + x as int, d),
    {
        grid_set(&mut self.grid, y, x, d);
    }
}

/// The cell value a character stands for: '_' and '0' are the empty
/// cell, '1' to '9' their digit, anything else no cell at all.
pub open spec fn char_cell(c: char) -> Option<u8> {
    match c {
        '_' => Some(0u8),
        '0' => Some(0u8),
        '1' => Some(1u8),
        '2' => Some(2u8),
        '3' => Some(3u8),
        '4' => Some(4u8),
        '5' => Some(5u8),
        '6' => Some(6u8),
        '7' => Some(7u8),
        '8' => Some(8u8),
        '9' => Some(9u8),
        _ => None,
    }
}

/// The cell values found in a character sequence, in order.
pub open spec fn filter_cells(s: Seq<char>) -> Seq<u8>
    decreases s.len(),
{
    if s.len() == 0 {
        Seq::empty()
    } else {
        match char_cell(s.last()) {
            Some(d) => filter_cells(s.drop_last()).push(d),
            None => filter_cells(s.drop_last()),
        }
    }
}

/// A character with the Unicode White_Space property.
pub uninterp spec fn white(c: char) -> bool;

/// Relies on char::is_whitespace: true exactly for the characters with
/// the Unicode White_Space property, which no ASCII digit and no '_' has.
#[verifier::external_body]
fn is_whitespace_char(c: char) -> (r: bool)
    ensures
        r == white(c),
        r ==> char_cell(c) is None,
{
    c.is_whitespace()
}

/// Nothing but whitespace: the input that parsing rejects as empty.
pub open spec fn blank_input(s: Seq<char>) -> bool {
    forall|j: int| 0 <= j < s.len() ==> char_cell(#[trigger] s[j]) is None && white(s[j])
}

/// Maps one character to the cell it stands for.
fn cell_of_char(c: char) -> (r: Option<u8>)
    ensures
        r == char_cell(c),
{
    match c {
        '_' => Some(0),
        '0' => Some(0),
        '1' => Some(1),
        '2' => Some(2),
        '3' => Some(3),
        '4' => Some(4),
        '5' => Some(5),
        '6' => Some(6),
        '7' => Some(7),
        '8' => Some(8),
        '9' => Some(9),
        _ => None,
    }
}

/// The one-line character for a cell: '_' for empty, the digit otherwise.
pub open spec fn cell_char(d: u8) -> char {
    match d {
        0u8 => '_',
        1u8 => '1',
        2u8 => '2',
        3u8 => '3',
        4u8 => '4',
        5u8 => '5',
        6u8 => '6',
        7u8 => '7',
        8u8 => '8',
        9u8 => '9',
        _ => '?',
    }
}

/// The compact one-line rendering of a grid: one character per cell.
pub open spec fn line_chars(s: Seq<u8>) -> Seq<char> {
    Seq::new(s.len(), |i: int| cell_char(s[i]))
}

/// Splits a cell index 0..81 into its row and column.
pub proof fn lemma_index_split(i: int)
    requires
        0 <= i < 81,
    ensures
        0 <= i / 9 < 9,
        0 <= i % 9 < 9,
        i == (i / 9) * 9 + (i % 9),
{
    vstd::arithmetic::div_mod::lemma_fundamental_div_mod(i, 9);
    vstd::arithmetic::div_mod::lemma_mod_bound(i, 9);
}

/// Each prefix of the one-line rendering parses back to the same prefix
/// of the cells.
proof fn lemma_line_prefix(s: Seq<u8>, n: int)
    requires
        0 <= n <= s.len(),
        forall|i: int| 0 <= i < s.len() ==> s[i] <= 9,
    ensures
        filter_cells(line_chars(s).take(n)) == s.take(n),
    decreases n,
{
    if n == 0 {
        assert(line_chars(s).take(0) =~= Seq::<char>::empty());
        assert(s.take(0) =~= Seq::<u8>::empty());
    } else {
        lemma_line_prefix(s, n - 1);
        let t = line_chars(s).take(n);
        assert(t.drop_last() =~= line_chars(s).take(n - 1));
        assert(t.last() == cell_char(s[n - 1]));
        assert(char_cell(cell_char(s[n - 1])) == Some(s[n - 1]));
        assert(s.take(n) =~= s.take(n - 1).push(s[n - 1]));
    }
}

/// Round trip: parsing the compact one-line rendering of a well-formed
/// grid yields a cell sequence equal to the original, and such a line is
/// never blank input.
pub proof fn lemma_line_round_trip(s: Seq<u8>)
    requires
        s.len() == 81,
        forall|i: int| 0 <= i < 81 ==> s[i] <= 9,
    ensures
        filter_cells(line_chars(s)) == s,
        !blank_input(line_chars(s)),
{
    lemma_line_prefix(s, 81);
    assert(line_chars(s).take(81) =~= line_chars(s));
    assert(s.take(81) =~= s);
    assert(!blank_input(line_chars(s))) by {
        if blank_input(line_chars(s)) {
            assert(char_cell(line_chars(s)[0]) is None);
        }
    }
}

/// The two characters printed for one cell: the digit and a space, or
/// two spaces for an empty cell.
pub open spec fn cell_text(d: u8) -> Seq<char> {
    if d == 0 {
        "  "@
    } else {
        digit_text(d)
    }
}

/// The digit-and-space text for a filled cell.
pub open spec fn digit_text(d: u8) -> Seq<char> {
    match d {
        1u8 => "1 "@,
        2u8 => "2 "@,
        3u8 => "3 "@,
        4u8 => "4 "@,
        5u8 => "5 "@,
        6u8 => "6 "@,
        7u8 => "7 "@,
        8u8 => "8 "@,
        9u8 => "9 "@,
        _ => ""@,
    }
}

/// The separator printed after a column: a vertical bar after columns 2
/// and 5, nothing elsewhere.
pub open spec fn col_sep(x: int) -> Seq<char> {
    if x == 2 || x == 5 {
        "| "@
    } else {
        Seq::empty()
    }
}

/// The rule printed below rows 2 and 5, nothing elsewhere.
pub open spec fn row_sep(y: int) -> Seq<char> {
    if y == 2 || y == 5 {
        "- - - + - - - + - - - \n"@
    } else {
        Seq::empty()
    }
}

/// The first x cells of row y, as printed.
pub open spec fn display_row(s: Seq<u8>, y: int, x: int) -> Seq<char>
    decreases x,
{
    if x <= 0 {
        Seq::empty()
    } else {
        display_row(s, y, x - 1) + cell_text(s[y * 9 + (x - 1)]) + col_sep(x - 1)
    }
}

/// The first y rows of the grid, as printed.
pub open spec fn display_rows(s: Seq<u8>, y: int) -> Seq<char>
    decreases y,
{
    if y <= 0 {
        Seq::empty()
    } else {
        display_rows(s, y - 1) + display_row(s, y - 1, 9) + "\n"@ + row_sep(y - 1)
    }
}

/// The full human-readable rendering of the grid: nine rows with
/// vertical separators after columns 2 and 5, a horizontal rule after
/// rows 2 and 5, and a closing blank line.
pub open spec fn display_chars(s: Seq<u8>) -> Seq<char> {
    display_rows(s, 9) + "\n"@
}

impl Board {
    /// Parses a board from free-form text: whitespace is ignored, '_'
    /// and '0' mark an empty cell, '1' to '9' a filled one, and every
    /// other character is discarded. Exactly 81 cells must remain.
    pub fn from_str(s: &str) -> (r: Result<Board, BoardParseError>)
        ensures
            r == Err::<Board, BoardParseError>(BoardParseError::EmptyInput) <==> blank_input(s@),
            r == Err::<Board, BoardParseError>(BoardParseError::NotEnoughCells) <==> (!blank_input(
                s@,
            ) && filter_cells(s@).len() < 81),
            r == Err::<Board, BoardParseError>(BoardParseError::TooManyCells) <==> filter_cells(
                s@,
            ).len() > 81,
            !blank_input(s@) && filter_cells(s@).len() == 81 ==> (r matches Ok(g) && g@
                == filter_cells(s@) && g.wf()),
    {
        let len = s.unicode_len();
        let mut v: Vec<u8> = Vec::new();
        let mut content = false;
        let mut i: usize = 0;
        while i < len
            invariant
                len == s@.len(),
                i <= len,
                v@ == filter_cells(s@.take(i as int)),
                content == !(forall|j: int|
                    0 <= j < i ==> char_cell(#[trigger] s@[j]) is None && white(s@[j])),
                !content ==> v@.len() == 0,
                forall|k: int| 0 <= k < v@.len() ==> #[trigger] v@[k] <= 9,
            decreases len - i,
        {
            let c = s.get_char(i);
            proof {
                assert(s@.take(i as int + 1).drop_last() =~= s@.take(i as int));
                assert(s@.take(i as int + 1).last() == s@[i as int]);
            }
            match cell_of_char(c) {
                Some(d) => {
                    v.push(d);
                    content = true;
                },
                None => {
                    if !is_whitespace_char(c) {
                        content = true;
                    }
                },
            }
            i += 1;
        }
        proof {
            assert(s@.take(len as int) =~= s@);
        }
        if !content {
            return Err(BoardParseError::EmptyInput);
        }
        if v.len() < 81 {
            return Err(BoardParseError::NotEnoughCells);
        }
        if v.len() > 81 {
            return Err(BoardParseError::TooManyCells);
        }
        match Board::new(v) {
            Ok(b) => Ok(b),
            Err(e) => Err(BoardParseError::InvalidBoard(e)),
        }
    }

    /// Renders the board as its compact one-line form: one character per
    /// cell in row-major order, '_' for an empty cell. Parsing this line
    /// reconstructs the board.
    pub fn to_line(&self) -> (r: String)
        requires
            self.wf(),
        ensures
            r@ == line_chars(self@),
    {
        let mut out = String::new();
        let mut i: usize = 0;
        while i < 81
            invariant
                self.wf(),
                i <= 81,
                out@ == line_chars(self@.take(i as int)),
            decreases 81 - i,
        {
            proof {
                lemma_index_split(i as int);
            }
            let d = self.at(i / 9, i % 9);
            match d {
                0 => {
                    out.append("_");
                    proof {
                        reveal_strlit("_");
                        assert("_"@ =~= seq!['_']);
                    }
                },
                1 => {
                    out.append("1");
                    proof {
                        reveal_strlit("1");
                        assert("1"@ =~= seq!['1']);
                    }
                },
                2 => {
                    out.append("2");
                    proof {
                        reveal_strlit("2");
                        assert("2"@ =~= seq!['2']);
                    }
                },
                3 => {
                    out.append("3");
                    proof {
                        reveal_strlit("3");
                        assert("3"@ =~= seq!['3']);
                    }
                },
                4 => {
                    out.append("4");
                    proof {
                        reveal_strlit("4");
                        assert("4"@ =~= seq!['4']);
                    }
                },
                5 => {
                    out.append("5");
                    proof {
                        reveal_strlit("5");
                        assert("5"@ =~= seq!['5']);
                    }
                },
                6 => {
                    out.append("6");
                    proof {
                        reveal_strlit("6");
                        assert("6"@ =~= seq!['6']);
                    }
                },
                7 => {
                    out.append("7");
                    proof {
                        reveal_strlit("7");
                        assert("7"@ =~= seq!['7']);
                    }
                },
                8 => {
                    out.append("8");
                    proof {
                        reveal_strlit("8");
                        assert("8"@ =~= seq!['8']);
                    }
                },
                _ => {
                    out.append("9");
                    proof {
                        reveal_strlit("9");
                        assert(d == 9);
                        assert("9"@ =~= seq!['9']);
                    }
                },
            }
            proof {
                assert(out@ =~= line_chars(self@.take(i as int + 1)));
            }
            i += 1;
        }
        proof {
            assert(self@.take(81) =~= self@);
        }
        out
    }

    /// Renders the board in the fixed human-readable layout: a space for
    /// each empty cell, one digit per filled cell, vertical separators
    /// after columns 2 and 5, and a horizontal rule after rows 2 and 5.
    pub fn to_display_string(&self) -> (r: String)
        requires
            self.wf(),
        ensures
            r@ == display_chars(self@),
    {
        let mut out = String::new();
        let mut y: usize = 0;
        while y < 9
            invariant
                self.wf(),
                y <= 9,
                out@ == display_rows(self@, y as int),
            decreases 9 - y,
        {
            let mut x: usize = 0;
            proof {
                assert(out@ =~= display_rows(self@, y as int) + display_row(self@, y as int, 0));
            }
            while x < 9
                invariant
                    self.wf(),
                    y < 9,
                    x <= 9,
                    out@ == display_rows(self@, y as int) + display_row(
                        self@,
                        y as int,
                        x as int,
                    ),
                decreases 9 - x,
            {
                let d = self.at(y, x);
                if d == 0 {
                    out.append("  ");
                } else {
                    match d {
                        1 => out.append("1 "),
                        2 => out.append("2 "),
                        3 => out.append("3 "),
                        4 => out.append("4 "),
                        5 => out.append("5 "),
                        6 => out.append("6 "),
                        7 => out.append("7 "),
                        8 => out.append("8 "),
                        _ => {
                            proof {
                                assert(d == 9);
                            }
                            out.append("9 ");
                        },
                    }
                }
                if x == 2 || x == 5 {
                    out.append("| ");
                }
                proof {
                    assert(out@ =~= display_rows(self@, y as int) + display_row(
                        self@,
                        y as int,
                        x as int + 1,
                    ));
                }
                x += 1;
            }
            out.append("\n");
            if y == 2 || y == 5 {
                out.append("- - - + - - - + - - - \n");
            }
            proof {
                assert(out@ =~= display_rows(self@, y as int + 1));
            }
            y += 1;
        }
        out.append("\n");
        proof {
            assert(out@ =~= display_chars(self@));
        }
        out
    }
}

} // verus!
