//! An engine schematic: a rectangular character grid scanned for part
//! numbers next to symbols and for gear ratios around `*` cells.
use vstd::prelude::*;

verus! {

use crate::grid::Matrix2D;
use crate::text::{parse_u32_spec, seq_views, subrange_vec};

/// Whether `char::is_alphanumeric` holds of `c` (a Unicode alphabetic or
/// numeric character); left uninterpreted beyond what the wrapper below
/// states.
pub uninterp spec fn is_alphanumeric_char(c: char) -> bool;

/// Relies on `char::is_alphanumeric`: the result depends on the
/// character alone, and on ASCII characters it holds exactly of the
/// letters and the decimal digits.
#[verifier::external_body]
pub(crate) fn char_is_alphanumeric(c: char) -> (r: bool)
    ensures
        r == is_alphanumeric_char(c),
        (c as u32) < 128 ==> r == (('0' <= c && c <= '9') || ('a' <= c && c <= 'z') || ('A' <= c
            && c <= 'Z')),
{
    c.is_alphanumeric()
}

/// The number of rows of a grid.
pub open spec fn grid_rows(g: Seq<Seq<char>>) -> int {
    g.len() as int
}

/// The number of columns of a grid, read off its first row.
pub open spec fn grid_cols(g: Seq<Seq<char>>) -> int {
    if g.len() > 0 {
        g[0].len() as int
    } else {
        0
    }
}

/// How a possibly negative index is adjusted before the bounds check:
/// a negative `x` becomes `dim - x`, which always lies past the end.
pub open spec fn adjust_index(x: int, dim: int) -> int {
    if x < 0 {
        dim - x
    } else {
        x
    }
}

/// The cell at `(row, col)` after index adjustment, if it is in range.
pub open spec fn spec_get(g: Seq<Seq<char>>, row: int, col: int) -> Option<char> {
    let r = adjust_index(row, grid_rows(g));
    let c = adjust_index(col, grid_cols(g));
    if r < grid_rows(g) && c < grid_cols(g) {
        Some(g[r][c])
    } else {
        None
    }
}

/// Whether the cell at `(row, col)` exists and is alphanumeric.
pub open spec fn spec_is_number(g: Seq<Seq<char>>, row: int, col: int) -> bool {
    match spec_get(g, row, col) {
        Some(c) => is_alphanumeric_char(c),
        None => false,
    }
}

/// The left end of the run of alphanumeric cells around column `col`.
pub open spec fn span_start(g: Seq<Seq<char>>, row: int, col: int) -> int
    decreases col,
    when 0 <= col
{
    if col > 0 && spec_is_number(g, row, col - 1) {
        span_start(g, row, col - 1)
    } else {
        col
    }
}

/// The right end of the run of alphanumeric cells around column `col`.
pub open spec fn span_end(g: Seq<Seq<char>>, row: int, col: int) -> int
    decreases grid_cols(g) - col,
    when col < grid_cols(g)
{
    if spec_is_number(g, row, col + 1) {
        span_end(g, row, col + 1)
    } else {
        col
    }
}

/// The number read around `(row, col)`: the run of alphanumeric cells
/// there, parsed as a `u32`; nothing where the cell is out of range or
/// the run does not parse.
pub open spec fn spec_number_at(g: Seq<Seq<char>>, row: int, col: int) -> Option<u32> {
    if spec_get(g, row, col) is None {
        None
    } else {
        let r = adjust_index(row, grid_rows(g));
        let c = adjust_index(col, grid_cols(g));
        let ls = span_start(g, r, c);
        let le = span_end(g, r, c);
        parse_u32_spec(g[r].subrange(ls, le + 1))
    }
}

/// The grid with the run of cells around `(row, col)` overwritten by `.`.
pub open spec fn spec_delete(g: Seq<Seq<char>>, row: int, col: int) -> Seq<Seq<char>> {
    let ls = span_start(g, row, col);
    let le = span_end(g, row, col);
    g.update(
        row,
        Seq::new(
            g[row].len(),
            |j: int|
                if ls <= j && j <= le {
                    '.'
                } else {
                    g[row][j]
                },
        ),
    )
}

/// The grid and value after reading and erasing the number at
/// `(row, col)`: the parsed value with its cells dotted out, or the
/// grid unchanged and zero where no number parses there.
pub open spec fn spec_gad(g: Seq<Seq<char>>, row: int, col: int) -> (Seq<Seq<char>>, u32) {
    match spec_number_at(g, row, col) {
        Some(n) => (spec_delete(g, row, col), n),
        None => (g, 0u32),
    }
}

/// A character grid with cached dimensions, scanned for part numbers.
pub struct EngineSchematic {
    pub rows: usize,
    pub cols: usize,
    pub matrix: Matrix2D,
}

impl View for EngineSchematic {
    type V = Seq<Seq<char>>;

    open spec fn view(&self) -> Seq<Seq<char>> {
        self.matrix@
    }
}

impl EngineSchematic {
    /// The cached dimensions match the grid, the grid is rectangular
    /// and non-empty, and both dimensions fit in an `i16`.
    pub open spec fn wf(&self) -> bool {
        &&& self.rows == self@.len()
        &&& 1 <= self.rows <= i16::MAX
        &&& self.cols == grid_cols(self@)
        &&& self.cols <= i16::MAX
        &&& forall|i: int| 0 <= i < self@.len() ==> (#[trigger] self@[i]).len() == self.cols
    }

    /// The row count, for callers that need the dimensions.
    pub fn row_count(&self) -> (r: usize)
        ensures
            r == self.rows,
    {
        self.rows
    }

    /// The column count, for callers that need the dimensions.
    pub fn col_count(&self) -> (r: usize)
        ensures
            r == self.cols,
    {
        self.cols
    }

    /// Builds a schematic from equally long, non-empty lines.
    pub fn new(schema: Vec<String>) -> (s: EngineSchematic)
        requires
            1 <= schema@.len() <= i16::MAX,
            seq_views(schema@)[0].len() <= i16::MAX,
            forall|i: int| 0 <= i < schema@.len() ==> (#[trigger] seq_views(schema@)[i]).len()
                == seq_views(schema@)[0].len(),
        ensures
            s.wf(),
            s@ == seq_views(schema@),
    {
        let rows = schema.len();
        let cols = schema[0].as_str().unicode_len();
        let matrix = Matrix2D::new(schema);
        let s = EngineSchematic { rows, cols, matrix };
        proof {
            assert(s@[0].len() == cols);
        }
        s
    }

    /// Looks the cell at `(row, col)` up; negative indices are adjusted
    /// past the end of the grid and yield nothing.
    pub fn get(&self, row: i16, col: i16) -> (r: Option<&char>)
        requires
            self.wf(),
        ensures
            match r {
                Some(c) => spec_get(self@, row as int, col as int) == Some(*c),
                None => spec_get(self@, row as int, col as int) is None,
            },
    {
        if row < 0 || col < 0 {
            return None;
        }
        let r = row as usize;
        let c = col as usize;
        if r >= self.rows || c >= self.cols {
            return None;
        }
        let row_ref = &self.matrix.data[r];
        proof {
            assert(self@[r as int] == self.matrix.data@[r as int]@);
        }
        Some(&row_ref[c])
    }

    /// Whether the cell at `(row, col)` exists and is alphanumeric.
    pub fn is_number(&self, row: i16, col: i16) -> (r: bool)
        requires
            self.wf(),
        ensures
            r == spec_is_number(self@, row as int, col as int),
    {
        match self.get(row, col) {
            Some(c) => char_is_alphanumeric(*c),
            None => false,
        }
    }

    /// The left end of the alphanumeric run around `(row, col)`.
    fn find_span_start(&self, row: i16, col: usize) -> (r: usize)
        requires
            self.wf(),
            0 <= row < self.rows,
            col < self.cols,
        ensures
            r == span_start(self@, row as int, col as int),
            r <= col,
    {
        let mut start: usize = col;
        while start > 0 && self.is_number(row, (start - 1) as i16)
            invariant
                self.wf(),
                0 <= row < self.rows,
                start <= col < self.cols,
                span_start(self@, row as int, col as int) == span_start(
                    self@,
                    row as int,
                    start as int,
                ),
            decreases start,
        {
            start = start - 1;
        }
        start
    }

    /// The right end of the alphanumeric run around `(row, col)`.
    fn find_span_end(&self, row: i16, col: usize) -> (r: usize)
        requires
            self.wf(),
            0 <= row < self.rows,
            col < self.cols,
        ensures
            r == span_end(self@, row as int, col as int),
            col <= r < self.cols,
    {
        let mut end: usize = col;
        while end < self.cols && self.is_number(row, (end + 1) as i16)
            invariant
                self.wf(),
                0 <= row < self.rows,
                col <= end < self.cols,
                span_end(self@, row as int, col as int) == span_end(
                    self@,
                    row as int,
                    end as int,
                ),
            decreases self.cols - end,
        {
            end = end + 1;
        }
        end
    }

    /// Reads the number around `(row, col)`, if the cell exists and its
    /// alphanumeric run parses as a `u32`.
    pub fn get_number(&self, row: i16, col: i16) -> (r: Option<u32>)
        requires
            self.wf(),
        ensures
            r == spec_number_at(self@, row as int, col as int),
    {
        match self.get(row, col) {
            None => None,
            Some(_) => {
                proof {
                    assert(row >= 0 && col >= 0);
                }
                let start = self.find_span_start(row, col as usize);
                let end = self.find_span_end(row, col as usize);
                let row_ref = &self.matrix.data[row as usize];
                proof {
                    assert(self@[row as int] == self.matrix.data@[row as int]@);
                }
                let digits = subrange_vec(row_ref, start, end + 1);
                crate::text::parse_u32_chars(&digits)
            },
        }
    }

    /// Erases the alphanumeric run around `(row, col)`, overwriting it
    /// with `.` cells.
    pub fn delete_number(&mut self, row: i16, col: i16)
        requires
            old(self).wf(),
            0 <= row < old(self).rows,
            0 <= col < old(self).cols,
        ensures
            final(self).wf(),
            final(self)@ == spec_delete(old(self)@, row as int, col as int),
            final(self).rows == old(self).rows,
            final(self).cols == old(self).cols,
    {
        let ghost g0 = self@;
        let start = self.find_span_start(row, col as usize);
        let end = self.find_span_end(row, col as usize);
        let rowu = row as usize;
        let cols = self.cols;
        let mut newrow: Vec<char> = Vec::new();
        let mut j: usize = 0;
        while j < cols
            invariant
                j <= cols,
                self.wf(),
                self@ == g0,
                cols == self.cols,
                rowu < self.rows,
                newrow@.len() == j,
                forall|k: int| 0 <= k < j ==> #[trigger] newrow@[k] == (if start <= k && k
                    <= end {
                    '.'
                } else {
                    g0[rowu as int][k]
                }),
            decreases cols - j,
        {
            proof {
                assert(self@[rowu as int] == self.matrix.data@[rowu as int]@);
            }
            if start <= j && j <= end {
                newrow.push('.');
            } else {
                let row_ref = &self.matrix.data[rowu];
                newrow.push(row_ref[j]);
            }
            j = j + 1;
        }
        self.matrix.data[rowu] = newrow;
        proof {
            assert(self@ =~= seq_views(self.matrix.data@));
            assert(self@ =~~= spec_delete(g0, row as int, col as int));
        }
    }

    /// Reads and erases the number at `(row, col)`; zero where none is.
    pub fn get_and_delete_number(&mut self, row: i16, col: i16) -> (r: u32)
        requires
            old(self).wf(),
        ensures
            final(self).wf(),
            (final(self)@, r) == spec_gad(old(self)@, row as int, col as int),
            final(self).rows == old(self).rows,
            final(self).cols == old(self).cols,
    {
        match self.get_number(row, col) {
            Some(number) => {
                proof {
                    assert(spec_get(old(self)@, row as int, col as int) is Some);
                    assert(row >= 0 && col >= 0);
                }
                self.delete_number(row, col);
                number
            },
            None => 0,
        }
    }
}

} // verus!

verus! {

/// A symbol cell: not a dot and not alphanumeric.
pub open spec fn spec_symbol(c: char) -> bool {
    c != '.' && !is_alphanumeric_char(c)
}

/// Reads and erases the numbers on the eight neighbours of
/// `(row, col)`, in the fixed order the scan visits them, and sums
/// what was read.
pub open spec fn spec_gad8(g: Seq<Seq<char>>, row: int, col: int) -> (Seq<Seq<char>>, int) {
    let s1 = spec_gad(g, row - 1, col - 1);
    let s2 = spec_gad(s1.0, row - 1, col);
    let s3 = spec_gad(s2.0, row - 1, col + 1);
    let s4 = spec_gad(s3.0, row, col - 1);
    let s5 = spec_gad(s4.0, row, col + 1);
    let s6 = spec_gad(s5.0, row + 1, col - 1);
    let s7 = spec_gad(s6.0, row + 1, col);
    let s8 = spec_gad(s7.0, row + 1, col + 1);
    (s8.0, s1.1 + s2.1 + s3.1 + s4.1 + s5.1 + s6.1 + s7.1 + s8.1)
}

/// One cell of the part-number scan: a symbol cell collects its
/// neighbouring numbers, any other cell changes nothing.
pub open spec fn spec_cell_numbers(g: Seq<Seq<char>>, row: int, col: int) -> (
    Seq<Seq<char>>,
    int,
) {
    if spec_symbol(g[row][col]) {
        spec_gad8(g, row, col)
    } else {
        (g, 0)
    }
}

/// The part-number scan from `(row, col)` onward, row-major.
pub open spec fn spec_scan_numbers(
    g: Seq<Seq<char>>,
    rows: int,
    cols: int,
    row: int,
    col: int,
) -> (Seq<Seq<char>>, int)
    decreases rows - row, cols - col,
    when 0 <= row && 0 <= col && 0 <= cols
{
    if row >= rows {
        (g, 0)
    } else if col >= cols {
        spec_scan_numbers(g, rows, cols, row + 1, 0)
    } else {
        let cell = spec_cell_numbers(g, row, col);
        let rest = spec_scan_numbers(cell.0, rows, cols, row, col + 1);
        (rest.0, cell.1 + rest.1)
    }
}

pub proof fn lemma_scan_numbers_nonneg(
    g: Seq<Seq<char>>,
    rows: int,
    cols: int,
    row: int,
    col: int,
)
    requires
        0 <= row,
        0 <= col,
        0 <= cols,
    ensures
        spec_scan_numbers(g, rows, cols, row, col).1 >= 0,
    decreases rows - row, cols - col,
{
    if row >= rows {
    } else if col >= cols {
        lemma_scan_numbers_nonneg(g, rows, cols, row + 1, 0);
    } else {
        let cell = spec_cell_numbers(g, row, col);
        lemma_scan_numbers_nonneg(cell.0, rows, cols, row, col + 1);
    }
}

impl EngineSchematic {
    /// Collects the neighbouring numbers of the symbol at `(row, col)`.
    fn scan_cell_numbers(&mut self, row: usize, col: usize) -> (sum: u32)
        requires
            old(self).wf(),
            row < old(self).rows,
            col < old(self).cols,
            spec_cell_numbers(old(self)@, row as int, col as int).1 <= u32::MAX,
        ensures
            final(self).wf(),
            final(self).rows == old(self).rows,
            final(self).cols == old(self).cols,
            final(self)@ == spec_cell_numbers(old(self)@, row as int, col as int).0,
            sum == spec_cell_numbers(old(self)@, row as int, col as int).1,
    {
        let ghost g0 = self@;
        let r = row as i16;
        let c = col as i16;
        let ch = match self.get(r, c) {
            Some(x) => *x,
            None => {
                proof {
                    assert(false);
                }
                '.'
            },
        };
        if ch != '.' && !char_is_alphanumeric(ch) {
            let v1 = self.get_and_delete_number(r - 1, c - 1);
            let v2 = self.get_and_delete_number(r - 1, c);
            let v3 = self.get_and_delete_number(r - 1, c + 1);
            let v4 = self.get_and_delete_number(r, c - 1);
            let v5 = self.get_and_delete_number(r, c + 1);
            let v6 = self.get_and_delete_number(r + 1, c - 1);
            let v7 = self.get_and_delete_number(r + 1, c);
            let v8 = self.get_and_delete_number(r + 1, c + 1);
            let s12 = v1 + v2;
            let s123 = s12 + v3;
            let s1234 = s123 + v4;
            let s12345 = s1234 + v5;
            let s123456 = s12345 + v6;
            let s1234567 = s123456 + v7;
            s1234567 + v8
        } else {
            0
        }
    }

    /// Sums the numbers adjacent to a symbol, erasing each as it is
    /// read so that none is counted twice.
    pub fn gather_numbers(&mut self) -> (sum: u32)
        requires
            old(self).wf(),
            spec_scan_numbers(
                old(self)@,
                old(self).rows as int,
                old(self).cols as int,
                0,
                0,
            ).1 <= u32::MAX,
        ensures
            final(self).wf(),
            final(self).rows == old(self).rows,
            final(self).cols == old(self).cols,
            final(self)@ == spec_scan_numbers(
                old(self)@,
                old(self).rows as int,
                old(self).cols as int,
                0,
                0,
            ).0,
            sum == spec_scan_numbers(
                old(self)@,
                old(self).rows as int,
                old(self).cols as int,
                0,
                0,
            ).1,
    {
        let ghost g0 = self@;
        let rows = self.rows;
        let cols = self.cols;
        let ghost total = spec_scan_numbers(g0, rows as int, cols as int, 0, 0);
        let mut sum: u32 = 0;
        let mut row: usize = 0;
        while row < rows
            invariant
                self.wf(),
                self.rows == rows,
                self.cols == cols,
                row <= rows,
                total == spec_scan_numbers(g0, rows as int, cols as int, 0, 0),
                total.1 <= u32::MAX,
                total.0 == spec_scan_numbers(self@, rows as int, cols as int, row as int, 0).0,
                total.1 == sum + spec_scan_numbers(
                    self@,
                    rows as int,
                    cols as int,
                    row as int,
                    0,
                ).1,
            decreases rows - row,
        {
            let mut col: usize = 0;
            while col < cols
                invariant
                    self.wf(),
                    self.rows == rows,
                    self.cols == cols,
                    row < rows,
                    col <= cols,
                    total.1 <= u32::MAX,
                    total.0 == spec_scan_numbers(
                        self@,
                        rows as int,
                        cols as int,
                        row as int,
                        col as int,
                    ).0,
                    total.1 == sum + spec_scan_numbers(
                        self@,
                        rows as int,
                        cols as int,
                        row as int,
                        col as int,
                    ).1,
                decreases cols - col,
            {
                let ghost cur = self@;
                let ghost cell = spec_cell_numbers(cur, row as int, col as int);
                proof {
                    lemma_scan_numbers_nonneg(cell.0, rows as int, cols as int, row as int, col + 1);
                }
                let v = self.scan_cell_numbers(row, col);
                sum = sum + v;
                col = col + 1;
            }
            row = row + 1;
        }
        sum
    }
}

} // verus!

verus! {

/// The eight neighbour offsets, in the order the gear scan visits them.
pub open spec fn neighbor_offsets() -> Seq<(int, int)> {
    seq![(-1, -1), (-1, 0), (-1, 1), (0, -1), (0, 1), (1, -1), (1, 0), (1, 1)]
}

/// The gear scan around one `*` cell, from offset `k` onward: reads and
/// erases each neighbouring number; the first two non-zero values are
/// multiplied into `ratio`, later ones are erased but not counted.
pub open spec fn spec_gears(
    g: Seq<Seq<char>>,
    row: int,
    col: int,
    k: int,
    ratio: int,
    ngears: int,
) -> (Seq<Seq<char>>, int, int)
    decreases 8 - k,
    when k <= 8
{
    if k >= 8 {
        (g, ratio, ngears)
    } else {
        let off = neighbor_offsets()[k];
        let s = spec_gad(g, row + off.0, col + off.1);
        if s.1 != 0 && ngears < 2 {
            spec_gears(s.0, row, col, k + 1, ratio * s.1, ngears + 1)
        } else {
            spec_gears(s.0, row, col, k + 1, ratio, ngears)
        }
    }
}

/// Whether every product the gear scan forms fits in a `u32`.
pub open spec fn spec_gears_ok(
    g: Seq<Seq<char>>,
    row: int,
    col: int,
    k: int,
    ratio: int,
    ngears: int,
) -> bool
    decreases 8 - k,
    when k <= 8
{
    if k >= 8 {
        true
    } else {
        let off = neighbor_offsets()[k];
        let s = spec_gad(g, row + off.0, col + off.1);
        if s.1 != 0 && ngears < 2 {
            ratio * s.1 <= u32::MAX && spec_gears_ok(s.0, row, col, k + 1, ratio * s.1, ngears + 1)
        } else {
            spec_gears_ok(s.0, row, col, k + 1, ratio, ngears)
        }
    }
}

/// One cell of the gear scan: a `*` cell contributes its ratio when it
/// has exactly two neighbouring numbers, any other cell changes nothing.
pub open spec fn spec_cell_gears(g: Seq<Seq<char>>, row: int, col: int) -> (Seq<Seq<char>>, int) {
    if g[row][col] == '*' {
        let t = spec_gears(g, row, col, 0, 1, 0);
        (t.0, if t.2 == 2 {
            t.1
        } else {
            0
        })
    } else {
        (g, 0)
    }
}

/// Whether the products of the gear scan at one cell fit in a `u32`.
pub open spec fn spec_cell_gears_ok(g: Seq<Seq<char>>, row: int, col: int) -> bool {
    g[row][col] == '*' ==> spec_gears_ok(g, row, col, 0, 1, 0)
}

/// The gear scan from `(row, col)` onward, row-major.
pub open spec fn spec_scan_gears(
    g: Seq<Seq<char>>,
    rows: int,
    cols: int,
    row: int,
    col: int,
) -> (Seq<Seq<char>>, int)
    decreases rows - row, cols - col,
    when 0 <= row && 0 <= col && 0 <= cols
{
    if row >= rows {
        (g, 0)
    } else if col >= cols {
        spec_scan_gears(g, rows, cols, row + 1, 0)
    } else {
        let cell = spec_cell_gears(g, row, col);
        let rest = spec_scan_gears(cell.0, rows, cols, row, col + 1);
        (rest.0, cell.1 + rest.1)
    }
}

/// Whether every product of the whole gear scan fits in a `u32`.
pub open spec fn spec_scan_gears_ok(
    g: Seq<Seq<char>>,
    rows: int,
    cols: int,
    row: int,
    col: int,
) -> bool
    decreases rows - row, cols - col,
    when 0 <= row && 0 <= col && 0 <= cols
{
    if row >= rows {
        true
    } else if col >= cols {
        spec_scan_gears_ok(g, rows, cols, row + 1, 0)
    } else {
        let cell = spec_cell_gears(g, row, col);
        spec_cell_gears_ok(g, row, col) && spec_scan_gears_ok(cell.0, rows, cols, row, col + 1)
    }
}

/// A gear ratio accumulates by multiplying positive values, so it
/// never falls below where it started.
proof fn lemma_gears_ratio_ge(g: Seq<Seq<char>>, row: int, col: int, k: int, ratio: int, ngears: int)
    requires
        0 <= k <= 8,
        ratio >= 1,
    ensures
        spec_gears(g, row, col, k, ratio, ngears).1 >= 1,
    decreases 8 - k,
{
    if k < 8 {
        let off = neighbor_offsets()[k];
        let s = spec_gad(g, row + off.0, col + off.1);
        if s.1 != 0 && ngears < 2 {
            assert(ratio * s.1 >= 1) by (nonlinear_arith)
                requires
                    ratio >= 1,
                    s.1 >= 1,
            ;
            lemma_gears_ratio_ge(s.0, row, col, k + 1, ratio * s.1, ngears + 1);
        } else {
            lemma_gears_ratio_ge(s.0, row, col, k + 1, ratio, ngears);
        }
    }
}

pub proof fn lemma_scan_gears_nonneg(
    g: Seq<Seq<char>>,
    rows: int,
    cols: int,
    row: int,
    col: int,
)
    requires
        0 <= row,
        0 <= col,
        0 <= cols,
    ensures
        spec_scan_gears(g, rows, cols, row, col).1 >= 0,
    decreases rows - row, cols - col,
{
    if row >= rows {
    } else if col >= cols {
        lemma_scan_gears_nonneg(g, rows, cols, row + 1, 0);
    } else {
        let cell = spec_cell_gears(g, row, col);
        if g[row][col] == '*' {
            lemma_gears_ratio_ge(g, row, col, 0, 1, 0);
        }
        lemma_scan_gears_nonneg(cell.0, rows, cols, row, col + 1);
    }
}

impl EngineSchematic {
    /// Collects the gear ratio of the `*` cell at `(row, col)`.
    fn scan_cell_gears(&mut self, row: usize, col: usize) -> (contribution: u32)
        requires
            old(self).wf(),
            row < old(self).rows,
            col < old(self).cols,
            spec_cell_gears_ok(old(self)@, row as int, col as int),
            spec_cell_gears(old(self)@, row as int, col as int).1 <= u32::MAX,
        ensures
            final(self).wf(),
            final(self).rows == old(self).rows,
            final(self).cols == old(self).cols,
            final(self)@ == spec_cell_gears(old(self)@, row as int, col as int).0,
            contribution == spec_cell_gears(old(self)@, row as int, col as int).1,
    {
        let ghost g0 = self@;
        let r = row as i16;
        let c = col as i16;
        let ch = match self.get(r, c) {
            Some(x) => *x,
            None => {
                proof {
                    assert(false);
                }
                '.'
            },
        };
        if ch == '*' {
            let mut fields: Vec<(i16, i16)> = Vec::new();
            fields.push((r - 1, c - 1));
            fields.push((r - 1, c));
            fields.push((r - 1, c + 1));
            fields.push((r, c - 1));
            fields.push((r, c + 1));
            fields.push((r + 1, c - 1));
            fields.push((r + 1, c));
            fields.push((r + 1, c + 1));
            proof {
                assert(fields@.len() == 8);
                assert forall|k: int| 0 <= k < 8 implies (#[trigger] fields@[k]).0 as int == row
                    + neighbor_offsets()[k].0 && fields@[k].1 as int == col
                    + neighbor_offsets()[k].1 by {
                    if k == 0 {
                    } else if k == 1 {
                    } else if k == 2 {
                    } else if k == 3 {
                    } else if k == 4 {
                    } else if k == 5 {
                    } else if k == 6 {
                    } else {
                        assert(k == 7);
                    }
                }
            }
            let mut gear_ratio: u32 = 1;
            let mut num_gears: u32 = 0;
            let mut k: usize = 0;
            while k < 8
                invariant
                    self.wf(),
                    self.rows == old(self).rows,
                    self.cols == old(self).cols,
                    k <= 8,
                    num_gears <= 2,
                    fields@.len() == 8,
                    row < old(self).rows,
                    col < old(self).cols,
                    forall|j: int| 0 <= j < 8 ==> (#[trigger] fields@[j]).0 as int == row
                        + neighbor_offsets()[j].0 && fields@[j].1 as int == col
                        + neighbor_offsets()[j].1,
                    spec_gears(g0, row as int, col as int, 0, 1, 0) == spec_gears(
                        self@,
                        row as int,
                        col as int,
                        k as int,
                        gear_ratio as int,
                        num_gears as int,
                    ),
                    spec_gears_ok(g0, row as int, col as int, 0, 1, 0) ==> spec_gears_ok(
                        self@,
                        row as int,
                        col as int,
                        k as int,
                        gear_ratio as int,
                        num_gears as int,
                    ),
                    spec_gears_ok(g0, row as int, col as int, 0, 1, 0),
                    gear_ratio >= 1,
                decreases 8 - k,
            {
                let f = fields[k];
                let gear = self.get_and_delete_number(f.0, f.1);
                if gear != 0 {
                    if num_gears >= 2 {
                    } else {
                        proof {
                            assert(gear_ratio * gear <= u32::MAX);
                            assert(gear_ratio * gear >= 1) by (nonlinear_arith)
                                requires
                                    gear_ratio >= 1,
                                    gear >= 1,
                            ;
                        }
                        gear_ratio = gear_ratio * gear;
                        num_gears = num_gears + 1;
                    }
                }
                k = k + 1;
            }
            if num_gears == 2 {
                gear_ratio
            } else {
                0
            }
        } else {
            0
        }
    }

    /// Sums the ratios of the `*` cells that touch exactly two numbers,
    /// erasing every number the scan reads.
    pub fn gather_gear_ratios(&mut self) -> (sum: u32)
        requires
            old(self).wf(),
            spec_scan_gears_ok(old(self)@, old(self).rows as int, old(self).cols as int, 0, 0),
            spec_scan_gears(old(self)@, old(self).rows as int, old(self).cols as int, 0, 0).1
                <= u32::MAX,
        ensures
            final(self).wf(),
            final(self).rows == old(self).rows,
            final(self).cols == old(self).cols,
            final(self)@ == spec_scan_gears(
                old(self)@,
                old(self).rows as int,
                old(self).cols as int,
                0,
                0,
            ).0,
            sum == spec_scan_gears(
                old(self)@,
                old(self).rows as int,
                old(self).cols as int,
                0,
                0,
            ).1,
    {
        let ghost g0 = self@;
        let rows = self.rows;
        let cols = self.cols;
        let ghost total = spec_scan_gears(g0, rows as int, cols as int, 0, 0);
        let mut sum: u32 = 0;
        let mut row: usize = 0;
        while row < rows
            invariant
                self.wf(),
                self.rows == rows,
                self.cols == cols,
                row <= rows,
                total == spec_scan_gears(g0, rows as int, cols as int, 0, 0),
                total.1 <= u32::MAX,
                total.0 == spec_scan_gears(self@, rows as int, cols as int, row as int, 0).0,
                total.1 == sum + spec_scan_gears(
                    self@,
                    rows as int,
                    cols as int,
                    row as int,
                    0,
                ).1,
                spec_scan_gears_ok(self@, rows as int, cols as int, row as int, 0),
            decreases rows - row,
        {
            let mut col: usize = 0;
            while col < cols
                invariant
                    self.wf(),
                    self.rows == rows,
                    self.cols == cols,
                    row < rows,
                    col <= cols,
                    total.1 <= u32::MAX,
                    total.0 == spec_scan_gears(
                        self@,
                        rows as int,
                        cols as int,
                        row as int,
                        col as int,
                    ).0,
                    total.1 == sum + spec_scan_gears(
                        self@,
                        rows as int,
                        cols as int,
                        row as int,
                        col as int,
                    ).1,
                    spec_scan_gears_ok(self@, rows as int, cols as int, row as int, col as int),
                decreases cols - col,
            {
                let ghost cur = self@;
                let ghost cell = spec_cell_gears(cur, row as int, col as int);
                proof {
                    lemma_scan_gears_nonneg(cell.0, rows as int, cols as int, row as int, col + 1);
                    if cur[row as int][col as int] == '*' {
                        lemma_gears_ratio_ge(cur, row as int, col as int, 0, 1, 0);
                    }
                }
                let v = self.scan_cell_gears(row, col);
                sum = sum + v;
                col = col + 1;
            }
            row = row + 1;
        }
        sum
    }
}

} // verus!
