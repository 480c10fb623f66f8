use vstd::prelude::*;
use crate::SudokuError;
use crate::rng::random_below;

verus! {

/// A grid view is well formed when it has 81 cells, each holding `0..=9`.
pub open spec fn wf_grid(g: Seq<u8>) -> bool {
    g.len() == 81 && (forall|i: int| 0 <= i < 81 ==> g[i] <= 9)
}

/// The cell of row `r`, column `c` in a flat, row-major 81-cell view.
pub open spec fn cell(g: Seq<u8>, r: int, c: int) -> u8 {
    g[r * 9 + c]
}

/// Row `r`, left to right.
pub open spec fn row_seq(g: Seq<u8>, r: int) -> Seq<u8> {
    Seq::new(9, |c: int| cell(g, r, c))
}

/// Column `c`, top to bottom.
pub open spec fn col_seq(g: Seq<u8>, c: int) -> Seq<u8> {
    Seq::new(9, |r: int| cell(g, r, c))
}

/// The 3x3 block with block coordinates (`br`, `bc`), row-major within it.
pub open spec fn block_seq(g: Seq<u8>, br: int, bc: int) -> Seq<u8> {
    Seq::new(9, |k: int| cell(g, br * 3 + k / 3, bc * 3 + k % 3))
}

/// Splits an index below 9 into its block part and its offset within the block.
pub(crate) proof fn lemma_split3(k: int)
    requires
        0 <= k < 9,
    ensures
        0 <= k / 3 < 3,
        0 <= k % 3 < 3,
        k == (k / 3) * 3 + (k % 3),
{
    vstd::arithmetic::div_mod::lemma_fundamental_div_mod(k, 3);
    vstd::arithmetic::div_mod::lemma_mod_bound(k, 3);
}

/// Reading back the parts of an index below 9 built from block and offset.
pub(crate) proof fn lemma_join3(a: int, b: int)
    requires
        0 <= a < 3,
        0 <= b < 3,
    ensures
        (a * 3 + b) / 3 == a,
        (a * 3 + b) % 3 == b,
{
    vstd::arithmetic::div_mod::lemma_fundamental_div_mod_converse(a * 3 + b, 3, a, b);
}

/// Splits a flat cell index into its row and column.
pub(crate) proof fn lemma_split9(i: int)
    requires
        0 <= i < 81,
    ensures
        0 <= i / 9 < 9,
        0 <= i % 9 < 9,
        i == (i / 9) * 9 + (i % 9),
{
    vstd::arithmetic::div_mod::lemma_fundamental_div_mod(i, 9);
    vstd::arithmetic::div_mod::lemma_mod_bound(i, 9);
}

/// Reading back row and column from a flat cell index.
pub(crate) proof fn lemma_join9(r: int, c: int)
    requires
        0 <= r < 9,
        0 <= c < 9,
    ensures
        (r * 9 + c) / 9 == r,
        (r * 9 + c) % 9 == c,
{
    vstd::arithmetic::div_mod::lemma_fundamental_div_mod_converse(r * 9 + c, 9, r, c);
}

/// Textual input describes a grid when it has 9 rows of 9 bytes, each byte an
/// ASCII digit: `'0'` for an empty cell, `'1'..='9'` for a clue.
pub open spec fn text_rows_ok(rows: Seq<Vec<u8>>) -> bool {
    &&& rows.len() == 9
    &&& forall|r: int| 0 <= r < 9 ==> (#[trigger] rows[r])@.len() == 9
    &&& forall|r: int, c: int| 0 <= r < 9 && 0 <= c < 9 ==> 48 <= #[trigger] rows[r]@[c] <= 57
}

/// An ordered group of 9 cell values taken from a board: one row, one column,
/// or one flattened 3x3 block.
pub struct ListOfNine {
    pub arr: [u8; 9],
    pub is_column: bool,
}

/// A 3x3 block of cells, row-major.
pub struct Block {
    pub grid: [[u8; 3]; 3],
}

impl Block {
    /// The block's 9 cells as one row-major sequence.
    pub open spec fn flat(&self) -> Seq<u8> {
        Seq::new(9, |k: int| self.grid@[k / 3]@[k % 3])
    }
}

/// A 9x9 Sudoku board. A cell holds `0` for empty or a placed digit `1..=9`.
#[derive(Clone, Debug)]
pub struct Sudoku {
    cells: Vec<u8>,
    verbose: bool,
}

impl View for Sudoku {
    type V = Seq<u8>;

    closed spec fn view(&self) -> Seq<u8> {
        self.cells@
    }
}

impl Sudoku {
    /// The board invariant: 81 cells, each in `0..=9`.
    pub open spec fn wf(&self) -> bool {
        wf_grid(self@)
    }

    /// A board with every cell empty.
    #[verifier::loop_isolation(false)]
    pub fn new_empty(verbose: bool) -> (s: Sudoku)
        ensures
            s.wf(),
            forall|i: int| 0 <= i < 81 ==> s@[i] == 0,
            s.verbose_mode() == verbose,
    {
        let mut cells: Vec<u8> = Vec::new();
        let mut i: usize = 0;
        while i < 81
            invariant
                i <= 81,
                cells@.len() == i,
                forall|j: int| 0 <= j < i ==> cells@[j] == 0,
            decreases 81 - i,
        {
            cells.push(0);
            i = i + 1;
        }
        Sudoku { cells, verbose }
    }

    /// Whether the board was built for chatty drivers; storage only, the
    /// library itself never prints.
    pub closed spec fn verbose_mode(&self) -> bool {
        self.verbose
    }

    /// Exec access to the verbosity flag.
    pub fn is_verbose(&self) -> (v: bool)
        ensures
            v == self.verbose_mode(),
    {
        self.verbose
    }

    /// The value of the cell at row `r`, column `c`.
    pub fn get(&self, r: usize, c: usize) -> (v: u8)
        requires
            self.wf(),
            r < 9,
            c < 9,
        ensures
            v == cell(self@, r as int, c as int),
    {
        self.cells[r * 9 + c]
    }

    /// Unchecked cell write, for callers that already hold `v <= 9`.
    pub(crate) fn put(&mut self, r: usize, c: usize, v: u8)
        requires
            old(self).wf(),
            r < 9,
            c < 9,
            v <= 9,
        ensures
            final(self).wf(),
            final(self)@ == old(self)@.update(r * 9 + c, v),
            final(self).verbose_mode() == old(self).verbose_mode(),
    {
        let idx: usize = r * 9 + c;
        self.cells.set(idx, v);
    }

    /// Writes `v` at row `r`, column `c`. A value above `9` is rejected with
    /// `InvalidValue` and leaves the board unchanged; `0..=9` always succeeds.
    pub fn set(&mut self, r: usize, c: usize, v: u8) -> (res: Result<(), SudokuError>)
        requires
            old(self).wf(),
            r < 9,
            c < 9,
        ensures
            final(self).wf(),
            v <= 9 ==> res == Ok::<(), SudokuError>(())
                && final(self)@ == old(self)@.update(r * 9 + c, v),
            v > 9 ==> res == Err::<(), SudokuError>(SudokuError::InvalidValue)
                && final(self)@ == old(self)@,
    {
        if v <= 9 {
            self.put(r, c, v);
            Ok(())
        } else {
            Err(SudokuError::InvalidValue)
        }
    }

    /// A board with every cell drawn at random from `1..=9`.
    #[verifier::loop_isolation(false)]
    pub fn new(verbose: bool) -> (s: Sudoku)
        ensures
            s.wf(),
            forall|i: int| 0 <= i < 81 ==> (1 <= #[trigger] s@[i] && s@[i] <= 9),
            s.verbose_mode() == verbose,
    {
        let mut cells: Vec<u8> = Vec::new();
        let mut i: usize = 0;
        while i < 81
            invariant
                i <= 81,
                cells@.len() == i,
                forall|j: int| 0 <= j < i ==> (1 <= #[trigger] cells@[j] && cells@[j] <= 9),
            decreases 81 - i,
        {
            let d: usize = random_below(9) + 1;
            cells.push(d as u8);
            i = i + 1;
        }
        Sudoku { cells, verbose }
    }

    /// A board holding the given rows of cell values.
    #[verifier::loop_isolation(false)]
    pub fn new_from_grid(new_grid: [[u8; 9]; 9], verbose: bool) -> (s: Sudoku)
        requires
            forall|r: int, c: int| 0 <= r < 9 && 0 <= c < 9 ==> new_grid@[r]@[c] <= 9,
        ensures
            s.wf(),
            forall|r: int, c: int| 0 <= r < 9 && 0 <= c < 9
                ==> cell(s@, r, c) == new_grid@[r]@[c],
            s.verbose_mode() == verbose,
    {
        let mut cells: Vec<u8> = Vec::new();
        let mut r: usize = 0;
        while r < 9
            invariant
                r <= 9,
                cells@.len() == r * 9,
                forall|r2: int, c2: int| 0 <= r2 < r && 0 <= c2 < 9
                    ==> cells@[r2 * 9 + c2] == new_grid@[r2]@[c2],
                forall|r2: int, c2: int| 0 <= r2 < 9 && 0 <= c2 < 9
                    ==> new_grid@[r2]@[c2] <= 9,
            decreases 9 - r,
        {
            let mut c: usize = 0;
            while c < 9
                invariant
                    r < 9,
                    c <= 9,
                    cells@.len() == r * 9 + c,
                    forall|r2: int, c2: int| 0 <= r2 < r && 0 <= c2 < 9
                        ==> cells@[r2 * 9 + c2] == new_grid@[r2]@[c2],
                    forall|c2: int| 0 <= c2 < c
                        ==> cells@[r * 9 + c2] == new_grid@[r as int]@[c2],
                    forall|r2: int, c2: int| 0 <= r2 < 9 && 0 <= c2 < 9
                        ==> new_grid@[r2]@[c2] <= 9,
                decreases 9 - c,
            {
                cells.push(new_grid[r][c]);
                c = c + 1;
            }
            r = r + 1;
        }
        let s = Sudoku { cells, verbose };
        proof {
            assert forall|i: int| 0 <= i < 81 implies s@[i] <= 9 by {
                let r2 = i / 9;
                let c2 = i % 9;
                vstd::arithmetic::div_mod::lemma_fundamental_div_mod(i, 9);
                vstd::arithmetic::div_mod::lemma_mod_bound(i, 9);
                assert(s@[r2 * 9 + c2] == new_grid@[r2]@[c2]);
            }
        }
        s
    }

    /// A board parsed from 9 rows of 9 ASCII digits, `'0'` marking an empty
    /// cell. Input of any other shape or content is rejected with
    /// `MalformedGrid`, never truncated or padded.
    #[verifier::loop_isolation(false)]
    pub fn from_rows(rows: &Vec<Vec<u8>>, verbose: bool) -> (res: Result<Sudoku, SudokuError>)
        ensures
            match res {
                Ok(s) => text_rows_ok(rows@) && s.wf() && s.verbose_mode() == verbose
                    && forall|r: int, c: int|
                        0 <= r < 9 && 0 <= c < 9 ==> cell(s@, r, c) == rows@[r]@[c] - 48,
                Err(e) => e == SudokuError::MalformedGrid && !text_rows_ok(rows@),
            },
    {
        if rows.len() != 9 {
            return Err(SudokuError::MalformedGrid);
        }
        let mut r: usize = 0;
        while r < 9
            invariant
                r <= 9,
                forall|r2: int| 0 <= r2 < r ==> (#[trigger] rows@[r2])@.len() == 9,
                forall|r2: int, c2: int|
                    0 <= r2 < r && 0 <= c2 < 9 ==> 48 <= #[trigger] rows@[r2]@[c2] <= 57,
            decreases 9 - r,
        {
            if rows[r].len() != 9 {
                return Err(SudokuError::MalformedGrid);
            }
            let mut c: usize = 0;
            while c < 9
                invariant
                    r < 9,
                    c <= 9,
                    rows@[r as int]@.len() == 9,
                    forall|c2: int| 0 <= c2 < c ==> 48 <= #[trigger] rows@[r as int]@[c2] <= 57,
                decreases 9 - c,
            {
                let b: u8 = rows[r][c];
                if b < 48 || b > 57 {
                    return Err(SudokuError::MalformedGrid);
                }
                c = c + 1;
            }
            r = r + 1;
        }
        let mut cells: Vec<u8> = Vec::new();
        let mut r2: usize = 0;
        while r2 < 9
            invariant
                r2 <= 9,
                cells@.len() == r2 * 9,
                text_rows_ok(rows@),
                forall|a: int, b: int|
                    0 <= a < r2 && 0 <= b < 9 ==> cells@[a * 9 + b] == rows@[a]@[b] - 48,
            decreases 9 - r2,
        {
            let mut c2: usize = 0;
            while c2 < 9
                invariant
                    r2 < 9,
                    c2 <= 9,
                    cells@.len() == r2 * 9 + c2,
                    forall|a: int, b: int|
                        0 <= a < r2 && 0 <= b < 9 ==> cells@[a * 9 + b] == rows@[a]@[b] - 48,
                    forall|b: int|
                        0 <= b < c2 ==> cells@[r2 * 9 + b] == rows@[r2 as int]@[b] - 48,
                decreases 9 - c2,
            {
                let b: u8 = rows[r2][c2];
                cells.push(b - 48);
                c2 = c2 + 1;
            }
            r2 = r2 + 1;
        }
        let s = Sudoku { cells, verbose };
        proof {
            assert forall|i: int| 0 <= i < 81 implies s@[i] <= 9 by {
                lemma_split9(i);
                assert(s@[(i / 9) * 9 + i % 9] == rows@[i / 9]@[i % 9] - 48);
            }
        }
        Ok(s)
    }

    /// Row `r` as a group, left to right.
    #[verifier::loop_isolation(false)]
    pub fn row_group(&self, r: usize) -> (g: ListOfNine)
        requires
            self.wf(),
            r < 9,
        ensures
            g.arr@ == row_seq(self@, r as int),
            g.is_column == false,
    {
        let mut arr: [u8; 9] = [0; 9];
        let mut c: usize = 0;
        while c < 9
            invariant
                self.wf(),
                r < 9,
                c <= 9,
                forall|j: int| 0 <= j < c ==> arr@[j] == cell(self@, r as int, j),
            decreases 9 - c,
        {
            arr[c] = self.get(r, c);
            c = c + 1;
        }
        proof {
            assert(arr@ =~= row_seq(self@, r as int));
        }
        ListOfNine { arr, is_column: false }
    }

    /// Column `c` as a group, top to bottom.
    #[verifier::loop_isolation(false)]
    pub fn column_group(&self, c: usize) -> (g: ListOfNine)
        requires
            self.wf(),
            c < 9,
        ensures
            g.arr@ == col_seq(self@, c as int),
            g.is_column == true,
    {
        let mut arr: [u8; 9] = [0; 9];
        let mut r: usize = 0;
        while r < 9
            invariant
                self.wf(),
                c < 9,
                r <= 9,
                forall|j: int| 0 <= j < r ==> arr@[j] == cell(self@, j, c as int),
            decreases 9 - r,
        {
            arr[r] = self.get(r, c);
            r = r + 1;
        }
        proof {
            assert(arr@ =~= col_seq(self@, c as int));
        }
        ListOfNine { arr, is_column: true }
    }

    /// The block with block coordinates (`br`, `bc`) as a flat group,
    /// row-major within the block.
    #[verifier::loop_isolation(false)]
    pub fn block_group(&self, br: usize, bc: usize) -> (g: ListOfNine)
        requires
            self.wf(),
            br < 3,
            bc < 3,
        ensures
            g.arr@ == block_seq(self@, br as int, bc as int),
            g.is_column == false,
    {
        let mut arr: [u8; 9] = [0; 9];
        let mut k: usize = 0;
        while k < 9
            invariant
                self.wf(),
                br < 3,
                bc < 3,
                k <= 9,
                forall|j: int| 0 <= j < k
                    ==> arr@[j] == cell(self@, br * 3 + j / 3, bc * 3 + j % 3),
            decreases 9 - k,
        {
            assert(k / 3 < 3 && k % 3 < 3) by {
                vstd::arithmetic::div_mod::lemma_fundamental_div_mod(k as int, 3);
                vstd::arithmetic::div_mod::lemma_mod_bound(k as int, 3);
            }
            arr[k] = self.get(br * 3 + k / 3, bc * 3 + k % 3);
            k = k + 1;
        }
        proof {
            assert(arr@ =~= block_seq(self@, br as int, bc as int));
        }
        ListOfNine { arr, is_column: false }
    }

    /// The 3x3 block whose top-left cell is at column `x`, row `y`.
    #[verifier::loop_isolation(false)]
    pub fn take_block(&self, x: usize, y: usize) -> (b: Block)
        requires
            self.wf(),
            x <= 6,
            y <= 6,
        ensures
            forall|i: int, j: int| 0 <= i < 3 && 0 <= j < 3
                ==> b.grid@[i]@[j] == cell(self@, y + i, x + j),
    {
        let mut grid: [[u8; 3]; 3] = [[0; 3], [0; 3], [0; 3]];
        let mut i: usize = 0;
        while i < 3
            invariant
                self.wf(),
                x <= 6,
                y <= 6,
                i <= 3,
                grid@.len() == 3,
                forall|i2: int| 0 <= i2 < 3 ==> (#[trigger] grid@[i2])@.len() == 3,
                forall|i2: int, j2: int| 0 <= i2 < i && 0 <= j2 < 3
                    ==> grid@[i2]@[j2] == cell(self@, y + i2, x + j2),
            decreases 3 - i,
        {
            let mut row: [u8; 3] = [0; 3];
            let mut j: usize = 0;
            while j < 3
                invariant
                    self.wf(),
                    x <= 6,
                    y <= 6,
                    i < 3,
                    j <= 3,
                    forall|j2: int| 0 <= j2 < j
                        ==> row@[j2] == cell(self@, y + i, x + j2),
                decreases 3 - j,
            {
                row[j] = self.get(y + i, x + j);
                j = j + 1;
            }
            grid[i] = row;
            i = i + 1;
        }
        Block { grid }
    }

    /// All 27 groups: rows 0..9, then columns 0..9, then blocks in row-major
    /// block order. Re-derived from the cells on every call.
    #[verifier::loop_isolation(false)]
    pub fn all_groups(&self) -> (gs: Vec<ListOfNine>)
        requires
            self.wf(),
        ensures
            gs@.len() == 27,
            forall|r: int| 0 <= r < 9 ==> (#[trigger] gs@[r]).arr@ == row_seq(self@, r),
            forall|c: int| 0 <= c < 9 ==> (#[trigger] gs@[9 + c]).arr@ == col_seq(self@, c),
            forall|k: int| 0 <= k < 9
                ==> (#[trigger] gs@[18 + k]).arr@ == block_seq(self@, k / 3, k % 3),
    {
        let mut gs: Vec<ListOfNine> = Vec::new();
        let mut r: usize = 0;
        while r < 9
            invariant
                self.wf(),
                r <= 9,
                gs@.len() == r,
                forall|r2: int| 0 <= r2 < r
                    ==> (#[trigger] gs@[r2]).arr@ == row_seq(self@, r2),
            decreases 9 - r,
        {
            let g = self.row_group(r);
            gs.push(g);
            r = r + 1;
        }
        let mut c: usize = 0;
        while c < 9
            invariant
                self.wf(),
                c <= 9,
                gs@.len() == 9 + c,
                forall|r2: int| 0 <= r2 < 9
                    ==> (#[trigger] gs@[r2]).arr@ == row_seq(self@, r2),
                forall|c2: int| 0 <= c2 < c
                    ==> (#[trigger] gs@[9 + c2]).arr@ == col_seq(self@, c2),
            decreases 9 - c,
        {
            let g = self.column_group(c);
            gs.push(g);
            c = c + 1;
        }
        let mut k: usize = 0;
        while k < 9
            invariant
                self.wf(),
                k <= 9,
                gs@.len() == 18 + k,
                forall|r2: int| 0 <= r2 < 9
                    ==> (#[trigger] gs@[r2]).arr@ == row_seq(self@, r2),
                forall|c2: int| 0 <= c2 < 9
                    ==> (#[trigger] gs@[9 + c2]).arr@ == col_seq(self@, c2),
                forall|k2: int| 0 <= k2 < k
                    ==> (#[trigger] gs@[18 + k2]).arr@ == block_seq(self@, k2 / 3, k2 % 3),
            decreases 9 - k,
        {
            assert(k / 3 < 3 && k % 3 < 3) by {
                vstd::arithmetic::div_mod::lemma_fundamental_div_mod(k as int, 3);
                vstd::arithmetic::div_mod::lemma_mod_bound(k as int, 3);
            }
            let g = self.block_group(k / 3, k % 3);
            gs.push(g);
            k = k + 1;
        }
        gs
    }

    /// The cell at flat index `i` of the row-major cell order.
    pub(crate) fn get_flat(&self, i: usize) -> (v: u8)
        requires
            self.wf(),
            i < 81,
        ensures
            v == self@[i as int],
    {
        self.cells[i]
    }

    /// An owned copy of the board with the same cells.
    #[verifier::loop_isolation(false)]
    pub fn duplicate(&self) -> (s: Sudoku)
        requires
            self.wf(),
        ensures
            s.wf(),
            s@ == self@,
            s.verbose_mode() == self.verbose_mode(),
    {
        let mut cells: Vec<u8> = Vec::new();
        let mut i: usize = 0;
        while i < 81
            invariant
                i <= 81,
                cells@.len() == i,
                self.wf(),
                forall|j: int| 0 <= j < i ==> cells@[j] == self@[j],
            decreases 81 - i,
        {
            cells.push(self.cells[i]);
            i = i + 1;
        }
        let s = Sudoku { cells, verbose: self.verbose };
        proof {
            assert(s@ =~= self@);
        }
        s
    }
}

} // verus!
