use vstd::prelude::*;
use vstd::std_specs::iter::IteratorSpec;

verus! {

/// The fourth power of `k`.
pub open spec fn pow4(k: nat) -> nat {
    (k * k) * (k * k)
}

/// Row `r` of a board of side `rw`, stored row by row in `s`.
pub open spec fn row_view(s: Seq<u32>, rw: nat, r: int) -> Seq<u32> {
    Seq::new(rw, |j: int| s[r * rw + j])
}

/// Column `c` of a board of side `rw`, stored row by row in `s`.
pub open spec fn col_view(s: Seq<u32>, rw: nat, c: int) -> Seq<u32> {
    Seq::new(rw, |j: int| s[j * rw + c])
}

/// The box of width `cw` that holds the square at `(r, c)`, row by row.
pub open spec fn box_view(s: Seq<u32>, cw: nat, rw: nat, r: int, c: int) -> Seq<u32> {
    Seq::new(
        cw * cw,
        |k: int| s[((r / cw as int) * cw + k / cw as int) * rw + (c / cw as int) * cw + k % cw as int],
    )
}

proof fn lemma_square_lt(a: nat, b: nat)
    requires
        a < b,
    ensures
        a * a < b * b,
{
    assert(a * a < b * b) by (nonlinear_arith)
        requires
            a < b,
    ;
}

proof fn lemma_square_le(a: nat, b: nat)
    requires
        a <= b,
    ensures
        a * a <= b * b,
{
    assert(a * a <= b * b) by (nonlinear_arith)
        requires
            a <= b,
    ;
}

/// The fourth power is strictly increasing on the naturals.
pub proof fn lemma_pow4_strict(a: nat, b: nat)
    requires
        a < b,
    ensures
        pow4(a) < pow4(b),
{
    lemma_square_lt(a, b);
    lemma_square_lt(a * a, b * b);
}

proof fn lemma_pow4_mono(a: nat, b: nat)
    requires
        a <= b,
    ensures
        pow4(a) <= pow4(b),
{
    lemma_square_le(a, b);
    lemma_square_le(a * a, b * b);
}

proof fn lemma_square_bounds(k: nat)
    ensures
        k <= k * k || k == 0,
        k * k <= pow4(k),
{
    assert(k <= k * k || k == 0) by (nonlinear_arith);
    assert(k * k <= (k * k) * (k * k) || k * k == 0) by (nonlinear_arith);
}

/// A square index `r * rw + c` lies on a board of side `rw`.
pub proof fn lemma_index_bound(r: int, c: int, rw: int)
    requires
        0 <= r < rw,
        0 <= c < rw,
    ensures
        0 <= r * rw + c < rw * rw,
{
    assert(0 <= r * rw + c < rw * rw) by (nonlinear_arith)
        requires
            0 <= r < rw,
            0 <= c < rw,
    ;
}

/// Within a board of side `cw * cw`, the first row (or column) of the box holding `r`,
/// moved by less than `cw`, stays on the board.
pub proof fn lemma_box_offset(r: int, b: int, cw: int)
    requires
        0 <= r < cw * cw,
        0 <= b < cw,
    ensures
        0 <= r / cw < cw,
        0 <= (r / cw) * cw + b < cw * cw,
{
    vstd::arithmetic::div_mod::lemma_fundamental_div_mod(r, cw);
    vstd::arithmetic::div_mod::lemma_mod_bound(r, cw);
    let a = r / cw;
    assert(0 <= a < cw) by (nonlinear_arith)
        requires
            r == cw * a + r % cw,
            0 <= r % cw < cw,
            0 <= r < cw * cw,
    ;
    assert(0 <= a * cw + b < cw * cw) by (nonlinear_arith)
        requires
            0 <= a < cw,
            0 <= b < cw,
    ;
}

proof fn lemma_pow4_limit()
    ensures
        pow4(65536) == 0x1_0000_0000_0000_0000,
{
    assert(65536 * 65536 == 0x1_0000_0000) by (nonlinear_arith);
    assert(0x1_0000_0000 * 0x1_0000_0000 == 0x1_0000_0000_0000_0000) by (nonlinear_arith);
}

fn pow4_u128(c: u128) -> (r: u128)
    requires
        c <= 65536,
    ensures
        r == pow4(c as nat),
{
    proof {
        lemma_pow4_limit();
        lemma_pow4_mono(c as nat, 65536);
        lemma_square_le(c as nat, 65536);
        assert(65536 * 65536 == 0x1_0000_0000) by (nonlinear_arith);
    }
    let s = c * c;
    s * s
}

/// The ways a board can fail to be built.
#[derive(Debug, PartialEq, Eq, Structural)]
pub enum SudokuParseError {
    /// The number of squares is not a fourth power.
    NonSquare,
    /// A value is larger than the side of the board.
    DigitOutOfRange,
    /// A field of the text is not an integer.
    InvalidDigit,
}

/// A sudoku board of side `cell_width * cell_width`, stored row by row; 0 marks an empty square.
#[derive(Debug, Clone, Hash, PartialEq, Eq)]
pub struct SudokuGrid {
    tiles: Vec<u32>,
    cell_width: usize,
    row_width: usize,
}

impl View for SudokuGrid {
    type V = Seq<u32>;

    closed spec fn view(&self) -> Seq<u32> {
        self.tiles@
    }
}

impl SudokuGrid {
    /// The side of one box.
    pub closed spec fn cw(&self) -> nat {
        self.cell_width as nat
    }

    /// The side of the board.
    pub closed spec fn rw(&self) -> nat {
        self.row_width as nat
    }

    /// The board has `rw * rw` squares, `rw == cw * cw`, and no value exceeds `rw`.
    pub open spec fn wf(&self) -> bool {
        &&& self.rw() == self.cw() * self.cw()
        &&& self@.len() == self.rw() * self.rw()
        &&& self@.len() <= usize::MAX
        &&& self.rw() <= usize::MAX
        &&& forall|i: int| 0 <= i < self@.len() ==> #[trigger] self@[i] <= self.rw()
    }

    /// Row `r` of the board.
    pub open spec fn row_seq(&self, r: int) -> Seq<u32> {
        row_view(self@, self.rw(), r)
    }

    /// Column `c` of the board.
    pub open spec fn col_seq(&self, c: int) -> Seq<u32> {
        col_view(self@, self.rw(), c)
    }

    /// The box holding the square at `(r, c)`.
    pub open spec fn box_seq(&self, r: int, c: int) -> Seq<u32> {
        box_view(self@, self.cw(), self.rw(), r, c)
    }

    /// `r` is what building a board from `tiles` gives: `NonSquare` exactly when the length
    /// is no fourth power `k * k * k * k`; else `DigitOutOfRange` exactly when a value exceeds
    /// `k * k`; else a well-formed board of width `k` holding `tiles`.
    pub open spec fn built_from(tiles: Seq<u32>, r: Result<SudokuGrid, SudokuParseError>) -> bool {
        &&& (r matches Err(SudokuParseError::NonSquare)) <==> !(exists|k: nat|
            #[trigger] pow4(k) == tiles.len())
        &&& forall|k: nat|
            #[trigger] pow4(k) == tiles.len() ==> {
                &&& (r is Ok) <==> (forall|i: int| 0 <= i < tiles.len() ==> #[trigger] tiles[i] <= k * k)
                &&& (r is Err) ==> (r matches Err(SudokuParseError::DigitOutOfRange))
            }
        &&& r matches Ok(g) ==> g.wf() && g@ == tiles && pow4(g.cw()) == tiles.len()
    }

    /// Builds a board from its squares, row by row.
    pub fn try_from(tiles: Vec<u32>) -> (r: Result<SudokuGrid, SudokuParseError>)
        ensures
            SudokuGrid::built_from(tiles@, r),
    {
        let n = tiles.len();
        let target: u128 = n as u128;
        let mut c: u128 = 0;
        proof {
            lemma_pow4_limit();
        }
        while pow4_u128(c) < target
            invariant
                target == n,
                n == tiles@.len(),
                target < 0x1_0000_0000_0000_0000,
                pow4(65536) == 0x1_0000_0000_0000_0000,
                c <= 65536,
                forall|k: nat| k < c ==> #[trigger] pow4(k) < target,
            decreases 65536 - c,
        {
            proof {
                if c >= 65536 {
                    assert(false);
                }
                assert forall|k: nat| k < c + 1 implies #[trigger] pow4(k) < target by {
                    if k < c {
                    } else {
                        assert(k == c);
                    }
                }
            }
            c = c + 1;
        }
        if pow4_u128(c) != target {
            proof {
                assert forall|k: nat| pow4(k) != tiles@.len() by {
                    if k < c {
                    } else if k > c {
                        lemma_pow4_strict(c as nat, k);
                    }
                }
            }
            return Err(SudokuParseError::NonSquare);
        }
        proof {
            lemma_square_bounds(c as nat);
            assert forall|k: nat| #[trigger] pow4(k) == tiles@.len() implies k == c by {
                if k < c {
                } else if k > c {
                    lemma_pow4_strict(c as nat, k);
                }
            }
        }
        let cell_width = c as usize;
        let row_width = cell_width * cell_width;
        let mut i: usize = 0;
        while i < n
            invariant
                n == tiles@.len(),
                row_width == c * c,
                forall|k: nat| #[trigger] pow4(k) == tiles@.len() ==> k == c,
                pow4(c as nat) == tiles@.len(),
                forall|j: int| 0 <= j < i ==> #[trigger] tiles@[j] <= row_width,
            decreases n - i,
        {
            if tiles[i] as usize > row_width {
                return Err(SudokuParseError::DigitOutOfRange);
            }
            i = i + 1;
        }
        Ok(SudokuGrid { tiles, cell_width, row_width })
    }

    /// The side of one box.
    pub fn cell_width(&self) -> (r: &usize)
        ensures
            *r == self.cw(),
    {
        &self.cell_width
    }

    /// The side of the board.
    pub fn row_width(&self) -> (r: &usize)
        ensures
            *r == self.rw(),
    {
        &self.row_width
    }

    /// All squares, row by row.
    pub fn tiles(&self) -> (r: &[u32])
        ensures
            r@ == self@,
    {
        self.tiles.as_slice()
    }

    /// The value of square `i`, counting row by row.
    pub fn get(&self, i: usize) -> (r: u32)
        requires
            i < self@.len(),
        ensures
            r == self@[i as int],
    {
        self.tiles[i]
    }

    /// Writes `v` into square `i`, counting row by row.
    pub fn set(&mut self, i: usize, v: u32)
        requires
            old(self).wf(),
            i < old(self)@.len(),
            v <= old(self).rw(),
        ensures
            final(self).wf(),
            final(self)@ == old(self)@.update(i as int, v),
            final(self).cw() == old(self).cw(),
            final(self).rw() == old(self).rw(),
    {
        self.tiles.set(i, v);
    }

    /// The value at row `row`, column `col`.
    pub fn get_at(&self, row: usize, col: usize) -> (r: u32)
        requires
            self.wf(),
            row < self.rw(),
            col < self.rw(),
        ensures
            r == self@[row * self.rw() + col],
    {
        proof {
            lemma_index_bound(row as int, col as int, self.rw() as int);
        }
        self.tiles[row * self.row_width + col]
    }

    /// Writes `v` at row `row`, column `col`.
    pub fn set_at(&mut self, row: usize, col: usize, v: u32)
        requires
            old(self).wf(),
            row < old(self).rw(),
            col < old(self).rw(),
            v <= old(self).rw(),
        ensures
            final(self).wf(),
            final(self)@ == old(self)@.update(row * old(self).rw() + col, v),
            final(self).cw() == old(self).cw(),
            final(self).rw() == old(self).rw(),
    {
        proof {
            lemma_index_bound(row as int, col as int, self.rw() as int);
        }
        let i = row * self.row_width + col;
        self.tiles.set(i, v);
    }

    /// All squares, row by row, in storage order.
    pub fn iter(&self) -> (r: std::slice::Iter<'_, u32>)
        ensures
            r.remaining() == self@.as_ref(),
    {
        let s = self.tiles.as_slice();
        proof {
            vstd::std_specs::slice::axiom_spec_slice_iter(s);
        }
        s.iter()
    }

    /// The values of row `row`, left to right.
    pub fn iter_row(&self, row: usize) -> (r: Vec<u32>)
        requires
            self.wf(),
            row < self.rw(),
        ensures
            r@ == self.row_seq(row as int),
    {
        let rw = self.row_width;
        let mut out: Vec<u32> = Vec::new();
        let mut j: usize = 0;
        while j < rw
            invariant
                self.wf(),
                rw == self.rw(),
                row < rw,
                j <= rw,
                out@ == self.row_seq(row as int).take(j as int),
            decreases rw - j,
        {
            proof {
                lemma_index_bound(row as int, j as int, rw as int);
            }
            out.push(self.tiles[row * rw + j]);
            j = j + 1;
            proof {
                assert(out@ =~= self.row_seq(row as int).take(j as int));
            }
        }
        proof {
            assert(out@ =~= self.row_seq(row as int));
        }
        out
    }

    /// The values of column `col`, top to bottom.
    pub fn iter_col(&self, col: usize) -> (r: Vec<u32>)
        requires
            self.wf(),
            col < self.rw(),
        ensures
            r@ == self.col_seq(col as int),
    {
        let rw = self.row_width;
        let mut out: Vec<u32> = Vec::new();
        let mut j: usize = 0;
        while j < rw
            invariant
                self.wf(),
                rw == self.rw(),
                col < rw,
                j <= rw,
                out@ == self.col_seq(col as int).take(j as int),
            decreases rw - j,
        {
            proof {
                lemma_index_bound(j as int, col as int, rw as int);
            }
            out.push(self.tiles[j * rw + col]);
            j = j + 1;
            proof {
                assert(out@ =~= self.col_seq(col as int).take(j as int));
            }
        }
        proof {
            assert(out@ =~= self.col_seq(col as int));
        }
        out
    }

    /// The values of the box that holds row `row`, column `col`, row by row.
    pub fn iter_cell(&self, row: usize, col: usize) -> (r: CellIter)
        requires
            self.wf(),
            row < self.rw(),
            col < self.rw(),
        ensures
            r@ == self.box_seq(row as int, col as int),
    {
        let cw = self.cell_width;
        let rw = self.row_width;
        proof {
            assert(cw > 0) by (nonlinear_arith)
                requires
                    rw == cw * cw,
                    row < rw,
            ;
        }
        let n = cw * cw;
        let mut out: Vec<u32> = Vec::new();
        let mut k: usize = 0;
        while k < n
            invariant
                self.wf(),
                cw == self.cw(),
                rw == self.rw(),
                n == rw,
                cw > 0,
                row < rw,
                col < rw,
                k <= n,
                out@ == self.box_seq(row as int, col as int).take(k as int),
            decreases n - k,
        {
            proof {
                lemma_box_offset(k as int, 0, cw as int);
                vstd::arithmetic::div_mod::lemma_mod_bound(k as int, cw as int);
                lemma_box_offset(row as int, (k / cw) as int, cw as int);
                lemma_box_offset(col as int, (k % cw) as int, cw as int);
                lemma_index_bound(
                    (row / cw) as int * cw + (k / cw) as int,
                    (col / cw) as int * cw + (k % cw) as int,
                    rw as int,
                );
            }
            let r = (row / cw) * cw + k / cw;
            let c = (col / cw) * cw + k % cw;
            out.push(self.tiles[r * rw + c]);
            k = k + 1;
            proof {
                assert(out@ =~= self.box_seq(row as int, col as int).take(k as int));
            }
        }
        proof {
            assert(out@ =~= self.box_seq(row as int, col as int));
        }
        CellIter { values: out, pos: 0 }
    }
}

impl std::convert::TryFrom<Vec<u32>> for SudokuGrid {
    type Error = SudokuParseError;

    fn try_from(tiles: Vec<u32>) -> Result<SudokuGrid, SudokuParseError> {
        SudokuGrid::try_from(tiles)
    }
}

/// The conversion through the standard trait forwards to `SudokuGrid::try_from`, whose own
/// contract says what it returns; this view of it promises nothing further.
impl vstd::std_specs::convert::TryFromSpecImpl<Vec<u32>> for SudokuGrid {
    open spec fn obeys_try_from_spec() -> bool {
        false
    }

    open spec fn try_from_spec(tiles: Vec<u32>) -> Result<SudokuGrid, SudokuParseError> {
        Err(SudokuParseError::NonSquare)
    }
}

/// The values of one box, handed out one at a time.
pub struct CellIter {
    values: Vec<u32>,
    pos: usize,
}

impl View for CellIter {
    type V = Seq<u32>;

    /// The values not yet handed out.
    closed spec fn view(&self) -> Seq<u32> {
        self.values@.subrange(self.pos as int, self.values@.len() as int)
    }
}

impl CellIter {
    #[verifier::type_invariant]
    spec fn inv(&self) -> bool {
        self.pos <= self.values@.len()
    }

    /// Hands out the next value, if any is left.
    pub fn next(&mut self) -> (r: Option<u32>)
        ensures
            old(self)@.len() == 0 ==> r is None && final(self)@ == old(self)@,
            old(self)@.len() > 0 ==> r == Some(old(self)@[0]) && final(self)@ == old(self)@.drop_first(),
    {
        proof {
            use_type_invariant(&*self);
        }
        if self.pos < self.values.len() {
            let v = self.values[self.pos];
            self.pos = self.pos + 1;
            proof {
                assert(self@ =~= old(self)@.drop_first());
            }
            Some(v)
        } else {
            None
        }
    }

    /// The number of values left, exactly.
    pub fn size_hint(&self) -> (r: (usize, Option<usize>))
        ensures
            r.0 == self@.len(),
            r.1 == Some(r.0),
    {
        proof {
            use_type_invariant(self);
        }
        let left = self.values.len() - self.pos;
        (left, Some(left))
    }
}

} // verus!
