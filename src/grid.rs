use vstd::prelude::*;

verus! {

/// Largest number of rows, and of columns, that a grid may have.
pub const MAX_DIM: usize = 256;

/// Largest value a tile may hold.
pub const MAX_VALUE: u8 = 9;

/// Why a matrix of values was not accepted as a grid.
#[derive(Clone, Copy, Debug, PartialEq, Eq)]
pub enum GridError {
    /// Two rows differ in length.
    Ragged,
    /// A value lies above `MAX_VALUE`.
    ValueOutOfRange,
    /// More than `MAX_DIM` rows or columns.
    TooLarge,
}

/// Number of non-empty (non-zero) entries of `s`.
pub open spec fn count_nz(s: Seq<u8>) -> nat
    decreases s.len(),
{
    if s.len() == 0 {
        0
    } else {
        count_nz(s.drop_last()) + if s.last() != 0 { 1nat } else { 0nat }
    }
}

pub proof fn lemma_count_nz_le_len(s: Seq<u8>)
    ensures
        count_nz(s) <= s.len(),
    decreases s.len(),
{
    if s.len() > 0 {
        lemma_count_nz_le_len(s.drop_last());
    }
}

/// Emptying one entry lowers the count by one if it was non-empty, else keeps it.
pub proof fn lemma_count_nz_clear(s: Seq<u8>, i: int)
    requires
        0 <= i < s.len(),
    ensures
        count_nz(s.update(i, 0)) + (if s[i] != 0 { 1int } else { 0int }) == count_nz(s),
    decreases s.len(),
{
    if i == s.len() - 1 {
        assert(s.update(i, 0).drop_last() =~= s.drop_last());
    } else {
        lemma_count_nz_clear(s.drop_last(), i);
        assert(s.update(i, 0).drop_last() =~= s.drop_last().update(i, 0));
    }
}

/// Number of non-empty cells of a grid given as rows.
pub open spec fn cells_left(g: Seq<Seq<u8>>) -> nat
    decreases g.len(),
{
    if g.len() == 0 {
        0
    } else {
        cells_left(g.drop_last()) + count_nz(g.last())
    }
}

pub proof fn lemma_count_nz_concat(a: Seq<u8>, b: Seq<u8>)
    ensures
        count_nz(a + b) == count_nz(a) + count_nz(b),
    decreases b.len(),
{
    if b.len() == 0 {
        assert(a + b =~= a);
    } else {
        lemma_count_nz_concat(a, b.drop_last());
        assert((a + b).drop_last() =~= a + b.drop_last());
    }
}

/// The first `r` rows of a grid hold as many non-empty cells as the first
/// `r * cols` entries of its data.
proof fn lemma_prefix_count(g: &FlatGrid, r: int)
    requires
        g.wf(),
        0 <= r <= g.rows,
    ensures
        r * g.cols <= g.data@.len(),
        count_nz(g.data@.take(r * g.cols)) == cells_left(g@.take(r)),
    decreases r,
{
    let cols = g.cols as int;
    assert(r * cols <= g.rows * cols) by (nonlinear_arith)
        requires
            0 <= r <= g.rows,
            0 <= cols,
    ;
    if r == 0 {
        assert(r * cols == 0) by (nonlinear_arith)
            requires
                r == 0,
        ;
        assert(g.data@.take(0) =~= Seq::<u8>::empty());
        assert(g@.take(0) =~= Seq::<Seq<u8>>::empty());
    } else {
        lemma_prefix_count(g, r - 1);
        assert((r - 1) * cols + cols == r * cols) by (nonlinear_arith);
        let lo = (r - 1) * cols;
        assert(g.data@.take(r * cols) =~= g.data@.take(lo) + g@[r - 1]) by {
            assert forall|i: int| lo <= i < r * cols implies #[trigger] g.data@.take(r * cols)[i]
                == g@[r - 1][i - lo] by {
                assert(g@[r - 1][i - lo] == g.data@[(r - 1) * cols + (i - lo)]);
            }
        }
        lemma_count_nz_concat(g.data@.take(lo), g@[r - 1]);
        assert(g@.take(r).drop_last() =~= g@.take(r - 1));
        assert(g@.take(r).last() == g@[r - 1]);
        assert(cells_left(g@.take(r)) == cells_left(g@.take(r - 1)) + count_nz(g@[r - 1]));
    }
}

/// The data of a grid holds as many non-empty cells as its rows.
pub proof fn lemma_flat_count(g: &FlatGrid)
    requires
        g.wf(),
    ensures
        g.remaining() == cells_left(g@),
{
    lemma_prefix_count(g, g.rows as int);
    assert(g.data@.take(g.rows * g.cols) =~= g.data@);
    assert(g@.take(g.rows as int) =~= g@);
}

/// A rectangle matrix seen as rows of values.
pub open spec fn rect_rows(g: Seq<Seq<u8>>, cols: nat) -> bool {
    forall|r: int| 0 <= r < g.len() ==> #[trigger] g[r].len() == cols
}

/// `g` with every position named in `m` emptied.
pub open spec fn clear_cells(g: Seq<Seq<u8>>, m: Seq<(usize, usize, u8)>) -> Seq<Seq<u8>> {
    Seq::new(
        g.len(),
        |r: int|
            Seq::new(
                g[r].len(),
                |c: int|
                    if exists|k: int| 0 <= k < m.len() && m[k].0 == r && m[k].1 == c {
                        0u8
                    } else {
                        g[r][c]
                    },
            ),
    )
}

pub proof fn lemma_index(r: int, c: int, rows: int, cols: int)
    requires
        0 <= r < rows,
        0 <= c < cols,
    ensures
        0 <= r * cols + c < rows * cols,
        rows <= MAX_DIM && cols <= MAX_DIM ==> rows * cols <= MAX_DIM * MAX_DIM,
{
    if rows <= MAX_DIM && cols <= MAX_DIM {
        assert(rows * cols <= MAX_DIM * MAX_DIM) by (nonlinear_arith)
            requires
                0 <= rows <= MAX_DIM,
                0 <= cols <= MAX_DIM,
        ;
    }
    assert(0 <= r * cols) by (nonlinear_arith)
        requires
            0 <= r,
            0 <= cols,
    ;
    assert(r * cols + c < rows * cols) by (nonlinear_arith)
        requires
            0 <= r < rows,
            0 <= c < cols,
    ;
}

pub proof fn lemma_index_inj(r1: int, c1: int, r2: int, c2: int, cols: int)
    requires
        0 <= r1,
        0 <= r2,
        0 <= c1 < cols,
        0 <= c2 < cols,
        r1 * cols + c1 == r2 * cols + c2,
    ensures
        r1 == r2,
        c1 == c2,
{
    if r1 < r2 {
        assert(r1 * cols + c1 < r2 * cols + c2) by (nonlinear_arith)
            requires
                r1 < r2,
                0 <= c1 < cols,
                0 <= c2,
        ;
    } else if r2 < r1 {
        assert(r2 * cols + c2 < r1 * cols + c1) by (nonlinear_arith)
            requires
                r2 < r1,
                0 <= c2 < cols,
                0 <= c1,
        ;
    }
}

/// A rectangular grid stored row by row in one vector; `0` is an empty cell.
pub struct FlatGrid {
    pub data: Vec<u8>,
    pub rows: usize,
    pub cols: usize,
}

impl View for FlatGrid {
    type V = Seq<Seq<u8>>;

    open spec fn view(&self) -> Seq<Seq<u8>> {
        Seq::new(
            self.rows as nat,
            |r: int| Seq::new(self.cols as nat, |c: int| self.data@[r * self.cols + c]),
        )
    }
}

impl FlatGrid {
    pub open spec fn wf(&self) -> bool {
        &&& self.rows <= MAX_DIM
        &&& self.cols <= MAX_DIM
        &&& self.data@.len() == self.rows * self.cols
        &&& forall|i: int| 0 <= i < self.data@.len() ==> #[trigger] self.data@[i] <= MAX_VALUE
    }

    /// Number of non-empty cells.
    pub open spec fn remaining(&self) -> nat {
        count_nz(self.data@)
    }

    /// Builds a grid from its rows; rejects ragged rows, values above
    /// `MAX_VALUE` and more than `MAX_DIM` rows or columns.
    pub fn new(grid: &Vec<Vec<u8>>) -> (r: Result<FlatGrid, GridError>)
        ensures
            r is Ok <==> valid_matrix(grid@),
            r matches Err(e) ==> matrix_error(grid@) == Some(e),
            r matches Ok(g) ==> g.wf() && g@ == rows_view(grid@) && g.rows == grid@.len(),
    {
        let rows = grid.len();
        if rows > MAX_DIM {
            return Err(GridError::TooLarge);
        }
        let cols: usize = if rows > 0 {
            grid[0].len()
        } else {
            0
        };
        if cols > MAX_DIM {
            return Err(GridError::TooLarge);
        }
        let mut i: usize = 0;
        while i < rows
            invariant
                i <= rows <= MAX_DIM,
                cols <= MAX_DIM,
                rows == grid@.len(),
                rows > 0 ==> cols == grid@[0]@.len(),
                forall|k: int| 0 <= k < i ==> (#[trigger] grid@[k])@.len() == cols,
            decreases rows - i,
        {
            if grid[i].len() != cols {
                return Err(GridError::Ragged);
            }
            i += 1;
        }
        let mut data: Vec<u8> = Vec::new();
        let mut r: usize = 0;
        while r < rows
            invariant
                r <= rows <= MAX_DIM,
                cols <= MAX_DIM,
                rows == grid@.len(),
                rows > 0 ==> cols == grid@[0]@.len(),
                forall|k: int| 0 <= k < rows ==> (#[trigger] grid@[k])@.len() == cols,
                data@.len() == r * cols,
                forall|k: int| 0 <= k < data@.len() ==> #[trigger] data@[k] <= MAX_VALUE,
                forall|a: int, b: int|
                    0 <= a < r && 0 <= b < cols ==> data@[a * cols + b] == grid@[a]@[b],
                forall|a: int, b: int|
                    0 <= a < r && 0 <= b < cols ==> (#[trigger] grid@[a]@[b]) <= MAX_VALUE,
            decreases rows - r,
        {
            let mut c: usize = 0;
            while c < cols
                invariant
                    r < rows <= MAX_DIM,
                    c <= cols <= MAX_DIM,
                    rows == grid@.len(),
                    forall|k: int| 0 <= k < rows ==> (#[trigger] grid@[k])@.len() == cols,
                    data@.len() == r * cols + c,
                    forall|k: int| 0 <= k < data@.len() ==> #[trigger] data@[k] <= MAX_VALUE,
                    forall|a: int, b: int|
                        0 <= a < r && 0 <= b < cols ==> data@[a * cols + b] == grid@[a]@[b],
                    forall|b: int| 0 <= b < c ==> data@[r * cols + b] == grid@[r as int]@[b],
                    forall|a: int, b: int|
                        0 <= a < r && 0 <= b < cols ==> (#[trigger] grid@[a]@[b]) <= MAX_VALUE,
                    forall|b: int| 0 <= b < c ==> (#[trigger] grid@[r as int]@[b]) <= MAX_VALUE,
                decreases cols - c,
            {
                let v = grid[r][c];
                if v > MAX_VALUE {
                    proof {
                        assert(valid_shape(grid@));
                        assert(!valid_matrix(grid@)) by {
                            assert(grid@[r as int]@[c as int] > MAX_VALUE);
                        }
                    }
                    return Err(GridError::ValueOutOfRange);
                }
                proof {
                    lemma_index(r as int, c as int, rows as int, cols as int);
                }
                let ghost before = data@;
                data.push(v);
                proof {
                    assert forall|a: int, b: int| 0 <= a < r && 0 <= b < cols implies data@[a * cols
                        + b] == grid@[a]@[b] by {
                        lemma_index(a, b, r as int, cols as int);
                        assert(data@[a * cols + b] == before[a * cols + b]);
                    }
                    assert(r * cols + c + 1 == data@.len());
                }
                c += 1;
            }
            proof {
                assert((r + 1) * cols == r * cols + cols) by (nonlinear_arith);
            }
            r += 1;
        }
        let g = FlatGrid { data, rows, cols };
        proof {
            assert forall|a: int| 0 <= a < rows implies #[trigger] g@[a] =~= rows_view(grid@)[a] by {
                assert forall|b: int| 0 <= b < cols implies g@[a][b] == grid@[a]@[b] by {
                    lemma_index(a, b, rows as int, cols as int);
                }
            }
            assert(g@ =~= rows_view(grid@));
        }
        Ok(g)
    }

    pub fn get(&self, row: usize, col: usize) -> (r: u8)
        requires
            self.wf(),
            row < self.rows,
            col < self.cols,
        ensures
            r == self@[row as int][col as int],
            r <= MAX_VALUE,
    {
        proof {
            lemma_index(row as int, col as int, self.rows as int, self.cols as int);
        }
        self.data[row * self.cols + col]
    }

    pub fn set(&mut self, row: usize, col: usize, value: u8)
        requires
            old(self).wf(),
            row < old(self).rows,
            col < old(self).cols,
            value <= MAX_VALUE,
        ensures
            final(self).wf(),
            final(self).rows == old(self).rows,
            final(self).cols == old(self).cols,
            final(self).data@ == old(self).data@.update(row * old(self).cols + col, value),
            final(self)@ == old(self)@.update(
                row as int,
                old(self)@[row as int].update(col as int, value),
            ),
    {
        proof {
            lemma_index(row as int, col as int, self.rows as int, self.cols as int);
        }
        let ghost pre = *self;
        let i = row * self.cols + col;
        self.data.set(i, value);
        proof {
            let cols = self.cols as int;
            assert forall|r: int, c: int| 0 <= r < self.rows && 0 <= c < cols implies self@[r][c]
                == pre@.update(row as int, pre@[row as int].update(col as int, value))[r][c] by {
                lemma_index(r, c, self.rows as int, cols);
                if r * cols + c == i {
                    lemma_index_inj(r, c, row as int, col as int, cols);
                }
            }
            assert(self@ =~~= pre@.update(row as int, pre@[row as int].update(col as int, value)));
        }
    }

    /// The grid as a vector of rows.
    pub fn to_vec(&self) -> (r: Vec<Vec<u8>>)
        requires
            self.wf(),
        ensures
            rows_view(r@) == self@,
    {
        let mut out: Vec<Vec<u8>> = Vec::new();
        let mut r: usize = 0;
        while r < self.rows
            invariant
                self.wf(),
                r <= self.rows,
                out@.len() == r,
                forall|a: int| 0 <= a < r ==> (#[trigger] out@[a])@ == self@[a],
            decreases self.rows - r,
        {
            let mut line: Vec<u8> = Vec::new();
            let mut c: usize = 0;
            while c < self.cols
                invariant
                    self.wf(),
                    r < self.rows,
                    c <= self.cols,
                    line@ == self@[r as int].take(c as int),
                decreases self.cols - c,
            {
                let v = self.get(r, c);
                line.push(v);
                proof {
                    assert(line@ =~= self@[r as int].take(c + 1));
                }
                c += 1;
            }
            assert(line@ =~= self@[r as int]);
            out.push(line);
            r += 1;
        }
        assert(rows_view(out@) =~= self@);
        out
    }

    /// Number of non-empty cells.
    pub fn count_remaining(&self) -> (r: usize)
        ensures
            r == self.remaining(),
    {
        let mut n: usize = 0;
        let mut i: usize = 0;
        while i < self.data.len()
            invariant
                i <= self.data@.len(),
                n == count_nz(self.data@.take(i as int)),
                n <= i,
            decreases self.data@.len() - i,
        {
            proof {
                assert(self.data@.take(i + 1).drop_last() =~= self.data@.take(i as int));
            }
            if self.data[i] != 0 {
                n += 1;
            }
            i += 1;
        }
        assert(self.data@.take(i as int) =~= self.data@);
        n
    }

    /// A new grid equal to this one with the positions of `cells` emptied.
    pub fn apply_move(&self, cells: &Vec<(usize, usize, u8)>) -> (r: FlatGrid)
        requires
            self.wf(),
            forall|k: int|
                0 <= k < cells@.len() ==> (#[trigger] cells@[k]).0 < self.rows && cells@[k].1
                    < self.cols,
        ensures
            r.wf(),
            r.rows == self.rows,
            r.cols == self.cols,
            r@ == clear_cells(self@, cells@),
            r.remaining() <= self.remaining(),
            cells@.len() > 0 && self@[cells@[0].0 as int][cells@[0].1 as int] != 0
                ==> r.remaining() < self.remaining(),
    {
        let mut g = FlatGrid { data: self.data.clone(), rows: self.rows, cols: self.cols };
        let mut j: usize = 0;
        assert(g.data@ =~= self.data@);
        assert(clear_cells(self@, cells@.take(0)) =~~= self@);
        while j < cells.len()
            invariant
                self.wf(),
                g.wf(),
                g.rows == self.rows,
                g.cols == self.cols,
                j <= cells@.len(),
                forall|k: int|
                    0 <= k < cells@.len() ==> (#[trigger] cells@[k]).0 < self.rows && cells@[k].1
                        < self.cols,
                g@ == clear_cells(self@, cells@.take(j as int)),
                g.remaining() <= self.remaining(),
                j > 0 && self@[cells@[0].0 as int][cells@[0].1 as int] != 0 ==> g.remaining()
                    < self.remaining(),
            decreases cells@.len() - j,
        {
            let (row, col, _) = cells[j];
            let ghost pre = g;
            proof {
                lemma_index(row as int, col as int, g.rows as int, g.cols as int);
                lemma_count_nz_clear(g.data@, row * g.cols + col);
            }
            g.set(row, col, 0);
            proof {
                let m = cells@.take(j + 1);
                assert(g@ =~~= clear_cells(self@, m)) by {
                    assert forall|r: int, c: int|
                        0 <= r < self.rows && 0 <= c < self.cols implies g@[r][c] == clear_cells(
                        self@,
                        m,
                    )[r][c] by {
                        if r == row && c == col {
                            assert(m[j as int].0 == r && m[j as int].1 == c);
                        } else {
                            assert(g@[r][c] == pre@[r][c]);
                            if exists|k: int| 0 <= k < m.len() && m[k].0 == r && m[k].1 == c {
                                let k = choose|k: int| 0 <= k < m.len() && m[k].0 == r && m[k].1 == c;
                                assert(cells@.take(j as int)[k] == m[k]);
                            }
                            if exists|k: int| 0 <= k < j && cells@.take(j as int)[k].0 == r
                                && cells@.take(j as int)[k].1 == c {
                                let k = choose|k: int| 0 <= k < j && cells@.take(j as int)[k].0 == r
                                    && cells@.take(j as int)[k].1 == c;
                                assert(m[k] == cells@.take(j as int)[k]);
                            }
                        }
                    }
                }
                if j == 0 {
                    assert(pre@[row as int][col as int] == self@[row as int][col as int]);
                    assert(pre.data@[row * pre.cols + col] == pre@[row as int][col as int]);
                }
            }
            j += 1;
        }
        assert(cells@.take(j as int) =~= cells@);
        g
    }
}

/// The rows of a vector of vectors, as sequences.
pub open spec fn rows_view(v: Seq<Vec<u8>>) -> Seq<Seq<u8>> {
    v.map_values(|row: Vec<u8>| row@)
}

/// All rows have the length of the first and there are at most `MAX_DIM` of
/// each.
pub open spec fn valid_shape(m: Seq<Vec<u8>>) -> bool {
    &&& m.len() <= MAX_DIM
    &&& m.len() > 0 ==> m[0]@.len() <= MAX_DIM
    &&& forall|r: int| 0 <= r < m.len() ==> (#[trigger] m[r])@.len() == m[0]@.len()
}

/// A matrix that can be a grid: `valid_shape` and every value at most `MAX_VALUE`.
pub open spec fn valid_matrix(m: Seq<Vec<u8>>) -> bool {
    &&& valid_shape(m)
    &&& forall|r: int, c: int|
        0 <= r < m.len() && 0 <= c < m[r]@.len() ==> (#[trigger] m[r]@[c]) <= MAX_VALUE
}

/// Why `m` is not a grid, if it is not: too many rows or columns, then rows
/// of differing length, then a value out of range.
pub open spec fn matrix_error(m: Seq<Vec<u8>>) -> Option<GridError> {
    if m.len() > MAX_DIM || (m.len() > 0 && m[0]@.len() > MAX_DIM) {
        Some(GridError::TooLarge)
    } else if !valid_shape(m) {
        Some(GridError::Ragged)
    } else if !valid_matrix(m) {
        Some(GridError::ValueOutOfRange)
    } else {
        None
    }
}

} // verus!
