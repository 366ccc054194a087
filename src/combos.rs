use vstd::prelude::*;
use crate::grid::{count_nz, FlatGrid};
use crate::subsets::{
    all_subsets, copy_cells, drawn_from, find_subsets_with_sum, lemma_subsets_complete, lemma_subsets_sound,
    lemma_sum_push, lt_pos, seqs_of, strictly_sorted, subsets_from, sum_vals, CellTuple,
    MAX_SUBSET_INPUT,
};

verus! {

/// The sum that every move must reach.
pub const TARGET: u16 = 10;

/// Each cell of `m` lies in `g`, holds the value that `g` has there, and is
/// not empty.
pub open spec fn on_grid(g: Seq<Seq<u8>>, m: Seq<CellTuple>) -> bool {
    forall|k: int|
        0 <= k < m.len() ==> {
            let x = #[trigger] m[k];
            &&& x.0 < g.len()
            &&& x.1 < g[x.0 as int].len()
            &&& x.2 == g[x.0 as int][x.1 as int]
            &&& x.2 > 0
        }
}

/// Column `col` of `g`, top to bottom.
pub open spec fn column(g: Seq<Seq<u8>>, col: int) -> Seq<u8> {
    Seq::new(g.len(), |r: int| g[r][col])
}

/// Some entry of `v` clears the same positions as `m`.
pub open spec fn found(v: Seq<Vec<CellTuple>>, m: Seq<CellTuple>) -> bool {
    exists|i: int| 0 <= i < v.len() && positions((#[trigger] v[i])@) == positions(m)
}

/// Some cell of `m` has column `c`.
pub open spec fn has_col(m: Seq<CellTuple>, c: int) -> bool {
    exists|k: int| 0 <= k < m.len() && (#[trigger] m[k]).1 == c
}

/// Some cell of `m` has row `r`.
pub open spec fn has_row(m: Seq<CellTuple>, r: int) -> bool {
    exists|k: int| 0 <= k < m.len() && (#[trigger] m[k]).0 == r
}

/// Some cell of `m` has a column below `c`.
pub open spec fn col_below(m: Seq<CellTuple>, c: int) -> bool {
    exists|i: int| 0 <= i < m.len() && (#[trigger] m[i]).1 < c
}

/// Some cell of `m` has a column above `c`.
pub open spec fn col_above(m: Seq<CellTuple>, c: int) -> bool {
    exists|i: int| 0 <= i < m.len() && c < (#[trigger] m[i]).1
}

/// Some cell of `m` has a row below `r`.
pub open spec fn row_below(m: Seq<CellTuple>, r: int) -> bool {
    exists|i: int| 0 <= i < m.len() && (#[trigger] m[i]).0 < r
}

/// Some cell of `m` has a row above `r`.
pub open spec fn row_above(m: Seq<CellTuple>, r: int) -> bool {
    exists|i: int| 0 <= i < m.len() && r < (#[trigger] m[i]).0
}

/// On row `row` of `g`, every column between two columns of `m` is a column
/// of `m` or empty.
pub open spec fn row_gaps_empty(g: Seq<Seq<u8>>, row: int, m: Seq<CellTuple>) -> bool {
    forall|c: int| col_below(m, c) && col_above(m, c) ==> has_col(m, c) || #[trigger] g[row][c] == 0
}

/// In column `col` of `g`, every row between two rows of `m` is a row of `m`
/// or empty.
pub open spec fn col_gaps_empty(g: Seq<Seq<u8>>, col: int, m: Seq<CellTuple>) -> bool {
    forall|r: int| row_below(m, r) && row_above(m, r) ==> has_row(m, r) || #[trigger] g[r][col] == 0
}

/// All of `m` is on row `row`, and every column between two of its cells
/// that `m` leaves out is empty in `g`.
pub open spec fn horizontal_run(g: Seq<Seq<u8>>, row: int, m: Seq<CellTuple>) -> bool {
    &&& forall|k: int| 0 <= k < m.len() ==> (#[trigger] m[k]).0 == row
    &&& row_gaps_empty(g, row, m)
}

/// All of `m` is on column `col`, and every row between two of its cells
/// that `m` leaves out is empty in `g`.
pub open spec fn vertical_run(g: Seq<Seq<u8>>, col: int, m: Seq<CellTuple>) -> bool {
    &&& forall|k: int| 0 <= k < m.len() ==> (#[trigger] m[k]).1 == col
    &&& col_gaps_empty(g, col, m)
}

/// `m` lies in the rectangle of rows `r0..=r1` and columns `c0..=c1`, which
/// lies in `g` and spans more than one row and column, and holds every
/// non-empty cell of it.
pub open spec fn rectangle(g: Seq<Seq<u8>>, m: Seq<CellTuple>, r0: int, c0: int, r1: int, c1: int) -> bool {
    &&& 0 <= r0 < r1 < g.len()
    &&& 0 <= c0 < c1 < g[r0].len()
    &&& forall|k: int|
        0 <= k < m.len() ==> r0 <= (#[trigger] m[k]).0 <= r1 && c0 <= m[k].1 <= c1
    &&& forall|r: int, c: int|
        r0 <= r <= r1 && c0 <= c <= c1 && 0 <= r < g.len() && 0 <= c < g[r].len() && #[trigger] g[r][c]
            != 0 ==> exists|k: int| 0 <= k < m.len() && (#[trigger] m[k]).0 == r && m[k].1 == c
}

/// A valid move on `g`: non-empty cells in row-major order, summing to the
/// target, forming a horizontal run, a vertical run or a rectangle.
pub open spec fn is_move(g: Seq<Seq<u8>>, m: Seq<CellTuple>) -> bool {
    &&& m.len() > 0
    &&& strictly_sorted(m)
    &&& on_grid(g, m)
    &&& sum_vals(m) == TARGET
    &&& {
        ||| horizontal_run(g, m[0].0 as int, m)
        ||| vertical_run(g, m[0].1 as int, m)
        ||| exists|r0: int, c0: int, r1: int, c1: int| rectangle(g, m, r0, c0, r1, c1)
    }
}

/// The positions of `m`.
pub open spec fn positions(m: Seq<CellTuple>) -> Seq<(usize, usize)> {
    m.map_values(|x: CellTuple| (x.0, x.1))
}

/// No two entries of `v` have the same positions.
pub open spec fn distinct_positions(v: Seq<Vec<CellTuple>>) -> bool {
    forall|i: int, j: int|
        0 <= i < j < v.len() ==> positions((#[trigger] v[i])@) != positions((#[trigger] v[j])@)
}

/// Values at least one and summing to the target leave at most that many cells.
pub proof fn lemma_move_size(m: Seq<CellTuple>)
    requires
        forall|k: int| 0 <= k < m.len() ==> (#[trigger] m[k]).2 >= 1,
    ensures
        sum_vals(m) >= m.len(),
    decreases m.len(),
{
    if m.len() > 0 {
        lemma_move_size(m.drop_last());
    }
}

/// The non-empty cells of row `row`, by column.
pub fn row_cells(grid: &FlatGrid, row: usize) -> (r: Vec<CellTuple>)
    requires
        grid.wf(),
        row < grid.rows,
    ensures
        strictly_sorted(r@),
        on_grid(grid@, r@),
        forall|k: int| 0 <= k < r@.len() ==> (#[trigger] r@[k]).0 == row,
        r@.len() == count_nz(grid@[row as int]),
        forall|c: int|
            0 <= c < grid.cols && #[trigger] grid@[row as int][c] != 0 ==> exists|k: int|
                0 <= k < r@.len() && r@[k] == (row, c as usize, grid@[row as int][c]),
        r@ == row_line(grid@, row as int),
{
    let mut out: Vec<CellTuple> = Vec::new();
    let mut c: usize = 0;
    while c < grid.cols
        invariant
            grid.wf(),
            row < grid.rows,
            c <= grid.cols,
            strictly_sorted(out@),
            on_grid(grid@, out@),
            forall|k: int| 0 <= k < out@.len() ==> (#[trigger] out@[k]).0 == row && out@[k].1 < c,
            out@.len() == count_nz(grid@[row as int].take(c as int)),
            forall|x: int|
                0 <= x < c && #[trigger] grid@[row as int][x] != 0 ==> exists|k: int|
                    0 <= k < out@.len() && out@[k] == (row, x as usize, grid@[row as int][x]),
        decreases grid.cols - c,
    {
        let v = grid.get(row, c);
        let ghost pre = out@;
        assert(grid@[row as int].take(c + 1).drop_last() =~= grid@[row as int].take(c as int));
        if v > 0 {
            out.push((row, c, v));
        }
        proof {
            assert forall|x: int| 0 <= x < c + 1 && #[trigger] grid@[row as int][x] != 0 implies exists|
                k: int,
            | 0 <= k < out@.len() && out@[k] == (row, x as usize, grid@[row as int][x]) by {
                if x < c {
                    let k = choose|k: int| 0 <= k < pre.len() && pre[k] == (row, x as usize, grid@[row as int][x]);
                    assert(out@[k] == pre[k]);
                } else {
                    assert(out@[pre.len() as int] == (row, x as usize, grid@[row as int][x]));
                }
            }
        }
        c += 1;
    }
    assert(grid@[row as int].take(c as int) =~= grid@[row as int]);
    proof {
        let g = grid@;
        assert(row_list(g, row as int, out@));
        let t = row_line(g, row as int);
        assert forall|x: int| 0 <= x < out@.len() implies pos_in(#[trigger] out@[x], t) by {
            assert(g[row as int][out@[x].1 as int] != 0);
        }
        assert forall|y: int| 0 <= y < t.len() implies pos_in(#[trigger] t[y], out@) by {
            assert(g[row as int][t[y].1 as int] != 0);
        }
        lemma_same_cells(g, out@, t);
    }
    out
}

/// The non-empty cells of column `col`, by row.
pub fn col_cells(grid: &FlatGrid, col: usize) -> (r: Vec<CellTuple>)
    requires
        grid.wf(),
        col < grid.cols,
    ensures
        strictly_sorted(r@),
        on_grid(grid@, r@),
        forall|k: int| 0 <= k < r@.len() ==> (#[trigger] r@[k]).1 == col,
        r@.len() == count_nz(column(grid@, col as int)),
        forall|x: int|
            0 <= x < grid.rows && #[trigger] grid@[x][col as int] != 0 ==> exists|k: int|
                0 <= k < r@.len() && r@[k] == (x as usize, col, grid@[x][col as int]),
        r@ == col_line(grid@, col as int),
{
    let mut out: Vec<CellTuple> = Vec::new();
    let mut rw: usize = 0;
    let ghost line = column(grid@, col as int);
    while rw < grid.rows
        invariant
            grid.wf(),
            col < grid.cols,
            rw <= grid.rows,
            line == column(grid@, col as int),
            strictly_sorted(out@),
            on_grid(grid@, out@),
            forall|k: int| 0 <= k < out@.len() ==> (#[trigger] out@[k]).1 == col && out@[k].0 < rw,
            out@.len() == count_nz(line.take(rw as int)),
            forall|x: int|
                0 <= x < rw && #[trigger] grid@[x][col as int] != 0 ==> exists|k: int|
                    0 <= k < out@.len() && out@[k] == (x as usize, col, grid@[x][col as int]),
        decreases grid.rows - rw,
    {
        let v = grid.get(rw, col);
        let ghost pre = out@;
        assert(line.take(rw + 1).drop_last() =~= line.take(rw as int));
        if v > 0 {
            out.push((rw, col, v));
        }
        proof {
            assert forall|x: int| 0 <= x < rw + 1 && #[trigger] grid@[x][col as int] != 0 implies exists|
                k: int,
            | 0 <= k < out@.len() && out@[k] == (x as usize, col, grid@[x][col as int]) by {
                if x < rw {
                    let k = choose|k: int| 0 <= k < pre.len() && pre[k] == (x as usize, col, grid@[x][col as int]);
                    assert(out@[k] == pre[k]);
                } else {
                    assert(out@[pre.len() as int] == (x as usize, col, grid@[x][col as int]));
                }
            }
        }
        rw += 1;
    }
    assert(line.take(rw as int) =~= line);
    proof {
        let g = grid@;
        assert(col_list(g, col as int, out@));
        let t = col_line(g, col as int);
        assert forall|x: int| 0 <= x < out@.len() implies pos_in(#[trigger] out@[x], t) by {
            assert(g[out@[x].0 as int][col as int] != 0);
        }
        assert forall|y: int| 0 <= y < t.len() implies pos_in(#[trigger] t[y], out@) by {
            assert(g[t[y].0 as int][col as int] != 0);
        }
        lemma_same_cells(g, out@, t);
    }
    out
}

fn contains_col(cells: &Vec<CellTuple>, c: usize) -> (r: bool)
    ensures
        r == has_col(cells@, c as int),
{
    let mut i: usize = 0;
    while i < cells.len()
        invariant
            i <= cells@.len(),
            forall|k: int| 0 <= k < i ==> (#[trigger] cells@[k]).1 != c,
        decreases cells@.len() - i,
    {
        if cells[i].1 == c {
            return true;
        }
        i += 1;
    }
    false
}

fn contains_row(cells: &Vec<CellTuple>, rw: usize) -> (r: bool)
    ensures
        r == has_row(cells@, rw as int),
{
    let mut i: usize = 0;
    while i < cells.len()
        invariant
            i <= cells@.len(),
            forall|k: int| 0 <= k < i ==> (#[trigger] cells@[k]).0 != rw,
        decreases cells@.len() - i,
    {
        if cells[i].0 == rw {
            return true;
        }
        i += 1;
    }
    false
}

/// Whether `cells` is non-empty and every column of row `row` between two of
/// its columns is one of them or empty; the cells may come in any order.
pub fn is_valid_horizontal(cells: &Vec<CellTuple>, grid: &FlatGrid, row: usize) -> (r: bool)
    requires
        grid.wf(),
        row < grid.rows,
        forall|k: int| 0 <= k < cells@.len() ==> (#[trigger] cells@[k]).1 < grid.cols,
    ensures
        r == (cells@.len() > 0 && row_gaps_empty(grid@, row as int, cells@)),
{
    if cells.len() == 0 {
        return false;
    }
    let mut lo = cells[0].1;
    let mut hi = cells[0].1;
    let mut i: usize = 1;
    while i < cells.len()
        invariant
            1 <= i <= cells@.len(),
            exists|a: int| 0 <= a < i && (#[trigger] cells@[a]).1 == lo,
            exists|b: int| 0 <= b < i && (#[trigger] cells@[b]).1 == hi,
            forall|k: int| 0 <= k < i ==> lo <= (#[trigger] cells@[k]).1 <= hi,
            forall|k: int| 0 <= k < cells@.len() ==> (#[trigger] cells@[k]).1 < grid.cols,
            hi < grid.cols,
        decreases cells@.len() - i,
    {
        if cells[i].1 < lo {
            lo = cells[i].1;
        }
        if cells[i].1 > hi {
            hi = cells[i].1;
        }
        i += 1;
    }
    let mut c: usize = lo + 1;
    while c < hi
        invariant
            grid.wf(),
            row < grid.rows,
            hi < grid.cols,
            lo < c,
            exists|a: int| 0 <= a < cells@.len() && (#[trigger] cells@[a]).1 == lo,
            exists|b: int| 0 <= b < cells@.len() && (#[trigger] cells@[b]).1 == hi,
            forall|x: int| lo < x < c ==> has_col(cells@, x) || #[trigger] grid@[row as int][x] == 0,
        decreases hi - c,
    {
        if !contains_col(cells, c) && grid.get(row, c) != 0 {
            proof {
                let a = choose|a: int| 0 <= a < cells@.len() && (#[trigger] cells@[a]).1 == lo;
                let b = choose|b: int| 0 <= b < cells@.len() && (#[trigger] cells@[b]).1 == hi;
                assert(col_below(cells@, c as int));
                assert(col_above(cells@, c as int));
            }
            return false;
        }
        c += 1;
    }
    proof {
        assert forall|x: int| col_below(cells@, x) && col_above(cells@, x) implies has_col(cells@, x)
            || #[trigger] grid@[row as int][x] == 0 by {
            let a = choose|a: int| 0 <= a < cells@.len() && (#[trigger] cells@[a]).1 < x;
            let b = choose|b: int| 0 <= b < cells@.len() && x < (#[trigger] cells@[b]).1;
        }
    }
    true
}

/// Whether `cells` is non-empty and every row of column `col` between two of
/// its rows is one of them or empty; the cells may come in any order.
pub fn is_valid_vertical(cells: &Vec<CellTuple>, grid: &FlatGrid, col: usize) -> (r: bool)
    requires
        grid.wf(),
        col < grid.cols,
        forall|k: int| 0 <= k < cells@.len() ==> (#[trigger] cells@[k]).0 < grid.rows,
    ensures
        r == (cells@.len() > 0 && col_gaps_empty(grid@, col as int, cells@)),
{
    if cells.len() == 0 {
        return false;
    }
    let mut lo = cells[0].0;
    let mut hi = cells[0].0;
    let mut i: usize = 1;
    while i < cells.len()
        invariant
            1 <= i <= cells@.len(),
            exists|a: int| 0 <= a < i && (#[trigger] cells@[a]).0 == lo,
            exists|b: int| 0 <= b < i && (#[trigger] cells@[b]).0 == hi,
            forall|k: int| 0 <= k < i ==> lo <= (#[trigger] cells@[k]).0 <= hi,
            forall|k: int| 0 <= k < cells@.len() ==> (#[trigger] cells@[k]).0 < grid.rows,
            hi < grid.rows,
        decreases cells@.len() - i,
    {
        if cells[i].0 < lo {
            lo = cells[i].0;
        }
        if cells[i].0 > hi {
            hi = cells[i].0;
        }
        i += 1;
    }
    let mut rw: usize = lo + 1;
    while rw < hi
        invariant
            grid.wf(),
            col < grid.cols,
            hi < grid.rows,
            lo < rw,
            exists|a: int| 0 <= a < cells@.len() && (#[trigger] cells@[a]).0 == lo,
            exists|b: int| 0 <= b < cells@.len() && (#[trigger] cells@[b]).0 == hi,
            forall|x: int| lo < x < rw ==> has_row(cells@, x) || #[trigger] grid@[x][col as int] == 0,
        decreases hi - rw,
    {
        if !contains_row(cells, rw) && grid.get(rw, col) != 0 {
            proof {
                let a = choose|a: int| 0 <= a < cells@.len() && (#[trigger] cells@[a]).0 == lo;
                let b = choose|b: int| 0 <= b < cells@.len() && (#[trigger] cells@[b]).0 == hi;
                assert(row_below(cells@, rw as int));
                assert(row_above(cells@, rw as int));
            }
            return false;
        }
        rw += 1;
    }
    proof {
        assert forall|x: int| row_below(cells@, x) && row_above(cells@, x) implies has_row(cells@, x)
            || #[trigger] grid@[x][col as int] == 0 by {
            let a = choose|a: int| 0 <= a < cells@.len() && (#[trigger] cells@[a]).0 < x;
            let b = choose|b: int| 0 <= b < cells@.len() && x < (#[trigger] cells@[b]).0;
        }
    }
    true
}

/// The non-empty cells of the rectangle of rows `r0..=r1` and columns
/// `c0..=c1`, in row-major order, with their sum when it is at most the
/// target (a larger sum is reported as some value above the target).
pub fn rect_cells(grid: &FlatGrid, r0: usize, c0: usize, r1: usize, c1: usize) -> (r: (
    Vec<CellTuple>,
    u16,
))
    requires
        grid.wf(),
        r0 <= r1 < grid.rows,
        c0 <= c1 < grid.cols,
    ensures
        strictly_sorted(r.0@),
        on_grid(grid@, r.0@),
        forall|k: int|
            0 <= k < r.0@.len() ==> r0 <= (#[trigger] r.0@[k]).0 <= r1 && c0 <= r.0@[k].1 <= c1,
        forall|rr: int, cc: int|
            r0 <= rr <= r1 && c0 <= cc <= c1 && #[trigger] grid@[rr][cc] != 0 ==> exists|k: int|
                0 <= k < r.0@.len() && (#[trigger] r.0@[k]).0 == rr && r.0@[k].1 == cc,
        sum_vals(r.0@) <= TARGET ==> r.1 == sum_vals(r.0@),
        sum_vals(r.0@) > TARGET ==> r.1 > TARGET,
        r.0@ == rect_seq(grid@, r0 as int, c0 as int, r1 as int, c1 as int),
{
    let mut out: Vec<CellTuple> = Vec::new();
    let mut sum: u16 = 0;
    let mut rw: usize = r0;
    while rw <= r1
        invariant
            grid.wf(),
            r0 <= rw <= r1 + 1,
            r1 < grid.rows,
            c0 <= c1 < grid.cols,
            strictly_sorted(out@),
            on_grid(grid@, out@),
            forall|k: int|
                0 <= k < out@.len() ==> r0 <= (#[trigger] out@[k]).0 < rw && c0 <= out@[k].1 <= c1,
            forall|rr: int, cc: int|
                r0 <= rr < rw && c0 <= cc <= c1 && #[trigger] grid@[rr][cc] != 0 ==> exists|k: int|
                    0 <= k < out@.len() && (#[trigger] out@[k]).0 == rr && out@[k].1 == cc,
            sum_vals(out@) <= TARGET ==> sum == sum_vals(out@),
            sum_vals(out@) > TARGET ==> sum > TARGET,
            sum <= TARGET + 9,
        decreases r1 + 1 - rw,
    {
        let mut c: usize = c0;
        while c <= c1
            invariant
                grid.wf(),
                r0 <= rw <= r1,
                r1 < grid.rows,
                c0 <= c <= c1 + 1,
                c1 < grid.cols,
                strictly_sorted(out@),
                on_grid(grid@, out@),
                forall|k: int|
                    0 <= k < out@.len() ==> r0 <= (#[trigger] out@[k]).0 <= rw && c0 <= out@[k].1
                        <= c1 && (out@[k].0 == rw ==> out@[k].1 < c),
                forall|rr: int, cc: int|
                    r0 <= rr < rw && c0 <= cc <= c1 && #[trigger] grid@[rr][cc] != 0 ==> exists|
                        k: int,
                    |
                        0 <= k < out@.len() && (#[trigger] out@[k]).0 == rr && out@[k].1 == cc,
                forall|cc: int|
                    c0 <= cc < c && #[trigger] grid@[rw as int][cc] != 0 ==> exists|k: int|
                        0 <= k < out@.len() && (#[trigger] out@[k]).0 == rw && out@[k].1 == cc,
                sum_vals(out@) <= TARGET ==> sum == sum_vals(out@),
                sum_vals(out@) > TARGET ==> sum > TARGET,
                sum <= TARGET + 9,
            decreases c1 + 1 - c,
        {
            let v = grid.get(rw, c);
            if v > 0 {
                let ghost pre = out@;
                out.push((rw, c, v));
                proof {
                    lemma_sum_push(pre, (rw, c, v));
                    assert forall|rr: int, cc: int|
                        r0 <= rr < rw && c0 <= cc <= c1 && #[trigger] grid@[rr][cc] != 0 implies exists|
                        k: int,
                    | 0 <= k < out@.len() && (#[trigger] out@[k]).0 == rr && out@[k].1 == cc by {
                        let k = choose|k: int| 0 <= k < pre.len() && (#[trigger] pre[k]).0 == rr && pre[k].1 == cc;
                        assert(out@[k] == pre[k]);
                    }
                    assert forall|cc: int|
                        c0 <= cc < c + 1 && #[trigger] grid@[rw as int][cc] != 0 implies exists|k: int|
                        0 <= k < out@.len() && (#[trigger] out@[k]).0 == rw && out@[k].1 == cc by {
                        if cc == c {
                            assert(out@[pre.len() as int].1 == cc);
                        } else {
                            let k = choose|k: int| 0 <= k < pre.len() && (#[trigger] pre[k]).0 == rw && pre[k].1 == cc;
                            assert(out@[k] == pre[k]);
                        }
                    }
                }
                if sum <= TARGET {
                    sum = sum + v as u16;
                }
            }
            c += 1;
        }
        rw += 1;
    }
    proof {
        let g = grid@;
        assert(rect_list(g, r0 as int, c0 as int, r1 as int, c1 as int, out@));
        let t = rect_seq(g, r0 as int, c0 as int, r1 as int, c1 as int);
        assert forall|x: int| 0 <= x < out@.len() implies pos_in(#[trigger] out@[x], t) by {
            assert(g[out@[x].0 as int][out@[x].1 as int] != 0);
        }
        assert forall|y: int| 0 <= y < t.len() implies pos_in(#[trigger] t[y], out@) by {
            assert(g[t[y].0 as int][t[y].1 as int] != 0);
        }
        lemma_same_cells(g, out@, t);
    }
    (out, sum)
}

/// Whether two moves clear the same positions.
pub fn same_positions(a: &Vec<CellTuple>, b: &Vec<CellTuple>) -> (r: bool)
    ensures
        r == (positions(a@) == positions(b@)),
{
    if a.len() != b.len() {
        assert(positions(a@).len() != positions(b@).len());
        return false;
    }
    let mut i: usize = 0;
    while i < a.len()
        invariant
            i <= a@.len() == b@.len(),
            forall|k: int| 0 <= k < i ==> positions(a@)[k] == positions(b@)[k],
        decreases a@.len() - i,
    {
        if a[i].0 != b[i].0 || a[i].1 != b[i].1 {
            assert(positions(a@)[i as int] != positions(b@)[i as int]);
            return false;
        }
        i += 1;
    }
    assert(positions(a@) =~= positions(b@));
    true
}

/// Appends a copy of `cand` unless a move with the same positions is already
/// in `combinations`.
pub fn add_combination(combinations: &mut Vec<Vec<CellTuple>>, cand: &Vec<CellTuple>)
    ensures
        (exists|i: int|
            0 <= i < old(combinations)@.len() && positions((#[trigger] old(combinations)@[i])@)
                == positions(cand@)) ==> final(combinations)@ == old(combinations)@,
        !(exists|i: int|
            0 <= i < old(combinations)@.len() && positions((#[trigger] old(combinations)@[i])@)
                == positions(cand@)) ==> final(combinations)@.len() == old(combinations)@.len() + 1
            && final(combinations)@.take(old(combinations)@.len() as int) == old(combinations)@
            && final(combinations)@.last()@ == cand@,
{
    let mut i: usize = 0;
    while i < combinations.len()
        invariant
            i <= combinations@.len(),
            forall|k: int|
                0 <= k < i ==> positions((#[trigger] combinations@[k])@) != positions(cand@),
        decreases combinations@.len() - i,
    {
        if same_positions(&combinations[i], cand) {
            return;
        }
        i += 1;
    }
    let ghost pre = combinations@;
    let copy = copy_cells(cand);
    combinations.push(copy);
    assert(combinations@.take(pre.len() as int) =~= pre);
}

/// Every entry of `v` is a move on `g` that the finder must report, and no
/// two share their positions.
pub open spec fn sound_moves(g: Seq<Seq<u8>>, v: Seq<Vec<CellTuple>>) -> bool {
    &&& forall|i: int| 0 <= i < v.len() ==> findable(g, (#[trigger] v[i])@)
    &&& distinct_positions(v)
}

fn add_move(combinations: &mut Vec<Vec<CellTuple>>, cand: &Vec<CellTuple>, grid: &FlatGrid)
    requires
        findable(grid@, cand@),
        sound_moves(grid@, old(combinations)@),
    ensures
        sound_moves(grid@, final(combinations)@),
        seqs_of(final(combinations)@) == dedup_push(seqs_of(old(combinations)@), cand@),
        found(final(combinations)@, cand@),
        forall|m: Seq<CellTuple>| found(old(combinations)@, m) ==> #[trigger] found(final(combinations)@, m),
{
    let ghost pre = combinations@;
    add_combination(combinations, cand);
    proof {
        if exists|i: int| 0 <= i < pre.len() && positions((#[trigger] pre[i])@) == positions(cand@) {
            let i = choose|i: int| 0 <= i < pre.len() && positions((#[trigger] pre[i])@) == positions(cand@);
            assert(seqs_of(pre)[i] == pre[i]@);
        }
    }
    proof {
        if !(exists|i: int| 0 <= i < pre.len() && positions((#[trigger] pre[i])@) == positions(cand@)) {
            let v = combinations@;
            assert(v[pre.len() as int]@ == cand@);
            assert(!(exists|i: int| 0 <= i < seqs_of(pre).len() && positions(#[trigger] seqs_of(pre)[i]) == positions(cand@))) by {
                if exists|i: int| 0 <= i < seqs_of(pre).len() && positions(#[trigger] seqs_of(pre)[i]) == positions(cand@) {
                    let i = choose|i: int| 0 <= i < seqs_of(pre).len() && positions(#[trigger] seqs_of(pre)[i]) == positions(cand@);
                    assert(seqs_of(pre)[i] == pre[i]@);
                }
            }
            assert(seqs_of(v) =~= seqs_of(pre).push(cand@)) by {
                assert forall|i: int| 0 <= i < pre.len() implies seqs_of(v)[i] == seqs_of(pre)[i] by {
                    assert(v.take(pre.len() as int)[i] == v[i]);
                }
            }
            assert forall|m: Seq<CellTuple>| found(pre, m) implies #[trigger] found(v, m) by {
                let i = choose|i: int| 0 <= i < pre.len() && positions((#[trigger] pre[i])@) == positions(m);
                assert(v.take(pre.len() as int)[i] == v[i]);
            }
        }
        if !(exists|i: int| 0 <= i < pre.len() && positions((#[trigger] pre[i])@) == positions(cand@)) {
            let v = combinations@;
            assert forall|i: int| 0 <= i < v.len() implies findable(grid@, (#[trigger] v[i])@) by {
                if i < pre.len() {
                    assert(v.take(pre.len() as int)[i] == v[i]);
                }
            }
            assert forall|i: int, j: int| 0 <= i < j < v.len() implies positions((#[trigger] v[i])@)
                != positions((#[trigger] v[j])@) by {
                assert(v.take(pre.len() as int)[i] == v[i]);
                if j < pre.len() {
                    assert(v.take(pre.len() as int)[j] == v[j]);
                } else {
                    assert(positions(pre[i]@) != positions(cand@));
                }
            }
        }
    }
}

/// The subsets of `line` (non-empty cells of one row or column, in order)
/// that reach the target.
pub fn line_subsets(line: &Vec<CellTuple>) -> (r: Vec<Vec<CellTuple>>)
    requires
        strictly_sorted(line@),
    ensures
        forall|k: int|
            0 <= k < r@.len() ==> {
                let s = (#[trigger] r@[k])@;
                &&& sum_vals(s) == TARGET
                &&& s.len() > 0
                &&& strictly_sorted(s)
                &&& drawn_from(s, line@, line@.len() as int)
            },
        0 < line@.len() <= MAX_SUBSET_INPUT ==> seqs_of(r@) == all_subsets(line@, TARGET as int),
        line@.len() > MAX_SUBSET_INPUT ==> r@.len() == 0,
        seqs_of(r@) == line_subs(line@),
{
    let mut subs: Vec<Vec<CellTuple>> = Vec::new();
    find_subsets_with_sum(line, TARGET, &mut subs);
    proof {
        if !(0 < line@.len() <= MAX_SUBSET_INPUT) {
            assert(seqs_of(subs@) =~= line_subs(line@));
        }
        if 0 < line@.len() <= MAX_SUBSET_INPUT {
            let e = Seq::<CellTuple>::empty();
            assert(e =~= seq![]);
            lemma_subsets_sound(line@, 0, e, TARGET as int);
            assert(seqs_of(subs@) =~= all_subsets(line@, TARGET as int));
            assert forall|k: int| 0 <= k < subs@.len() implies subs@[k]@ == all_subsets(
                line@,
                TARGET as int,
            )[k] by {
                assert(seqs_of(subs@)[k] == subs@[k]@);
            }
            assert forall|k: int| 0 <= k < subs@.len() implies {
                let s = (#[trigger] subs@[k])@;
                &&& sum_vals(s) == TARGET
                &&& s.len() > 0
                &&& strictly_sorted(s)
                &&& drawn_from(s, line@, line@.len() as int)
            } by {
                assert(subs@[k]@ == subsets_from(line@, 0, e, TARGET as int)[k]);
            }
        }
    }
    subs
}

/// `b` has a cell at the position of `x`.
pub open spec fn pos_in(x: CellTuple, b: Seq<CellTuple>) -> bool {
    exists|y: int| 0 <= y < b.len() && b[y].0 == x.0 && b[y].1 == x.1
}

proof fn lemma_drop_first_keeps(g: Seq<Seq<u8>>, a: Seq<CellTuple>)
    requires
        a.len() > 0,
        strictly_sorted(a),
        on_grid(g, a),
    ensures
        strictly_sorted(a.drop_first()),
        on_grid(g, a.drop_first()),
        forall|i: int| 0 <= i < a.drop_first().len() ==> lt_pos(a[0], #[trigger] a.drop_first()[i]),
{
    let t = a.drop_first();
    assert forall|i: int, j: int| 0 <= i < j < t.len() implies lt_pos(t[i], t[j]) by {
        assert(lt_pos(a[i + 1], a[j + 1]));
    }
    assert forall|k: int| 0 <= k < t.len() implies #[trigger] t[k] == a[k + 1] by {}
    assert forall|i: int| 0 <= i < t.len() implies lt_pos(a[0], #[trigger] t[i]) by {
        assert(lt_pos(a[0], a[i + 1]));
    }
}

/// Two moves in row-major order over the same positions of `g` are equal.
#[verifier::rlimit(40)]
pub proof fn lemma_same_cells(g: Seq<Seq<u8>>, a: Seq<CellTuple>, b: Seq<CellTuple>)
    requires
        strictly_sorted(a),
        strictly_sorted(b),
        on_grid(g, a),
        on_grid(g, b),
        forall|x: int| 0 <= x < a.len() ==> pos_in(#[trigger] a[x], b),
        forall|y: int| 0 <= y < b.len() ==> pos_in(#[trigger] b[y], a),
    ensures
        a == b,
    decreases a.len(),
{
    if a.len() == 0 {
        if b.len() > 0 {
            assert(pos_in(b[0], a));
        }
        assert(a =~= b);
    } else {
        assert(pos_in(a[0], b));
        if b.len() == 0 {
            assert(false);
        }
        assert(pos_in(b[0], a));
        let x = choose|x: int| 0 <= x < a.len() && a[x].0 == b[0].0 && a[x].1 == b[0].1;
        let y = choose|y: int| 0 <= y < b.len() && b[y].0 == a[0].0 && b[y].1 == a[0].1;
        if x > 0 {
            assert(lt_pos(a[0], a[x]));
            if y > 0 {
                assert(lt_pos(b[0], b[y]));
            }
        } else if y > 0 {
            assert(lt_pos(b[0], b[y]));
        }
        assert(a[0] == b[0]);
        let ta = a.drop_first();
        let tb = b.drop_first();
        lemma_drop_first_keeps(g, a);
        lemma_drop_first_keeps(g, b);
        assert forall|i: int| 0 <= i < ta.len() implies pos_in(#[trigger] ta[i], tb) by {
            assert(ta[i] == a[i + 1]);
            assert(pos_in(a[i + 1], b));
            let j = choose|j: int| 0 <= j < b.len() && b[j].0 == a[i + 1].0 && b[j].1 == a[i + 1].1;
            assert(j != 0);
            assert(tb[j - 1] == b[j]);
        }
        assert forall|j: int| 0 <= j < tb.len() implies pos_in(#[trigger] tb[j], ta) by {
            assert(tb[j] == b[j + 1]);
            assert(pos_in(b[j + 1], a));
            let i = choose|i: int| 0 <= i < a.len() && a[i].0 == b[j + 1].0 && a[i].1 == b[j + 1].1;
            assert(i != 0);
            assert(ta[i - 1] == a[i]);
        }
        lemma_same_cells(g, ta, tb);
        assert(a =~= seq![a[0]] + ta);
        assert(b =~= seq![b[0]] + tb);
    }
}

/// `x` is one of the entries of `line`.
pub open spec fn in_list(x: CellTuple, line: Seq<CellTuple>) -> bool {
    exists|j: int| 0 <= j < line.len() && line[j] == x
}

/// A selection in order from a list in order is no longer than the list.
pub proof fn lemma_selection_len(m: Seq<CellTuple>, line: Seq<CellTuple>)
    requires
        strictly_sorted(m),
        strictly_sorted(line),
        forall|x: int| 0 <= x < m.len() ==> in_list(#[trigger] m[x], line),
    ensures
        m.len() <= line.len(),
    decreases line.len(),
{
    if m.len() > 0 {
        assert(in_list(m[0], line));
        let last = line.len() - 1;
        let lp = line.drop_last();
        assert(strictly_sorted(lp)) by {
            assert forall|a: int, b: int| 0 <= a < b < lp.len() implies lt_pos(lp[a], lp[b]) by {
                assert(lp[a] == line[a] && lp[b] == line[b]);
            }
        }
        if m.last() == line[last] {
            let mp = m.drop_last();
            assert forall|x: int| 0 <= x < mp.len() implies in_list(#[trigger] mp[x], lp) by {
                assert(mp[x] == m[x]);
                assert(in_list(m[x], line));
                let j = choose|j: int| 0 <= j < line.len() && line[j] == m[x];
                assert(lt_pos(m[x], m[m.len() - 1]));
                assert(j != last);
                assert(lp[j] == line[j]);
            }
            assert(strictly_sorted(mp)) by {
                assert forall|a: int, b: int| 0 <= a < b < mp.len() implies lt_pos(mp[a], mp[b]) by {
                    assert(mp[a] == m[a] && mp[b] == m[b]);
                }
            }
            lemma_selection_len(mp, lp);
        } else {
            assert(in_list(m[m.len() - 1], line));
            let jl = choose|jl: int| 0 <= jl < line.len() && line[jl] == m[m.len() - 1];
            assert(jl != last);
            assert forall|x: int| 0 <= x < m.len() implies in_list(#[trigger] m[x], lp) by {
                assert(in_list(m[x], line));
                let j = choose|j: int| 0 <= j < line.len() && line[j] == m[x];
                if j == last {
                    assert(x != m.len() - 1);
                    assert(lt_pos(m[x], m[m.len() - 1]));
                    assert(lt_pos(line[jl], line[last]));
                }
                assert(lp[j] == line[j]);
            }
            lemma_selection_len(m, lp);
        }
    }
}

/// A selection of cells from `line` that reaches the target is among its
/// enumerated subsets.
pub proof fn subset_listed(line: Seq<CellTuple>, subs: Seq<Vec<CellTuple>>, m: Seq<CellTuple>)
    requires
        strictly_sorted(line),
        strictly_sorted(m),
        m.len() > 0,
        sum_vals(m) == TARGET,
        line.len() <= MAX_SUBSET_INPUT,
        forall|x: int| 0 <= x < m.len() ==> exists|j: int| 0 <= j < line.len() && line[j] == #[trigger] m[x],
        0 < line.len() <= MAX_SUBSET_INPUT ==> seqs_of(subs) == all_subsets(line, TARGET as int),
    ensures
        exists|k: int| 0 <= k < subs.len() && (#[trigger] subs[k])@ == m,
{
    let e = Seq::<CellTuple>::empty();
    assert(e + m =~= m);
    assert(e =~= seq![]);
    assert(m[0] == m[0]);
    let j0 = choose|j: int| 0 <= j < line.len() && line[j] == m[0];
    lemma_subsets_complete(line, 0, e, m, TARGET as int);
    let k = choose|k: int|
        0 <= k < subsets_from(line, 0, e, TARGET as int).len() && #[trigger] subsets_from(
            line,
            0,
            e,
            TARGET as int,
        )[k] == e + m;
    assert(seqs_of(subs)[k] == subs[k]@);
}

/// `s` lists, in order, exactly the non-empty cells of row `row` of `g`.
pub open spec fn row_list(g: Seq<Seq<u8>>, row: int, s: Seq<CellTuple>) -> bool {
    &&& strictly_sorted(s)
    &&& on_grid(g, s)
    &&& forall|k: int| 0 <= k < s.len() ==> (#[trigger] s[k]).0 == row
    &&& forall|c: int|
        0 <= c < g[row].len() && #[trigger] g[row][c] != 0 ==> exists|k: int|
            0 <= k < s.len() && s[k] == (row as usize, c as usize, g[row][c])
}

/// `s` lists, in order, exactly the non-empty cells of column `col` of `g`.
pub open spec fn col_list(g: Seq<Seq<u8>>, col: int, s: Seq<CellTuple>) -> bool {
    &&& strictly_sorted(s)
    &&& on_grid(g, s)
    &&& forall|k: int| 0 <= k < s.len() ==> (#[trigger] s[k]).1 == col
    &&& forall|r: int|
        0 <= r < g.len() && #[trigger] g[r][col] != 0 ==> exists|k: int|
            0 <= k < s.len() && s[k] == (r as usize, col as usize, g[r][col])
}

/// `s` lists, in row-major order, exactly the non-empty cells of the
/// rectangle of rows `r0..=r1` and columns `c0..=c1` of `g`.
pub open spec fn rect_list(g: Seq<Seq<u8>>, r0: int, c0: int, r1: int, c1: int, s: Seq<CellTuple>) -> bool {
    &&& strictly_sorted(s)
    &&& on_grid(g, s)
    &&& forall|k: int| 0 <= k < s.len() ==> r0 <= (#[trigger] s[k]).0 <= r1 && c0 <= s[k].1 <= c1
    &&& forall|rr: int, cc: int|
        r0 <= rr <= r1 && c0 <= cc <= c1 && #[trigger] g[rr][cc] != 0 ==> exists|k: int|
            0 <= k < s.len() && (#[trigger] s[k]).0 == rr && s[k].1 == cc
}

/// The non-empty cells of row `row`, by column.
pub open spec fn row_line(g: Seq<Seq<u8>>, row: int) -> Seq<CellTuple> {
    choose|s: Seq<CellTuple>| row_list(g, row, s)
}

/// The non-empty cells of column `col`, by row.
pub open spec fn col_line(g: Seq<Seq<u8>>, col: int) -> Seq<CellTuple> {
    choose|s: Seq<CellTuple>| col_list(g, col, s)
}

/// The non-empty cells of a rectangle, in row-major order.
pub open spec fn rect_seq(g: Seq<Seq<u8>>, r0: int, c0: int, r1: int, c1: int) -> Seq<CellTuple> {
    choose|s: Seq<CellTuple>| rect_list(g, r0, c0, r1, c1, s)
}

/// The subsets that the search enumerates for one line.
pub open spec fn line_subs(l: Seq<CellTuple>) -> Seq<Seq<CellTuple>> {
    if 0 < l.len() <= MAX_SUBSET_INPUT {
        all_subsets(l, TARGET as int)
    } else {
        seq![]
    }
}

/// The entries of `v` whose row gaps on row `row` are empty, in order.
pub open spec fn keep_row_runs(g: Seq<Seq<u8>>, row: int, v: Seq<Seq<CellTuple>>) -> Seq<Seq<CellTuple>>
    decreases v.len(),
{
    if v.len() == 0 {
        seq![]
    } else {
        keep_row_runs(g, row, v.drop_last()) + if row_gaps_empty(g, row, v.last()) {
            seq![v.last()]
        } else {
            seq![]
        }
    }
}

/// The entries of `v` whose column gaps on column `col` are empty, in order.
pub open spec fn keep_col_runs(g: Seq<Seq<u8>>, col: int, v: Seq<Seq<CellTuple>>) -> Seq<Seq<CellTuple>>
    decreases v.len(),
{
    if v.len() == 0 {
        seq![]
    } else {
        keep_col_runs(g, col, v.drop_last()) + if col_gaps_empty(g, col, v.last()) {
            seq![v.last()]
        } else {
            seq![]
        }
    }
}

/// Candidate runs of rows `0..n`, row by row.
pub open spec fn row_stream(g: Seq<Seq<u8>>, n: int) -> Seq<Seq<CellTuple>>
    decreases n,
{
    if n <= 0 {
        seq![]
    } else {
        row_stream(g, n - 1) + keep_row_runs(g, n - 1, line_subs(row_line(g, n - 1)))
    }
}

/// Candidate runs of columns `0..n`, column by column.
pub open spec fn col_stream(g: Seq<Seq<u8>>, n: int) -> Seq<Seq<CellTuple>>
    decreases n,
{
    if n <= 0 {
        seq![]
    } else {
        col_stream(g, n - 1) + keep_col_runs(g, n - 1, line_subs(col_line(g, n - 1)))
    }
}

/// The rectangle with these corners, if its cells reach the target.
pub open spec fn rect_cand(g: Seq<Seq<u8>>, r0: int, c0: int, r1: int, c1: int) -> Seq<Seq<CellTuple>> {
    if sum_vals(rect_seq(g, r0, c0, r1, c1)) == TARGET {
        seq![rect_seq(g, r0, c0, r1, c1)]
    } else {
        seq![]
    }
}

/// Candidate rectangles with right column in `c0 + 1..n`.
pub open spec fn rects_c1(g: Seq<Seq<u8>>, r0: int, c0: int, r1: int, n: int) -> Seq<Seq<CellTuple>>
    decreases n - c0,
{
    if n <= c0 + 1 {
        seq![]
    } else {
        rects_c1(g, r0, c0, r1, n - 1) + rect_cand(g, r0, c0, r1, n - 1)
    }
}

/// Candidate rectangles with bottom row in `r0 + 1..n`.
pub open spec fn rects_r1(g: Seq<Seq<u8>>, r0: int, c0: int, n: int, cols: int) -> Seq<Seq<CellTuple>>
    decreases n - r0,
{
    if n <= r0 + 1 {
        seq![]
    } else {
        rects_r1(g, r0, c0, n - 1, cols) + rects_c1(g, r0, c0, n - 1, cols)
    }
}

/// Candidate rectangles with top row `r0` and left column in `0..n`.
pub open spec fn rects_c0(g: Seq<Seq<u8>>, r0: int, n: int, rows: int, cols: int) -> Seq<Seq<CellTuple>>
    decreases n,
{
    if n <= 0 {
        seq![]
    } else {
        rects_c0(g, r0, n - 1, rows, cols) + rects_r1(g, r0, n - 1, rows, cols)
    }
}

/// Candidate rectangles with top row in `0..n`.
pub open spec fn rects_r0(g: Seq<Seq<u8>>, n: int, rows: int, cols: int) -> Seq<Seq<CellTuple>>
    decreases n,
{
    if n <= 0 {
        seq![]
    } else {
        rects_r0(g, n - 1, rows, cols) + rects_c0(g, n - 1, cols, rows, cols)
    }
}

/// `acc` with `m` appended unless an entry already has its positions.
pub open spec fn dedup_push(acc: Seq<Seq<CellTuple>>, m: Seq<CellTuple>) -> Seq<Seq<CellTuple>> {
    if exists|i: int| 0 <= i < acc.len() && positions(#[trigger] acc[i]) == positions(m) {
        acc
    } else {
        acc.push(m)
    }
}

/// The first entry of `v` for each set of positions, in order.
pub open spec fn dedup_all(v: Seq<Seq<CellTuple>>) -> Seq<Seq<CellTuple>>
    decreases v.len(),
{
    if v.len() == 0 {
        seq![]
    } else {
        dedup_push(dedup_all(v.drop_last()), v.last())
    }
}

/// The moves of a grid with `rows` rows and `cols` columns in the order they
/// are found: horizontal runs row by row, vertical runs column by column,
/// then rectangles by top row, left column, bottom row and right column;
/// each set of positions keeps its first occurrence.
pub open spec fn enumerate(g: Seq<Seq<u8>>, rows: int, cols: int) -> Seq<Seq<CellTuple>> {
    dedup_all(row_stream(g, rows) + col_stream(g, cols) + rects_r0(g, rows, rows, cols))
}

/// A move the finder must report: any rectangle, and any run on a row or
/// column with at most `MAX_SUBSET_INPUT` non-empty cells (longer lines are
/// skipped, see `find_subsets_with_sum`).
pub open spec fn findable(g: Seq<Seq<u8>>, m: Seq<CellTuple>) -> bool {
    &&& is_move(g, m)
    &&& {
        ||| row_due(g, m, g.len() as int)
        ||| col_due(g, m, g[0].len() as int)
        ||| exists|r0: int, c0: int, r1: int, c1: int| rectangle(g, m, r0, c0, r1, c1)
    }
}

/// No move that the finder must report exists on `g`.
pub open spec fn no_findable_move(g: Seq<Seq<u8>>) -> bool {
    forall|m: Seq<CellTuple>| !#[trigger] findable(g, m)
}

/// `m` is a move on one row before `bound` holding at most
/// `MAX_SUBSET_INPUT` non-empty cells.
pub open spec fn row_due(g: Seq<Seq<u8>>, m: Seq<CellTuple>, bound: int) -> bool {
    &&& is_move(g, m)
    &&& forall|k: int| 0 <= k < m.len() ==> (#[trigger] m[k]).0 == m[0].0
    &&& m[0].0 < bound
    &&& count_nz(g[m[0].0 as int]) <= MAX_SUBSET_INPUT
}

/// `m` is a move on one column before `bound` holding at most
/// `MAX_SUBSET_INPUT` non-empty cells.
pub open spec fn col_due(g: Seq<Seq<u8>>, m: Seq<CellTuple>, bound: int) -> bool {
    &&& is_move(g, m)
    &&& forall|k: int| 0 <= k < m.len() ==> (#[trigger] m[k]).1 == m[0].1
    &&& m[0].1 < bound
    &&& count_nz(column(g, m[0].1 as int)) <= MAX_SUBSET_INPUT
}

/// `(a, b, c, d)` comes before `(r0, c0, r1, c1)` in lexicographic order.
pub open spec fn lex_lt(a: int, b: int, c: int, d: int, r0: int, c0: int, r1: int, c1: int) -> bool {
    a < r0 || (a == r0 && (b < c0 || (b == c0 && (c < r1 || (c == r1 && d < c1)))))
}

/// Every rectangle move whose corners come before `(r0, c0, r1, c1)` is in `v`.
pub open spec fn rects_found(g: Seq<Seq<u8>>, v: Seq<Vec<CellTuple>>, r0: int, c0: int, r1: int, c1: int) -> bool {
    forall|m: Seq<CellTuple>, a: int, b: int, c: int, d: int|
        #[trigger] rectangle(g, m, a, b, c, d) && is_move(g, m) && lex_lt(a, b, c, d, r0, c0, r1, c1)
            ==> found(v, m)
}

/// Every distinct valid move on `grid`: horizontal runs row by row, then
/// vertical runs column by column, then rectangles; a move found twice is
/// kept once.
#[verifier::rlimit(100)]
pub fn find_valid_combinations(grid: &FlatGrid) -> (r: Vec<Vec<CellTuple>>)
    requires
        grid.wf(),
    ensures
        sound_moves(grid@, r@),
        forall|m: Seq<CellTuple>| #[trigger] findable(grid@, m) ==> found(r@, m),
        seqs_of(r@) == enumerate(grid@, grid.rows as int, grid.cols as int),
{
    let mut combinations: Vec<Vec<CellTuple>> = Vec::new();
    let ghost mut cands: Seq<Seq<CellTuple>> = seq![];
    assert(seqs_of(combinations@) =~= dedup_all(cands));
    let mut row: usize = 0;
    while row < grid.rows
        invariant
            grid.wf(),
            row <= grid.rows,
            sound_moves(grid@, combinations@),
            forall|m: Seq<CellTuple>| #[trigger] row_due(grid@, m, row as int) ==> found(combinations@, m),
            cands == row_stream(grid@, row as int),
            seqs_of(combinations@) == dedup_all(cands),
        decreases grid.rows - row,
    {
        let line = row_cells(grid, row);
        let subs = line_subsets(&line);
        let mut k: usize = 0;
        while k < subs.len()
            invariant
                grid.wf(),
                row < grid.rows,
                k <= subs@.len(),
                sound_moves(grid@, combinations@),
                forall|m: Seq<CellTuple>| #[trigger] row_due(grid@, m, row as int) ==> found(combinations@, m),
                cands == row_stream(grid@, row as int) + keep_row_runs(grid@, row as int, seqs_of(subs@).take(k as int)),
                seqs_of(combinations@) == dedup_all(cands),
                seqs_of(subs@) == line_subs(line@),
                line@ == row_line(grid@, row as int),
                forall|j: int|
                    0 <= j < k && (#[trigger] subs@[j])@.len() > 0 && horizontal_run(grid@, row as int, subs@[j]@)
                        ==> found(combinations@, subs@[j]@),
                strictly_sorted(line@),
                on_grid(grid@, line@),
                forall|x: int| 0 <= x < line@.len() ==> (#[trigger] line@[x]).0 == row,
                line@.len() == count_nz(grid@[row as int]),
                subs@.len() > 0 ==> line@.len() <= MAX_SUBSET_INPUT,
                forall|j: int|
                    0 <= j < subs@.len() ==> {
                        let s = (#[trigger] subs@[j])@;
                        &&& sum_vals(s) == TARGET
                        &&& s.len() > 0
                        &&& strictly_sorted(s)
                        &&& drawn_from(s, line@, line@.len() as int)
                    },
            decreases subs@.len() - k,
        {
            let s = &subs[k];
            proof {
                assert(subs@[k as int]@ == s@);
                assert forall|x: int| 0 <= x < s@.len() implies (#[trigger] s@[x]).0 == row && s@[x].1
                    < grid.cols && s@[x].2 == grid@[s@[x].0 as int][s@[x].1 as int] && s@[x].2 > 0 by {
                    let j = choose|j: int| 0 <= j < line@.len() && line@[j] == s@[x];
                }
            }
            let ghost pre_cands = cands;
            let ghost base = row_stream(grid@, row as int);
            let ghost sq = seqs_of(subs@);
            assert(sq[k as int] == s@);
            assert(sq.take(k + 1).drop_last() =~= sq.take(k as int));
            if is_valid_horizontal(s, grid, row) {
                assert(row_due(grid@, s@, grid.rows as int));
                add_move(&mut combinations, s, grid);
                proof {
                    cands = cands.push(s@);
                    assert(cands.drop_last() =~= pre_cands);
                    assert(cands =~= base + keep_row_runs(grid@, row as int, sq.take(k + 1)));
                }
            } else {
                assert(cands =~= base + keep_row_runs(grid@, row as int, sq.take(k + 1)));
            }
            k += 1;
        }
        proof {
            assert(seqs_of(subs@).take(subs@.len() as int) =~= seqs_of(subs@));
            assert(cands == row_stream(grid@, row + 1));
            assert forall|m: Seq<CellTuple>| #[trigger] row_due(grid@, m, row + 1) implies found(
                combinations@,
                m,
            ) by {
                if m[0].0 == row {
                    assert forall|x: int| 0 <= x < m.len() implies exists|j: int|
                        0 <= j < line@.len() && line@[j] == #[trigger] m[x] by {
                        assert(m[x].0 == row);
                        assert(grid@[row as int][m[x].1 as int] != 0);
                    }
                    subset_listed(line@, subs@, m);
                    let k = choose|k: int| 0 <= k < subs@.len() && subs@[k]@ == m;
                    crate::laws::law_horizontal_gaps_empty(grid@, m, row as int);
                } else {
                    assert(row_due(grid@, m, row as int));
                }
            }
        }
        row += 1;
    }
    let mut col: usize = 0;
    while col < grid.cols
        invariant
            grid.wf(),
            col <= grid.cols,
            sound_moves(grid@, combinations@),
            forall|m: Seq<CellTuple>| #[trigger] row_due(grid@, m, grid.rows as int) ==> found(combinations@, m),
            forall|m: Seq<CellTuple>| #[trigger] col_due(grid@, m, col as int) ==> found(combinations@, m),
            cands == row_stream(grid@, grid.rows as int) + col_stream(grid@, col as int),
            seqs_of(combinations@) == dedup_all(cands),
        decreases grid.cols - col,
    {
        let line = col_cells(grid, col);
        let subs = line_subsets(&line);
        let mut k: usize = 0;
        while k < subs.len()
            invariant
                grid.wf(),
                col < grid.cols,
                k <= subs@.len(),
                sound_moves(grid@, combinations@),
                forall|m: Seq<CellTuple>| #[trigger] row_due(grid@, m, grid.rows as int) ==> found(combinations@, m),
                forall|m: Seq<CellTuple>| #[trigger] col_due(grid@, m, col as int) ==> found(combinations@, m),
                cands == row_stream(grid@, grid.rows as int) + col_stream(grid@, col as int) + keep_col_runs(grid@, col as int, seqs_of(subs@).take(k as int)),
                seqs_of(combinations@) == dedup_all(cands),
                seqs_of(subs@) == line_subs(line@),
                line@ == col_line(grid@, col as int),
                forall|j: int|
                    0 <= j < k && (#[trigger] subs@[j])@.len() > 0 && vertical_run(grid@, col as int, subs@[j]@)
                        ==> found(combinations@, subs@[j]@),
                strictly_sorted(line@),
                on_grid(grid@, line@),
                forall|x: int| 0 <= x < line@.len() ==> (#[trigger] line@[x]).1 == col,
                line@.len() == count_nz(column(grid@, col as int)),
                subs@.len() > 0 ==> line@.len() <= MAX_SUBSET_INPUT,
                forall|j: int|
                    0 <= j < subs@.len() ==> {
                        let s = (#[trigger] subs@[j])@;
                        &&& sum_vals(s) == TARGET
                        &&& s.len() > 0
                        &&& strictly_sorted(s)
                        &&& drawn_from(s, line@, line@.len() as int)
                    },
            decreases subs@.len() - k,
        {
            let s = &subs[k];
            proof {
                assert(subs@[k as int]@ == s@);
                assert forall|x: int| 0 <= x < s@.len() implies (#[trigger] s@[x]).1 == col && s@[x].0
                    < grid.rows && s@[x].2 == grid@[s@[x].0 as int][s@[x].1 as int] && s@[x].2 > 0 by {
                    let j = choose|j: int| 0 <= j < line@.len() && line@[j] == s@[x];
                }
            }
            let ghost pre_cands = cands;
            let ghost base = row_stream(grid@, grid.rows as int) + col_stream(grid@, col as int);
            let ghost sq = seqs_of(subs@);
            assert(sq[k as int] == s@);
            assert(sq.take(k + 1).drop_last() =~= sq.take(k as int));
            if is_valid_vertical(s, grid, col) {
                assert(grid@[0].len() == grid.cols);
                assert(col_due(grid@, s@, grid@[0].len() as int));
                add_move(&mut combinations, s, grid);
                proof {
                    cands = cands.push(s@);
                    assert(cands.drop_last() =~= pre_cands);
                    assert(cands =~= base + keep_col_runs(grid@, col as int, sq.take(k + 1)));
                }
            } else {
                assert(cands =~= base + keep_col_runs(grid@, col as int, sq.take(k + 1)));
            }
            k += 1;
        }
        proof {
            assert(seqs_of(subs@).take(subs@.len() as int) =~= seqs_of(subs@));
            assert(cands =~= row_stream(grid@, grid.rows as int) + col_stream(grid@, col + 1));
            assert forall|m: Seq<CellTuple>| #[trigger] col_due(grid@, m, col + 1) implies found(
                combinations@,
                m,
            ) by {
                if m[0].1 == col {
                    assert forall|x: int| 0 <= x < m.len() implies exists|j: int|
                        0 <= j < line@.len() && line@[j] == #[trigger] m[x] by {
                        assert(m[x].1 == col);
                        assert(grid@[m[x].0 as int][col as int] != 0);
                    }
                    subset_listed(line@, subs@, m);
                    let k = choose|k: int| 0 <= k < subs@.len() && subs@[k]@ == m;
                    assert(crate::grid::rect_rows(grid@, grid@[0].len()));
                    crate::laws::law_vertical_gaps_empty(grid@, m, col as int);
                } else {
                    assert(col_due(grid@, m, col as int));
                }
            }
        }
        col += 1;
    }
    let ghost g = grid@;
    let ghost nr = grid.rows as int;
    let ghost nc = grid.cols as int;
    let ghost b0 = row_stream(g, nr) + col_stream(g, nc);
    assert(cands =~= b0 + rects_r0(g, 0, nr, nc));
    let mut r0: usize = 0;
    while r0 < grid.rows
        invariant
            grid.wf(),
            g == grid@,
            nr == grid.rows,
            nc == grid.cols,
            r0 <= grid.rows,
            sound_moves(g, combinations@),
            forall|m: Seq<CellTuple>| #[trigger] row_due(g, m, nr) ==> found(combinations@, m),
            forall|m: Seq<CellTuple>| #[trigger] col_due(g, m, nc) ==> found(combinations@, m),
            rects_found(g, combinations@, r0 as int, 0, 0, 0),
            cands == b0 + rects_r0(g, r0 as int, nr, nc),
            seqs_of(combinations@) == dedup_all(cands),
        decreases grid.rows - r0,
    {
        assert(cands =~= b0 + rects_r0(g, r0 as int, nr, nc) + rects_c0(g, r0 as int, 0, nr, nc));
        let mut c0: usize = 0;
        while c0 < grid.cols
            invariant
                grid.wf(),
                g == grid@,
                nr == grid.rows,
                nc == grid.cols,
                r0 < grid.rows,
                c0 <= grid.cols,
                sound_moves(g, combinations@),
                forall|m: Seq<CellTuple>| #[trigger] row_due(g, m, nr) ==> found(combinations@, m),
                forall|m: Seq<CellTuple>| #[trigger] col_due(g, m, nc) ==> found(combinations@, m),
                rects_found(g, combinations@, r0 as int, c0 as int, 0, 0),
                cands == b0 + rects_r0(g, r0 as int, nr, nc) + rects_c0(g, r0 as int, c0 as int, nr, nc),
                seqs_of(combinations@) == dedup_all(cands),
            decreases grid.cols - c0,
        {
            let ghost b1 = b0 + rects_r0(g, r0 as int, nr, nc) + rects_c0(g, r0 as int, c0 as int, nr, nc);
            assert(cands =~= b1 + rects_r1(g, r0 as int, c0 as int, r0 + 1, nc));
            let mut r1: usize = r0 + 1;
            assert(rects_found(g, combinations@, r0 as int, c0 as int, r1 as int, 0));
            while r1 < grid.rows
                invariant
                    grid.wf(),
                    g == grid@,
                    nr == grid.rows,
                    nc == grid.cols,
                    r0 < r1 <= grid.rows,
                    c0 < grid.cols,
                    sound_moves(g, combinations@),
                    forall|m: Seq<CellTuple>| #[trigger] row_due(g, m, nr) ==> found(combinations@, m),
                    forall|m: Seq<CellTuple>| #[trigger] col_due(g, m, nc) ==> found(combinations@, m),
                    rects_found(g, combinations@, r0 as int, c0 as int, r1 as int, 0),
                    cands == b1 + rects_r1(g, r0 as int, c0 as int, r1 as int, nc),
                    seqs_of(combinations@) == dedup_all(cands),
                decreases grid.rows - r1,
            {
                let ghost b2 = b1 + rects_r1(g, r0 as int, c0 as int, r1 as int, nc);
                assert(cands =~= b2 + rects_c1(g, r0 as int, c0 as int, r1 as int, c0 + 1));
                let mut c1: usize = c0 + 1;
                assert(rects_found(g, combinations@, r0 as int, c0 as int, r1 as int, c1 as int));
                while c1 < grid.cols
                    invariant
                        grid.wf(),
                        g == grid@,
                        nr == grid.rows,
                        nc == grid.cols,
                        r0 < r1 < grid.rows,
                        c0 < c1 <= grid.cols,
                        sound_moves(g, combinations@),
                        forall|m: Seq<CellTuple>| #[trigger] row_due(g, m, nr) ==> found(combinations@, m),
                        forall|m: Seq<CellTuple>| #[trigger] col_due(g, m, nc) ==> found(combinations@, m),
                        rects_found(g, combinations@, r0 as int, c0 as int, r1 as int, c1 as int),
                        cands == b2 + rects_c1(g, r0 as int, c0 as int, r1 as int, c1 as int),
                        seqs_of(combinations@) == dedup_all(cands),
                    decreases grid.cols - c1,
                {
                    let ghost pre_cands = cands;
                    let (cells, sum) = rect_cells(grid, r0, c0, r1, c1);
                    let ghost before = combinations@;
                    if sum == TARGET {
                        proof {
                            assert(sum_vals(cells@) == TARGET);
                            assert(cells@.len() > 0);
                            assert(rectangle(g, cells@, r0 as int, c0 as int, r1 as int, c1 as int));
                            assert(findable(g, cells@));
                        }
                        add_move(&mut combinations, &cells, grid);
                        proof {
                            cands = cands.push(cells@);
                            assert(cands.drop_last() =~= pre_cands);
                        }
                    }
                    assert(cands =~= b2 + rects_c1(g, r0 as int, c0 as int, r1 as int, c1 + 1));
                    proof {
                        assert forall|m: Seq<CellTuple>, a: int, b: int, c: int, d: int|
                            #[trigger] rectangle(g, m, a, b, c, d) && is_move(g, m) && lex_lt(
                                a,
                                b,
                                c,
                                d,
                                r0 as int,
                                c0 as int,
                                r1 as int,
                                c1 + 1,
                            ) implies found(combinations@, m) by {
                            if lex_lt(a, b, c, d, r0 as int, c0 as int, r1 as int, c1 as int) {
                                assert(found(before, m));
                            } else {
                                assert(a == r0 && b == c0 && c == r1 && d == c1);
                                assert forall|x: int| 0 <= x < cells@.len() implies pos_in(
                                    #[trigger] cells@[x],
                                    m,
                                ) by {
                                    assert(g[cells@[x].0 as int][cells@[x].1 as int] != 0);
                                }
                                assert forall|y: int| 0 <= y < m.len() implies pos_in(#[trigger] m[y], cells@) by {
                                    assert(r0 <= m[y].0 <= r1 && c0 <= m[y].1 <= c1);
                                    assert(g[m[y].0 as int][m[y].1 as int] != 0);
                                }
                                lemma_same_cells(g, cells@, m);
                                assert(sum == TARGET);
                            }
                        }
                    }
                    c1 += 1;
                }
                assert(rects_found(g, combinations@, r0 as int, c0 as int, r1 + 1, 0));
                assert(cands =~= b1 + rects_r1(g, r0 as int, c0 as int, r1 + 1, nc));
                r1 += 1;
            }
            assert(rects_found(g, combinations@, r0 as int, c0 + 1, 0, 0));
            assert(cands =~= b0 + rects_r0(g, r0 as int, nr, nc) + rects_c0(g, r0 as int, c0 + 1, nr, nc));
            c0 += 1;
        }
        assert(rects_found(g, combinations@, r0 + 1, 0, 0, 0));
        assert(cands =~= b0 + rects_r0(g, r0 + 1, nr, nc));
        r0 += 1;
    }
    proof {
        assert forall|m: Seq<CellTuple>| #[trigger] findable(g, m) implies found(combinations@, m) by {
            if row_due(g, m, nr) {
            } else if col_due(g, m, nc) {
                assert(g[0].len() == nc);
            } else {
                let (a, b, c, d) = choose|a: int, b: int, c: int, d: int| rectangle(g, m, a, b, c, d);
                assert(lex_lt(a, b, c, d, nr, 0, 0, 0));
            }
        }
    }
    combinations
}

} // verus!
