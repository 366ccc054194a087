use vstd::prelude::*;
use crate::combos::{findable, TARGET};
use crate::grid::{clear_cells, rows_view};
use crate::subsets::CellTuple;

verus! {

/// A cleared cell: its position and the value it held before the move.
#[derive(Clone, Copy, Debug, PartialEq, Eq)]
pub struct Cell {
    pub row: usize,
    pub col: usize,
    pub value: u8,
}

/// One committed move: the cells cleared, their sum, and the grid after it.
#[derive(Clone, Debug, PartialEq, Eq)]
pub struct Step {
    pub cells: Vec<Cell>,
    pub sum: u8,
    pub grid_after: Vec<Vec<u8>>,
}

/// What a step says, as mathematical values.
pub struct StepView {
    pub cells: Seq<CellTuple>,
    pub sum: u8,
    pub grid_after: Seq<Seq<u8>>,
}

pub open spec fn cell_tuple(c: Cell) -> CellTuple {
    (c.row, c.col, c.value)
}

/// The cells of a step as (row, column, value).
pub open spec fn tuples(v: Seq<Cell>) -> Seq<CellTuple> {
    v.map_values(|c: Cell| cell_tuple(c))
}

impl View for Step {
    type V = StepView;

    open spec fn view(&self) -> StepView {
        StepView {
            cells: tuples(self.cells@),
            sum: self.sum,
            grid_after: rows_view(self.grid_after@),
        }
    }
}

/// The steps of a solution, as mathematical values.
pub open spec fn plays(v: Seq<Step>) -> Seq<StepView> {
    v.map_values(|s: Step| s@)
}

/// The grid on which step `i` is played, starting from `g0`.
pub open spec fn grid_before(g0: Seq<Seq<u8>>, steps: Seq<StepView>, i: int) -> Seq<Seq<u8>> {
    if i <= 0 {
        g0
    } else {
        steps[i - 1].grid_after
    }
}

/// Step `i` is a move on the grid before it that the finder must report,
/// records the target as its sum, and records the grid that clearing its
/// cells leaves.
pub open spec fn step_ok(g0: Seq<Seq<u8>>, steps: Seq<StepView>, i: int) -> bool {
    let before = grid_before(g0, steps, i);
    &&& findable(before, steps[i].cells)
    &&& steps[i].sum == TARGET
    &&& steps[i].grid_after == clear_cells(before, steps[i].cells)
}

/// `steps` is a sequence of reported moves that can be played one after
/// another from `g0`.
pub open spec fn valid_play(g0: Seq<Seq<u8>>, steps: Seq<StepView>) -> bool {
    forall|i: int| 0 <= i < steps.len() ==> #[trigger] step_ok(g0, steps, i)
}

/// The grid after all of `steps` is played from `g0`.
pub open spec fn grid_after_all(g0: Seq<Seq<u8>>, steps: Seq<StepView>) -> Seq<Seq<u8>> {
    grid_before(g0, steps, steps.len() as int)
}

/// Extending a valid play by a step that is valid on the grid it reached.
pub proof fn lemma_play_push(g0: Seq<Seq<u8>>, steps: Seq<StepView>, s: StepView)
    requires
        valid_play(g0, steps),
        findable(grid_after_all(g0, steps), s.cells),
        s.sum == TARGET,
        s.grid_after == clear_cells(grid_after_all(g0, steps), s.cells),
    ensures
        valid_play(g0, steps.push(s)),
        grid_after_all(g0, steps.push(s)) == s.grid_after,
{
    let n = steps.push(s);
    assert forall|i: int| 0 <= i < n.len() implies #[trigger] step_ok(g0, n, i) by {
        if i < steps.len() {
            assert(step_ok(g0, steps, i));
            assert(n[i] == steps[i]);
            assert(grid_before(g0, n, i) == grid_before(g0, steps, i));
        }
    }
}

pub fn copy_row(v: &Vec<u8>) -> (r: Vec<u8>)
    ensures
        r@ == v@,
{
    let mut r: Vec<u8> = Vec::new();
    let mut i: usize = 0;
    while i < v.len()
        invariant
            i <= v@.len(),
            r@ == v@.take(i as int),
        decreases v@.len() - i,
    {
        r.push(v[i]);
        assert(r@ =~= v@.take(i + 1));
        i += 1;
    }
    assert(v@.take(i as int) =~= v@);
    r
}

/// A copy of `s` with the same contents.
pub fn copy_step(s: &Step) -> (r: Step)
    ensures
        r@ == s@,
{
    let mut cells: Vec<Cell> = Vec::new();
    let mut i: usize = 0;
    while i < s.cells.len()
        invariant
            i <= s.cells@.len(),
            cells@ == s.cells@.take(i as int),
        decreases s.cells@.len() - i,
    {
        cells.push(s.cells[i]);
        assert(cells@ =~= s.cells@.take(i + 1));
        i += 1;
    }
    assert(s.cells@.take(i as int) =~= s.cells@);
    let mut grid: Vec<Vec<u8>> = Vec::new();
    let mut j: usize = 0;
    while j < s.grid_after.len()
        invariant
            j <= s.grid_after@.len(),
            grid@.len() == j,
            forall|k: int| 0 <= k < j ==> (#[trigger] grid@[k])@ == s.grid_after@[k]@,
        decreases s.grid_after@.len() - j,
    {
        grid.push(copy_row(&s.grid_after[j]));
        j += 1;
    }
    let r = Step { cells, sum: s.sum, grid_after: grid };
    assert(rows_view(r.grid_after@) =~= rows_view(s.grid_after@));
    assert(r@.cells =~= s@.cells);
    r
}

/// A copy of `v` with the same contents.
pub fn copy_steps(v: &Vec<Step>) -> (r: Vec<Step>)
    ensures
        plays(r@) == plays(v@),
{
    let mut out: Vec<Step> = Vec::new();
    let mut i: usize = 0;
    while i < v.len()
        invariant
            i <= v@.len(),
            plays(out@) == plays(v@).take(i as int),
            out@.len() == i,
        decreases v@.len() - i,
    {
        let s = copy_step(&v[i]);
        let ghost pre = out@;
        out.push(s);
        proof {
            assert forall|k: int| 0 <= k < i + 1 implies plays(out@)[k] == plays(v@).take(i + 1)[k] by {
                if k < i {
                    assert(out@[k] == pre[k]);
                    assert(plays(pre)[k] == plays(v@).take(i as int)[k]);
                }
            }
        }
        assert(plays(out@) =~= plays(v@).take(i + 1));
        i += 1;
    }
    assert(plays(v@).take(i as int) =~= plays(v@));
    out
}

/// The cells of a move as output cells.
pub fn cells_to_output(cells: &Vec<CellTuple>) -> (r: Vec<Cell>)
    ensures
        tuples(r@) == cells@,
{
    let mut out: Vec<Cell> = Vec::new();
    let mut i: usize = 0;
    while i < cells.len()
        invariant
            i <= cells@.len(),
            tuples(out@) == cells@.take(i as int),
            out@.len() == i,
        decreases cells@.len() - i,
    {
        let (row, col, value) = cells[i];
        let ghost pre = out@;
        out.push(Cell { row, col, value });
        proof {
            assert forall|k: int| 0 <= k < i + 1 implies #[trigger] tuples(out@)[k] == cells@.take(
                i + 1,
            )[k] by {
                if k < i {
                    assert(out@[k] == pre[k]);
                    assert(tuples(pre)[k] == cells@.take(i as int)[k]);
                }
            }
        }
        assert(tuples(out@) =~= cells@.take(i + 1));
        i += 1;
    }
    assert(cells@.take(i as int) =~= cells@);
    out
}

} // verus!
