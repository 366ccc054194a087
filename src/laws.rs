use vstd::prelude::*;
use crate::combos::{has_col, has_row, horizontal_run, is_move, rectangle, vertical_run, TARGET};
use crate::grid::{clear_cells, rect_rows};
use crate::solver::tri;
use crate::step::{grid_before, step_ok, valid_play, StepView};
use crate::subsets::{lt_pos, sum_vals, CellTuple};

verus! {

/// Every move sums to the target, names no position twice and stays inside
/// the grid.
pub proof fn law_move_sound(g: Seq<Seq<u8>>, m: Seq<CellTuple>)
    requires
        is_move(g, m),
    ensures
        sum_vals(m) == TARGET,
        forall|i: int, j: int|
            0 <= i < j < m.len() ==> ((#[trigger] m[i]).0, m[i].1) != ((#[trigger] m[j]).0, m[j].1),
        forall|k: int|
            0 <= k < m.len() ==> (#[trigger] m[k]).0 < g.len() && m[k].1 < g[m[k].0 as int].len(),
{
    assert forall|i: int, j: int| 0 <= i < j < m.len() implies ((#[trigger] m[i]).0, m[i].1) != (
        (#[trigger] m[j]).0,
        m[j].1,
    ) by {
        assert(lt_pos(m[i], m[j]));
    }
}

/// A move whose cells all lie on row `row` leaves only empty cells in the
/// columns between its first and last cell that it does not clear.
pub proof fn law_horizontal_gaps_empty(g: Seq<Seq<u8>>, m: Seq<CellTuple>, row: int)
    requires
        is_move(g, m),
        forall|k: int| 0 <= k < m.len() ==> (#[trigger] m[k]).0 == row,
    ensures
        forall|c: int| m[0].1 < c < m.last().1 ==> has_col(m, c) || #[trigger] g[row][c] == 0,
{
    let last = m.len() - 1;
    if horizontal_run(g, m[0].0 as int, m) {
    } else if vertical_run(g, m[0].1 as int, m) {
        if m.len() > 1 {
            assert(lt_pos(m[0], m[last]));
        }
    } else {
        let (r0, c0, r1, c1) = choose|r0: int, c0: int, r1: int, c1: int| rectangle(g, m, r0, c0, r1, c1);
        assert forall|c: int| m[0].1 < c < m.last().1 implies has_col(m, c) || #[trigger] g[row][c] == 0 by {
            assert(r0 <= m[0].0 <= r1 && c0 <= m[0].1);
            assert(m[last].1 <= c1);
            if g[row][c] != 0 {
                assert(0 <= row < g.len());
                assert(c < g[row].len());
                let k = choose|k: int| 0 <= k < m.len() && (#[trigger] m[k]).0 == row && m[k].1 == c;
                assert(m[k].1 == c);
            }
        }
    }
}

/// A move whose cells all lie on column `col` leaves only empty cells in the
/// rows between its first and last cell that it does not clear.
pub proof fn law_vertical_gaps_empty(g: Seq<Seq<u8>>, m: Seq<CellTuple>, col: int)
    requires
        is_move(g, m),
        rect_rows(g, g[0].len()),
        forall|k: int| 0 <= k < m.len() ==> (#[trigger] m[k]).1 == col,
    ensures
        forall|r: int| m[0].0 < r < m.last().0 ==> has_row(m, r) || #[trigger] g[r][col] == 0,
{
    let last = m.len() - 1;
    if vertical_run(g, m[0].1 as int, m) {
    } else if horizontal_run(g, m[0].0 as int, m) {
        if m.len() > 1 {
            assert(lt_pos(m[0], m[last]));
        }
    } else {
        let (r0, c0, r1, c1) = choose|r0: int, c0: int, r1: int, c1: int| rectangle(g, m, r0, c0, r1, c1);
        assert forall|r: int| m[0].0 < r < m.last().0 implies has_row(m, r) || #[trigger] g[r][col] == 0 by {
            assert(r0 <= m[0].0 && c0 <= m[0].1 <= c1);
            assert(m[last].0 <= r1);
            if g[r][col] != 0 {
                assert(0 <= r < g.len());
                assert(0 <= col < g[r].len());
                let k = choose|k: int| 0 <= k < m.len() && (#[trigger] m[k]).0 == r && m[k].1 == col;
                assert(m[k].0 == r);
            }
        }
    }
}

/// Clearing the cells of step `i` on the grid before it gives exactly the
/// grid that the step records.
pub proof fn law_step_replay(g0: Seq<Seq<u8>>, steps: Seq<StepView>, i: int)
    requires
        valid_play(g0, steps),
        0 <= i < steps.len(),
    ensures
        clear_cells(grid_before(g0, steps, i), steps[i].cells) == steps[i].grid_after,
{
    assert(step_ok(g0, steps, i));
}

/// One move of `a + b` cells scores more than two moves of `a` and `b` cells;
/// four cells score 10 and two cells score 3.
pub proof fn law_one_move_beats_split(a: int, b: int)
    requires
        a >= 1,
        b >= 1,
    ensures
        tri(a + b) > tri(a) + tri(b),
        tri(4) == 10,
        tri(2) == 3,
{
    assert((a + b) * (a + b + 1) == a * (a + 1) + b * (b + 1) + 2 * (a * b)) by (nonlinear_arith);
    assert(a * b >= 1) by (nonlinear_arith)
        requires
            a >= 1,
            b >= 1,
    ;
    lemma_tri_double(a);
    lemma_tri_double(b);
    lemma_tri_double(a + b);
}

proof fn lemma_tri_double(n: int)
    requires
        n >= 0,
    ensures
        2 * tri(n) == n * (n + 1),
{
    let q = n / 2;
    if n % 2 == 0 {
        assert(n * (n + 1) == 2 * (q * (n + 1))) by (nonlinear_arith)
            requires
                n == 2 * q,
        ;
    } else {
        assert(n * (n + 1) == 2 * (n * (q + 1))) by (nonlinear_arith)
            requires
                n == 2 * q + 1,
        ;
    }
}

/// A grid on which no move exists admits no step at all.
pub proof fn law_no_move_no_steps(g0: Seq<Seq<u8>>, steps: Seq<StepView>)
    requires
        forall|m: Seq<CellTuple>| !is_move(g0, m),
        valid_play(g0, steps),
    ensures
        steps.len() == 0,
{
    if steps.len() > 0 {
        assert(step_ok(g0, steps, 0));
        assert(is_move(g0, steps[0].cells));
    }
}

/// A grid with no non-empty cell has no move.
pub proof fn law_empty_grid_has_no_move(g0: Seq<Seq<u8>>, m: Seq<CellTuple>)
    requires
        forall|r: int, c: int| 0 <= r < g0.len() && 0 <= c < g0[r].len() ==> #[trigger] g0[r][c] == 0,
    ensures
        !is_move(g0, m),
{
    if is_move(g0, m) {
        assert(m[0].2 == g0[m[0].0 as int][m[0].1 as int]);
    }
}

} // verus!
