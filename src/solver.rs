use vstd::prelude::*;
use crate::combos::{
    col_cells, col_due, enumerate, find_valid_combinations, findable, horizontal_run, in_list, is_move, is_valid_horizontal,
    is_valid_vertical, lemma_move_size, lemma_selection_len, line_subsets, no_findable_move,
    row_cells, row_due, sound_moves, subset_listed, vertical_run, TARGET,
};
use crate::grid::{cells_left, clear_cells, lemma_count_nz_le_len, lemma_flat_count, matrix_error, rows_view, valid_matrix, FlatGrid, GridError, MAX_DIM};
use crate::step::{
    cells_to_output, copy_steps, grid_after_all, grid_before, lemma_play_push, plays, step_ok, valid_play, Step,
    StepView,
};
use crate::subsets::{seqs_of, strictly_sorted, sum_vals, CellTuple, MAX_SUBSET_INPUT};
use crate::visited::Visited;

verus! {

/// Points for clearing `n` cells in one move.
pub open spec fn tri(n: int) -> int {
    n * (n + 1) / 2
}

/// Score of a move that clears `cells_cleared` cells: `n * (n + 1) / 2`.
pub fn calculate_move_score(cells_cleared: usize) -> (r: i32)
    requires
        cells_cleared <= 65535,
    ensures
        r == tri(cells_cleared as int),
{
    let n = cells_cleared as i64;
    assert(n * (n + 1) <= 65535 * 65536) by (nonlinear_arith)
        requires
            0 <= n <= 65535,
    ;
    assert(0 <= n * (n + 1)) by (nonlinear_arith)
        requires
            0 <= n,
    ;
    ((n * (n + 1)) / 2) as i32
}

/// `s` is a non-empty run on line `index` of `g` (a row when `horizontal`).
pub open spec fn run_on(g: Seq<Seq<u8>>, s: Seq<CellTuple>, index: int, horizontal: bool) -> bool {
    s.len() > 0 && if horizontal {
        horizontal_run(g, index, s)
    } else {
        vertical_run(g, index, s)
    }
}

/// A move that lies on one row, or one column, holding at most
/// `MAX_SUBSET_INPUT` non-empty cells.
pub open spec fn line_due(g: Seq<Seq<u8>>, m: Seq<CellTuple>) -> bool {
    row_due(g, m, g.len() as int) || col_due(g, m, g[0].len() as int)
}

/// `k` is the size of the largest move on `g` that lies on one row or one
/// column holding at most `MAX_SUBSET_INPUT` non-empty cells (0 if none).
pub open spec fn is_line_best(g: Seq<Seq<u8>>, k: int) -> bool {
    &&& 0 <= k <= 10
    &&& forall|m: Seq<CellTuple>| #[trigger] line_due(g, m) ==> m.len() <= k
    &&& k > 0 ==> exists|m: Seq<CellTuple>| line_due(g, m) && m.len() == k
}

/// The larger of `best` and the size of the largest run among `subs`.
fn best_run_size(
    subs: &Vec<Vec<CellTuple>>,
    grid: &FlatGrid,
    index: usize,
    horizontal: bool,
    best: usize,
) -> (r: usize)
    requires
        grid.wf(),
        horizontal ==> index < grid.rows,
        !horizontal ==> index < grid.cols,
        best <= 10,
        forall|j: int|
            0 <= j < subs@.len() ==> {
                let s = (#[trigger] subs@[j])@;
                &&& sum_vals(s) == TARGET
                &&& s.len() > 0
                &&& strictly_sorted(s)
                &&& forall|x: int|
                    0 <= x < s.len() ==> (if horizontal {
                        (#[trigger] s[x]).0 == index && s[x].1 < grid.cols
                    } else {
                        s[x].1 == index && s[x].0 < grid.rows
                    }) && s[x].2 == grid@[s[x].0 as int][s[x].1 as int] && s[x].2 >= 1
            },
    ensures
        best <= r <= 10,
        r > best ==> exists|j: int|
            0 <= j < subs@.len() && run_on(grid@, (#[trigger] subs@[j])@, index as int, horizontal)
                && subs@[j]@.len() == r,
        forall|j: int|
            0 <= j < subs@.len() && run_on(grid@, (#[trigger] subs@[j])@, index as int, horizontal)
                ==> subs@[j]@.len() <= r,
{
    let mut best = best;
    let ghost best0 = best;
    let mut k: usize = 0;
    while k < subs.len()
        invariant
            grid.wf(),
            horizontal ==> index < grid.rows,
            !horizontal ==> index < grid.cols,
            best0 <= best <= 10,
            k <= subs@.len(),
            forall|j: int|
                0 <= j < subs@.len() ==> {
                    let s = (#[trigger] subs@[j])@;
                    &&& sum_vals(s) == TARGET
                    &&& s.len() > 0
                    &&& strictly_sorted(s)
                    &&& forall|x: int|
                        0 <= x < s.len() ==> (if horizontal {
                            (#[trigger] s[x]).0 == index && s[x].1 < grid.cols
                        } else {
                            s[x].1 == index && s[x].0 < grid.rows
                        }) && s[x].2 == grid@[s[x].0 as int][s[x].1 as int] && s[x].2 >= 1
                },
            best > best0 ==> exists|j: int|
                0 <= j < subs@.len() && run_on(grid@, (#[trigger] subs@[j])@, index as int, horizontal)
                    && subs@[j]@.len() == best,
            forall|j: int|
                0 <= j < k && run_on(grid@, (#[trigger] subs@[j])@, index as int, horizontal)
                    ==> subs@[j]@.len() <= best,
        decreases subs@.len() - k,
    {
        let s = &subs[k];
        proof {
            assert(subs@[k as int]@ == s@);
            lemma_move_size(s@);
        }
        let ok = if horizontal {
            is_valid_horizontal(s, grid, index)
        } else {
            is_valid_vertical(s, grid, index)
        };
        if ok && s.len() > best {
            best = s.len();
        }
        k += 1;
    }
    best
}

/// An optimistic guess at the points of one more move: the score of the
/// largest move lying on one row or one column (rectangles across several
/// rows and columns are not looked at).
#[verifier::rlimit(100)]
pub fn estimate_future_score_fast(grid: &FlatGrid) -> (r: i32)
    requires
        grid.wf(),
    ensures
        exists|k: int| is_line_best(grid@, k) && r == tri(k),
        0 <= r <= 55,
{
    let ghost g = grid@;
    let mut max_combo_size: usize = 0;
    let mut row: usize = 0;
    while row < grid.rows
        invariant
            grid.wf(),
            g == grid@,
            row <= grid.rows,
            max_combo_size <= 10,
            max_combo_size > 0 ==> exists|m: Seq<CellTuple>| line_due(g, m) && m.len() == max_combo_size,
            forall|m: Seq<CellTuple>| #[trigger] row_due(g, m, row as int) ==> m.len() <= max_combo_size,
        decreases grid.rows - row,
    {
        let line = row_cells(grid, row);
        let ghost old_best = max_combo_size;
        if line.len() > max_combo_size {
            let subs = line_subsets(&line);
            proof {
                assert forall|j: int| 0 <= j < subs@.len() implies forall|x: int|
                    0 <= x < (#[trigger] subs@[j])@.len() ==> (#[trigger] subs@[j]@[x]).0 == row && subs@[j]@[x].1 < grid.cols
                        && subs@[j]@[x].2 == grid@[subs@[j]@[x].0 as int][subs@[j]@[x].1 as int] && subs@[j]@[x].2 >= 1 by {
                    assert forall|x: int| 0 <= x < subs@[j]@.len() implies (#[trigger] subs@[j]@[x]).0 == row && subs@[j]@[x].1 < grid.cols
                        && subs@[j]@[x].2 == grid@[subs@[j]@[x].0 as int][subs@[j]@[x].1 as int] && subs@[j]@[x].2 >= 1 by {
                        let i = choose|i: int| 0 <= i < line@.len() && line@[i] == subs@[j]@[x];
                    }
                }
            }
            max_combo_size = best_run_size(&subs, grid, row, true, max_combo_size);
            proof {
                if max_combo_size > old_best {
                    let j = choose|j: int|
                        0 <= j < subs@.len() && run_on(g, (#[trigger] subs@[j])@, row as int, true)
                            && subs@[j]@.len() == max_combo_size;
                    let m = subs@[j]@;
                    assert(m[0].0 == row);
                    assert(line@.len() <= MAX_SUBSET_INPUT);
                    assert(row_due(g, m, g.len() as int));
                }
                assert forall|m: Seq<CellTuple>| #[trigger] row_due(g, m, row + 1) implies m.len() <= max_combo_size by {
                    if m[0].0 == row {
                        assert forall|x: int| 0 <= x < m.len() implies exists|j: int|
                            0 <= j < line@.len() && line@[j] == #[trigger] m[x] by {
                            assert(m[x].0 == row);
                            assert(g[row as int][m[x].1 as int] != 0);
                        }
                        subset_listed(line@, subs@, m);
                        let k = choose|k: int| 0 <= k < subs@.len() && (#[trigger] subs@[k])@ == m;
                        crate::laws::law_horizontal_gaps_empty(g, m, row as int);
                        assert(run_on(g, subs@[k]@, row as int, true));
                    } else {
                        assert(row_due(g, m, row as int));
                    }
                }
            }
        } else {
            proof {
                assert forall|m: Seq<CellTuple>| #[trigger] row_due(g, m, row + 1) implies m.len() <= max_combo_size by {
                    if m[0].0 == row {
                        assert forall|x: int| 0 <= x < m.len() implies in_list(#[trigger] m[x], line@) by {
                            assert(m[x].0 == row);
                            assert(g[row as int][m[x].1 as int] != 0);
                        }
                        lemma_selection_len(m, line@);
                    } else {
                        assert(row_due(g, m, row as int));
                    }
                }
            }
        }
        row += 1;
    }
    let mut col: usize = 0;
    while col < grid.cols
        invariant
            grid.wf(),
            g == grid@,
            col <= grid.cols,
            max_combo_size <= 10,
            max_combo_size > 0 ==> exists|m: Seq<CellTuple>| line_due(g, m) && m.len() == max_combo_size,
            forall|m: Seq<CellTuple>| #[trigger] row_due(g, m, grid.rows as int) ==> m.len() <= max_combo_size,
            forall|m: Seq<CellTuple>| #[trigger] col_due(g, m, col as int) ==> m.len() <= max_combo_size,
        decreases grid.cols - col,
    {
        let line = col_cells(grid, col);
        let ghost old_best = max_combo_size;
        if line.len() > max_combo_size {
            let subs = line_subsets(&line);
            proof {
                assert forall|j: int| 0 <= j < subs@.len() implies forall|x: int|
                    0 <= x < (#[trigger] subs@[j])@.len() ==> (#[trigger] subs@[j]@[x]).1 == col && subs@[j]@[x].0 < grid.rows
                        && subs@[j]@[x].2 == grid@[subs@[j]@[x].0 as int][subs@[j]@[x].1 as int] && subs@[j]@[x].2 >= 1 by {
                    assert forall|x: int| 0 <= x < subs@[j]@.len() implies (#[trigger] subs@[j]@[x]).1 == col && subs@[j]@[x].0 < grid.rows
                        && subs@[j]@[x].2 == grid@[subs@[j]@[x].0 as int][subs@[j]@[x].1 as int] && subs@[j]@[x].2 >= 1 by {
                        let i = choose|i: int| 0 <= i < line@.len() && line@[i] == subs@[j]@[x];
                    }
                }
            }
            max_combo_size = best_run_size(&subs, grid, col, false, max_combo_size);
            proof {
                if max_combo_size > old_best {
                    let j = choose|j: int|
                        0 <= j < subs@.len() && run_on(g, (#[trigger] subs@[j])@, col as int, false)
                            && subs@[j]@.len() == max_combo_size;
                    let m = subs@[j]@;
                    assert(m[0].1 == col);
                    assert(line@.len() <= MAX_SUBSET_INPUT);
                    assert(g[0].len() == grid.cols);
                    assert(col_due(g, m, g[0].len() as int));
                }
                assert forall|m: Seq<CellTuple>| #[trigger] col_due(g, m, col + 1) implies m.len() <= max_combo_size by {
                    if m[0].1 == col {
                        assert forall|x: int| 0 <= x < m.len() implies exists|j: int|
                            0 <= j < line@.len() && line@[j] == #[trigger] m[x] by {
                            assert(m[x].1 == col);
                            assert(g[m[x].0 as int][col as int] != 0);
                        }
                        subset_listed(line@, subs@, m);
                        let k = choose|k: int| 0 <= k < subs@.len() && (#[trigger] subs@[k])@ == m;
                        assert(crate::grid::rect_rows(g, g[0].len()));
                        crate::laws::law_vertical_gaps_empty(g, m, col as int);
                        assert(run_on(g, subs@[k]@, col as int, false));
                    } else {
                        assert(col_due(g, m, col as int));
                    }
                }
            }
        } else {
            proof {
                assert forall|m: Seq<CellTuple>| #[trigger] col_due(g, m, col + 1) implies m.len() <= max_combo_size by {
                    if m[0].1 == col {
                        assert forall|x: int| 0 <= x < m.len() implies in_list(#[trigger] m[x], line@) by {
                            assert(m[x].1 == col);
                            assert(g[m[x].0 as int][col as int] != 0);
                        }
                        lemma_selection_len(m, line@);
                    } else {
                        assert(col_due(g, m, col as int));
                    }
                }
            }
        }
        col += 1;
    }
    let r = calculate_move_score(max_combo_size);
    assert(0 <= tri(max_combo_size as int) <= 55) by {
        assert(0 <= max_combo_size * (max_combo_size + 1) <= 110) by (nonlinear_arith)
            requires
                max_combo_size <= 10,
        ;
    }
    assert forall|m: Seq<CellTuple>| #[trigger] line_due(g, m) implies m.len() <= max_combo_size by {
        if col_due(g, m, g[0].len() as int) {
            assert(g[0].len() == grid.cols);
        }
    }
    r
}

/// A grid holds at most `MAX_DIM * MAX_DIM` cells.
pub proof fn lemma_grid_size(g: &FlatGrid)
    requires
        g.wf(),
    ensures
        g.data@.len() <= MAX_DIM * MAX_DIM,
        g.remaining() <= MAX_DIM * MAX_DIM,
{
    assert(g.rows * g.cols <= MAX_DIM * MAX_DIM) by (nonlinear_arith)
        requires
            g.rows <= MAX_DIM,
            g.cols <= MAX_DIM,
    ;
    lemma_count_nz_le_len(g.data@);
}

/// A move has at most as many cells as the target, each with a position in the grid.
pub proof fn lemma_move_facts(g: &FlatGrid, m: Seq<CellTuple>)
    requires
        g.wf(),
        is_move(g@, m),
    ensures
        m.len() <= TARGET,
        forall|k: int| 0 <= k < m.len() ==> (#[trigger] m[k]).0 < g.rows && m[k].1 < g.cols,
        g@[m[0].0 as int][m[0].1 as int] != 0,
{
    assert(m[0].2 > 0);
    lemma_move_size(m);
}

/// A partial solution of the beam search: the grid it reached, the steps that
/// led there, their total score, the score plus the estimate of one more move,
/// and the number of non-empty cells left.
struct SearchState {
    grid: FlatGrid,
    steps: Vec<Step>,
    total_score: i32,
    priority: i32,
    remaining: usize,
}

/// `s` is reached from `g0` by `round` valid moves.
spec fn state_ok(s: SearchState, g0: &FlatGrid, round: int, n0: int) -> bool {
    &&& s.grid.wf()
    &&& s.grid.rows == g0.rows
    &&& s.grid.cols == g0.cols
    &&& valid_play(g0@, plays(s.steps@))
    &&& s.grid@ == grid_after_all(g0@, plays(s.steps@))
    &&& s.remaining == s.grid.remaining()
    &&& s.steps@.len() == round
    &&& s.remaining + round <= n0
    &&& 0 <= s.total_score <= 55 * round
}

/// `s` is one of the entries of `v`.
spec fn is_member(s: SearchState, v: Seq<SearchState>) -> bool {
    exists|j: int| 0 <= j < v.len() && v[j] == s
}

/// `a` ranks before `b`: higher priority, then fewer remaining cells.
spec fn ranks_before(a: SearchState, b: SearchState) -> bool {
    a.priority > b.priority || (a.priority == b.priority && a.remaining < b.remaining)
}

/// Splits `pool` into the `width` best-ranked states, best first (among
/// equals the earlier one first), and the states left out, none of which
/// ranks before a kept one.
fn select_top(pool: Vec<SearchState>, width: usize) -> (r: (Vec<SearchState>, Vec<SearchState>))
    ensures
        r.0@.len() == if pool@.len() < width {
            pool@.len()
        } else {
            width as nat
        },
        r.0@.to_multiset().add(r.1@.to_multiset()) == pool@.to_multiset(),
        forall|a: int, b: int|
            0 <= a < r.0@.len() && 0 <= b < r.1@.len() ==> !ranks_before(#[trigger] r.1@[b], #[trigger] r.0@[a]),
        forall|k: int| 0 <= k < r.0@.len() ==> is_member(#[trigger] r.0@[k], pool@),
        forall|a: int, b: int| 0 <= a < b < r.0@.len() ==> !ranks_before(#[trigger] r.0@[b], #[trigger] r.0@[a]),
{
    let ghost pool0 = pool@;
    let mut rest = pool;
    let mut out: Vec<SearchState> = Vec::new();
    proof {
        broadcast use vstd::seq_lib::to_multiset_contains;
        assert forall|a: SearchState| out@.to_multiset().count(a) == 0 by {
            assert(!out@.contains(a));
        }
        assert(out@.to_multiset() =~= vstd::multiset::Multiset::empty());
        assert(out@.to_multiset().add(rest@.to_multiset()) =~= pool0.to_multiset());
    }
    assert forall|k: int| 0 <= k < rest@.len() implies is_member(#[trigger] rest@[k], pool0) by {
        assert(pool0[k] == rest@[k]);
        assert(is_member(rest@[k], pool0));
    }
    while out.len() < width && rest.len() > 0
        invariant
            out@.len() + rest@.len() == pool0.len(),
            out@.to_multiset().add(rest@.to_multiset()) == pool0.to_multiset(),
            out@.len() <= width,
            forall|k: int| 0 <= k < out@.len() ==> is_member(#[trigger] out@[k], pool0),
            forall|k: int| 0 <= k < rest@.len() ==> is_member(#[trigger] rest@[k], pool0),
            forall|a: int, b: int| 0 <= a < b < out@.len() ==> !ranks_before(#[trigger] out@[b], #[trigger] out@[a]),
            forall|a: int, b: int| 0 <= a < out@.len() && 0 <= b < rest@.len() ==> !ranks_before(#[trigger] rest@[b], #[trigger] out@[a]),
        decreases rest@.len(),
    {
        let mut best: usize = 0;
        let mut i: usize = 1;
        while i < rest.len()
            invariant
                0 <= best < i <= rest@.len(),
                forall|k: int| 0 <= k < i ==> !ranks_before(#[trigger] rest@[k], rest@[best as int]),
            decreases rest@.len() - i,
        {
            if rest[i].priority > rest[best].priority || (rest[i].priority == rest[best].priority
                && rest[i].remaining < rest[best].remaining) {
                best = i;
            }
            i += 1;
        }
        let ghost r0 = rest@;
        let ghost o0 = out@;
        let s = rest.remove(best);
        out.push(s);
        proof {
            broadcast use vstd::seq_lib::to_multiset_build, vstd::seq_lib::to_multiset_remove, vstd::seq_lib::to_multiset_contains;
            assert(r0.to_multiset().contains(r0[best as int]));
            assert(out@.to_multiset().add(rest@.to_multiset()) =~= o0.to_multiset().add(r0.to_multiset()));
            assert forall|k: int| 0 <= k < rest@.len() implies is_member(#[trigger] rest@[k], pool0) by {
                if k < best {
                    assert(rest@[k] == r0[k]);
                } else {
                    assert(rest@[k] == r0[k + 1]);
                }
            }
            assert forall|k: int| 0 <= k < out@.len() implies is_member(#[trigger] out@[k], pool0) by {
                if k < o0.len() {
                    assert(out@[k] == o0[k]);
                } else {
                    assert(out@[k] == r0[best as int]);
                }
            }
            assert forall|a: int, b: int| 0 <= a < b < out@.len() implies !ranks_before(#[trigger] out@[b], #[trigger] out@[a]) by {
                assert(out@[a] == o0[a]);
                if b < o0.len() {
                    assert(out@[b] == o0[b]);
                } else {
                    assert(out@[b] == r0[best as int]);
                }
            }
            assert forall|a: int, b: int| 0 <= a < out@.len() && 0 <= b < rest@.len() implies !ranks_before(#[trigger] rest@[b], #[trigger] out@[a]) by {
                let rb = if b < best { b } else { b + 1 };
                assert(rest@[b] == r0[rb]);
                if a < o0.len() {
                    assert(out@[a] == o0[a]);
                } else {
                    assert(out@[a] == r0[best as int]);
                }
            }
        }
    }
    (out, rest)
}

/// Beam search: keeps the `beam_width` most promising partial solutions per
/// round, prunes grids already reached with an equal or better score, and
/// returns the best finished solution (higher score, then fewer cells left).
/// Should every branch be pruned before any reaches a grid without moves, the
/// best-ranked state of the last round is played on with the first move found
/// until no move is left, so the result always ends on a finished grid.
pub fn solve_puzzle_beam_search(initial_grid: &FlatGrid, beam_width: usize) -> (r: Vec<Step>)
    requires
        initial_grid.wf(),
        beam_width >= 1,
    ensures
        valid_play(initial_grid@, plays(r@)),
        no_findable_move(grid_after_all(initial_grid@, plays(r@))),
        no_findable_move(initial_grid@) ==> r@.len() == 0,
{
    let mut visited = Visited::new();
    let initial_priority = estimate_future_score_fast(initial_grid);
    let initial_remaining = initial_grid.count_remaining();
    let ghost n0 = initial_remaining as int;
    proof {
        lemma_grid_size(initial_grid);
    }
    let start = SearchState {
        grid: FlatGrid { data: crate::step::copy_row(&initial_grid.data), rows: initial_grid.rows, cols: initial_grid.cols },
        steps: Vec::new(),
        total_score: 0,
        priority: initial_priority,
        remaining: initial_remaining,
    };
    assert(start.grid@ =~= initial_grid@);
    assert(plays(start.steps@) =~= Seq::<StepView>::empty());
    let mut beam: Vec<SearchState> = Vec::new();
    beam.push(start);
    let mut best_solution: Vec<Step> = Vec::new();
    let mut found_terminal: bool = false;
    let mut best_score: i32 = -1;
    let mut best_remaining_cells: usize = usize::MAX;
    let mut round: usize = 0;
    assert(plays(best_solution@) =~= Seq::<StepView>::empty());
    while beam.len() > 0
        invariant
            initial_grid.wf(),
            beam_width >= 1,
            n0 <= MAX_DIM * MAX_DIM,
            round <= n0 + 1,
            beam@.len() > 0 ==> round <= n0,
            forall|i: int| 0 <= i < beam@.len() ==> state_ok(#[trigger] beam@[i], initial_grid, round as int, n0),
            valid_play(initial_grid@, plays(best_solution@)),
            found_terminal ==> no_findable_move(grid_after_all(initial_grid@, plays(best_solution@))),
            beam@.len() == 0 ==> found_terminal,
            visited.wf(),
        decreases n0 + 1 - round,
    {
        let mut next_beam: Vec<SearchState> = Vec::new();
        let mut si: usize = 0;
        while si < beam.len()
            invariant
                initial_grid.wf(),
                n0 <= MAX_DIM * MAX_DIM,
                round <= n0,
                si <= beam@.len(),
                forall|i: int| 0 <= i < beam@.len() ==> state_ok(#[trigger] beam@[i], initial_grid, round as int, n0),
                forall|i: int| 0 <= i < next_beam@.len() ==> state_ok(#[trigger] next_beam@[i], initial_grid, round + 1, n0),
                valid_play(initial_grid@, plays(best_solution@)),
                found_terminal ==> no_findable_move(grid_after_all(initial_grid@, plays(best_solution@))),
                visited.wf(),
            decreases beam@.len() - si,
        {
            let state = &beam[si];
            assert(state_ok(beam@[si as int], initial_grid, round as int, n0));
            let combinations = find_valid_combinations(&state.grid);
            if combinations.len() == 0 {
                if state.total_score > best_score || (state.total_score == best_score
                    && state.remaining < best_remaining_cells) {
                    best_score = state.total_score;
                    best_remaining_cells = state.remaining;
                    best_solution = copy_steps(&state.steps);
                    found_terminal = true;
                    assert(no_findable_move(state.grid@));
                }
            } else {
                let mut ci: usize = 0;
                while ci < combinations.len()
                    invariant
                        initial_grid.wf(),
                        n0 <= MAX_DIM * MAX_DIM,
                        round <= n0,
                        ci <= combinations@.len(),
                        state_ok(*state, initial_grid, round as int, n0),
                        sound_moves(state.grid@, combinations@),
                        forall|i: int| 0 <= i < next_beam@.len() ==> state_ok(#[trigger] next_beam@[i], initial_grid, round + 1, n0),
                        visited.wf(),
                    decreases combinations@.len() - ci,
                {
                    let combo = &combinations[ci];
                    proof {
                        assert(is_move(state.grid@, combinations@[ci as int]@));
                        lemma_move_facts(&state.grid, combo@);
                    }
                    let new_grid = state.grid.apply_move(combo);
                    let move_score = calculate_move_score(combo.len());
                    assert(move_score <= 55) by {
                        assert(combo@.len() * (combo@.len() + 1) <= 110) by (nonlinear_arith)
                            requires combo@.len() <= 10;
                    }
                    let new_total_score = state.total_score + move_score;
                    if visited.visit(&new_grid.data, new_total_score) {
                        let new_remaining = new_grid.count_remaining();
                        let new_priority = new_total_score + estimate_future_score_fast(&new_grid);
                        let new_step = Step {
                            cells: cells_to_output(combo),
                            sum: TARGET as u8,
                            grid_after: new_grid.to_vec(),
                        };
                        let mut new_steps = copy_steps(&state.steps);
                        let ghost before = plays(new_steps@);
                        new_steps.push(new_step);
                        proof {
                            lemma_play_push(initial_grid@, before, new_step@);
                            assert(plays(new_steps@) =~= before.push(new_step@));
                        }
                        let ns = SearchState {
                            grid: new_grid,
                            steps: new_steps,
                            total_score: new_total_score,
                            priority: new_priority,
                            remaining: new_remaining,
                        };
                        let ghost nb = next_beam@;
                        next_beam.push(ns);
                        assert forall|i: int| 0 <= i < next_beam@.len() implies state_ok(#[trigger] next_beam@[i], initial_grid, round + 1, n0) by {
                            if i < nb.len() {
                                assert(next_beam@[i] == nb[i]);
                            }
                        }
                    }
                    ci += 1;
                }
            }
            si += 1;
        }
        let (kept, _dropped) = select_top(next_beam, beam_width);
        assert forall|i: int| 0 <= i < kept@.len() implies state_ok(#[trigger] kept@[i], initial_grid, round + 1, n0) by {
            let j = choose|j: int| 0 <= j < next_beam@.len() && next_beam@[j] == kept@[i];
            assert(state_ok(next_beam@[j], initial_grid, round + 1, n0));
        }
        if kept.len() > 0 {
            assert(state_ok(kept@[0], initial_grid, round + 1, n0));
        } else if !found_terminal {
            // Every branch was pruned before reaching a finished grid: finish
            // the best-ranked state of this round with the first move found.
            assert(state_ok(beam@[0], initial_grid, round as int, n0));
            best_solution = play_out(initial_grid, &beam[0].grid, &beam[0].steps);
            found_terminal = true;
        }
        beam = kept;
        round += 1;
    }
    proof {
        if no_findable_move(initial_grid@) && best_solution@.len() > 0 {
            assert(step_ok(initial_grid@, plays(best_solution@), 0));
        }
    }
    best_solution
}

/// Continues the play `steps`, which reached `grid` from `initial_grid`, with
/// the first move found on each grid until none is left.
fn play_out(initial_grid: &FlatGrid, grid: &FlatGrid, steps: &Vec<Step>) -> (r: Vec<Step>)
    requires
        initial_grid.wf(),
        grid.wf(),
        valid_play(initial_grid@, plays(steps@)),
        grid@ == grid_after_all(initial_grid@, plays(steps@)),
    ensures
        valid_play(initial_grid@, plays(r@)),
        no_findable_move(grid_after_all(initial_grid@, plays(r@))),
{
    let mut steps = copy_steps(steps);
    let mut current_grid = FlatGrid {
        data: crate::step::copy_row(&grid.data),
        rows: grid.rows,
        cols: grid.cols,
    };
    assert(current_grid@ =~= grid@);
    loop
        invariant
            initial_grid.wf(),
            current_grid.wf(),
            valid_play(initial_grid@, plays(steps@)),
            current_grid@ == grid_after_all(initial_grid@, plays(steps@)),
        ensures
            valid_play(initial_grid@, plays(steps@)),
            no_findable_move(grid_after_all(initial_grid@, plays(steps@))),
        decreases current_grid.remaining(),
    {
        let combinations = find_valid_combinations(&current_grid);
        if combinations.len() == 0 {
            assert(no_findable_move(current_grid@));
            break;
        }
        let first = &combinations[0];
        proof {
            assert(findable(current_grid@, combinations@[0]@));
            lemma_move_facts(&current_grid, first@);
        }
        let new_grid = current_grid.apply_move(first);
        let step = Step { cells: cells_to_output(first), sum: TARGET as u8, grid_after: new_grid.to_vec() };
        let ghost before = plays(steps@);
        steps.push(step);
        proof {
            lemma_play_push(initial_grid@, before, step@);
            assert(plays(steps@) =~= before.push(step@));
        }
        current_grid = new_grid;
    }
    steps
}

/// The size of the largest move on `g` lying on one row or one column with at
/// most `MAX_SUBSET_INPUT` non-empty cells.
pub open spec fn line_best(g: Seq<Seq<u8>>) -> int {
    choose|k: int| is_line_best(g, k)
}

/// `is_line_best` holds of one size at most.
pub proof fn lemma_line_best_unique(g: Seq<Seq<u8>>, k1: int, k2: int)
    requires
        is_line_best(g, k1),
        is_line_best(g, k2),
    ensures
        k1 == k2,
{
    if k1 > 0 {
        let m = choose|m: Seq<CellTuple>| line_due(g, m) && m.len() == k1;
        assert(m.len() <= k2);
    }
    if k2 > 0 {
        let m = choose|m: Seq<CellTuple>| line_due(g, m) && m.len() == k2;
        assert(m.len() <= k1);
    }
}

/// Value of playing move `m` on `g` (of `rows` rows and `cols` columns),
/// looking `depth` moves ahead: its score plus half the score of the largest
/// line move after it at depth one; else, with no move left, its score minus a
/// tenth of the cells left; else its score plus nine tenths of the best value
/// (at least 0) of the first five moves after it, one level shallower.
pub open spec fn look_value(g: Seq<Seq<u8>>, rows: int, cols: int, m: Seq<CellTuple>, depth: int) -> int
    decreases depth, 0int,
{
    let g2 = clear_cells(g, m);
    let imm = tri(m.len() as int);
    if depth <= 1 {
        imm + tri(line_best(g2)) / 2
    } else {
        let c = enumerate(g2, rows, cols);
        if c.len() == 0 {
            imm - cells_left(g2) as int / 10
        } else {
            imm + best_of(g2, rows, cols, c, if c.len() < 5 { c.len() as int } else { 5 }, depth - 1) * 9 / 10
        }
    }
}

/// The largest of 0 and the values at depth `d` of the first `k` moves of `c`.
pub open spec fn best_of(g: Seq<Seq<u8>>, rows: int, cols: int, c: Seq<Seq<CellTuple>>, k: int, d: int) -> int
    decreases d, k + 1,
{
    if k <= 0 || d < 1 {
        0
    } else {
        let prev = best_of(g, rows, cols, c, k - 1, d);
        let v = look_value(g, rows, cols, c[k - 1], d);
        if v > prev {
            v
        } else {
            prev
        }
    }
}

/// Value of playing `combo` on `grid`, looking `depth` moves ahead: its score,
/// plus half the estimate of the next move at depth one; with no move left,
/// minus a tenth of the cells left; else plus nine tenths of the best of the
/// first five follow-up moves valued one level shallower.
pub fn evaluate_with_lookahead(grid: &FlatGrid, combo: &Vec<CellTuple>, depth: usize) -> (r: i32)
    requires
        grid.wf(),
        is_move(grid@, combo@),
    ensures
        -6600 <= r <= 550,
        depth <= 1 ==> r >= 1,
        r == look_value(grid@, grid.rows as int, grid.cols as int, combo@, depth as int),
    decreases depth,
{
    proof {
        lemma_move_facts(grid, combo@);
    }
    let new_grid = grid.apply_move(combo);
    let immediate_score = calculate_move_score(combo.len());
    assert(1 <= immediate_score <= 55) by {
        assert(combo@.len() * (combo@.len() + 1) <= 110) by (nonlinear_arith)
            requires
                combo@.len() <= 10,
        ;
        assert(combo@.len() * (combo@.len() + 1) >= 2) by (nonlinear_arith)
            requires
                combo@.len() >= 1,
        ;
    }
    if depth <= 1 {
        let est = estimate_future_score_fast(&new_grid);
        proof {
            let k = choose|k: int| is_line_best(new_grid@, k) && est == tri(k);
            lemma_line_best_unique(new_grid@, k, line_best(new_grid@));
        }
        let future_bonus = est / 2;
        return immediate_score + future_bonus;
    }
    let next_combos = find_valid_combinations(&new_grid);
    if next_combos.len() == 0 {
        let remaining = new_grid.count_remaining();
        proof {
            lemma_grid_size(&new_grid);
            lemma_flat_count(&new_grid);
        }
        return immediate_score - (remaining as i32) / 10;
    }
    assert(findable(new_grid@, next_combos@[0]@));
    let max_evaluate: usize = if next_combos.len() < 5 {
        next_combos.len()
    } else {
        5
    };
    let ghost e = enumerate(new_grid@, grid.rows as int, grid.cols as int);
    let mut best_future_score: i32 = 0;
    let mut k: usize = 0;
    while k < max_evaluate
        invariant
            new_grid.wf(),
            new_grid.rows == grid.rows,
            new_grid.cols == grid.cols,
            depth > 1,
            k <= max_evaluate <= next_combos@.len(),
            sound_moves(new_grid@, next_combos@),
            seqs_of(next_combos@) == e,
            0 <= best_future_score <= 550,
            best_future_score == best_of(new_grid@, grid.rows as int, grid.cols as int, e, k as int, depth - 1),
        decreases max_evaluate - k,
    {
        assert(seqs_of(next_combos@)[k as int] == next_combos@[k as int]@);
        let future_score = evaluate_with_lookahead(&new_grid, &next_combos[k], depth - 1);
        if future_score > best_future_score {
            best_future_score = future_score;
        }
        k += 1;
    }
    immediate_score + (best_future_score * 9 / 10)
}

/// The least index holding the largest of `values`.
pub fn first_best(values: &Vec<i32>) -> (r: usize)
    requires
        values@.len() > 0,
    ensures
        r < values@.len(),
        forall|j: int| 0 <= j < values@.len() ==> values@[j] <= values@[r as int],
        forall|j: int| 0 <= j < r ==> values@[j] < values@[r as int],
{
    let mut best: usize = 0;
    let mut idx: usize = 1;
    while idx < values.len()
        invariant
            best < idx <= values@.len(),
            forall|j: int| 0 <= j < idx ==> values@[j] <= values@[best as int],
            forall|j: int| 0 <= j < best ==> values@[j] < values@[best as int],
        decreases values@.len() - idx,
    {
        if values[idx] > values[best] {
            best = idx;
        }
        idx += 1;
    }
    best
}

/// The lookahead values at depth `d` of the moves `c` on `g`.
pub open spec fn look_values(g: Seq<Seq<u8>>, rows: int, cols: int, c: Seq<Seq<CellTuple>>, d: int) -> Seq<int> {
    Seq::new(c.len(), |i: int| look_value(g, rows, cols, c[i], d))
}

/// `j` is the least index holding the largest of `v`.
pub open spec fn is_first_best(v: Seq<int>, j: int) -> bool {
    &&& 0 <= j < v.len()
    &&& forall|i: int| 0 <= i < v.len() ==> v[i] <= v[j]
    &&& forall|i: int| 0 <= i < j ==> v[i] < v[j]
}

/// Step `i` of `steps` commits, on the grid before it, the first move of
/// highest lookahead value at depth `d` among the moves in the order found.
pub open spec fn greedy_step(g0: Seq<Seq<u8>>, rows: int, cols: int, steps: Seq<StepView>, d: int, i: int) -> bool {
    let b = grid_before(g0, steps, i);
    let c = enumerate(b, rows, cols);
    exists|j: int| is_first_best(look_values(b, rows, cols, c, d), j) && steps[i].cells == c[j]
}

/// The lookahead value of each candidate move, in order.
fn lookahead_values(grid: &FlatGrid, combinations: &Vec<Vec<CellTuple>>, lookahead: usize) -> (r: Vec<i32>)
    requires
        grid.wf(),
        sound_moves(grid@, combinations@),
    ensures
        r@.len() == combinations@.len(),
        forall|i: int| 0 <= i < r@.len() ==> #[trigger] r@[i] as int == look_values(
            grid@,
            grid.rows as int,
            grid.cols as int,
            seqs_of(combinations@),
            lookahead as int,
        )[i],
{
    let mut values: Vec<i32> = Vec::new();
    let mut idx: usize = 0;
    while idx < combinations.len()
        invariant
            grid.wf(),
            idx <= combinations@.len(),
            values@.len() == idx,
            sound_moves(grid@, combinations@),
            forall|i: int| 0 <= i < idx ==> #[trigger] values@[i] as int == look_values(
                grid@,
                grid.rows as int,
                grid.cols as int,
                seqs_of(combinations@),
                lookahead as int,
            )[i],
        decreases combinations@.len() - idx,
    {
        assert(findable(grid@, combinations@[idx as int]@));
        assert(seqs_of(combinations@)[idx as int] == combinations@[idx as int]@);
        values.push(evaluate_with_lookahead(grid, &combinations[idx], lookahead));
        idx += 1;
    }
    values
}

/// Index of the first candidate of highest lookahead value.
fn best_candidate(grid: &FlatGrid, combinations: &Vec<Vec<CellTuple>>, lookahead: usize) -> (r: usize)
    requires
        grid.wf(),
        combinations@.len() > 0,
        sound_moves(grid@, combinations@),
    ensures
        r < combinations@.len(),
        is_first_best(
            look_values(grid@, grid.rows as int, grid.cols as int, seqs_of(combinations@), lookahead as int),
            r as int,
        ),
{
    let values = lookahead_values(grid, combinations, lookahead);
    let r = first_best(&values);
    proof {
        let lv = look_values(grid@, grid.rows as int, grid.cols as int, seqs_of(combinations@), lookahead as int);
        assert(lv.len() == values@.len());
        assert(values@[r as int] as int == lv[r as int]);
        assert forall|i: int| 0 <= i < lv.len() implies lv[i] <= lv[r as int] by {
            assert(values@[i] as int == lv[i]);
        }
        assert forall|i: int| 0 <= i < r implies lv[i] < lv[r as int] by {
            assert(values@[i] as int == lv[i]);
        }
    }
    r
}

/// Greedy search: repeatedly commits to the move of highest lookahead value
/// until no move is left.
pub fn solve_puzzle_greedy_lookahead(initial_grid: &FlatGrid, lookahead: usize) -> (r: Vec<Step>)
    requires
        initial_grid.wf(),
    ensures
        valid_play(initial_grid@, plays(r@)),
        no_findable_move(grid_after_all(initial_grid@, plays(r@))),
        no_findable_move(initial_grid@) ==> r@.len() == 0,
        enumerate(
            grid_after_all(initial_grid@, plays(r@)),
            initial_grid.rows as int,
            initial_grid.cols as int,
        ).len() == 0,
        forall|i: int|
            0 <= i < r@.len() ==> #[trigger] greedy_step(
                initial_grid@,
                initial_grid.rows as int,
                initial_grid.cols as int,
                plays(r@),
                lookahead as int,
                i,
            ),
{
    let ghost rows = initial_grid.rows as int;
    let ghost cols = initial_grid.cols as int;
    let mut steps: Vec<Step> = Vec::new();
    let mut current_grid = FlatGrid {
        data: crate::step::copy_row(&initial_grid.data),
        rows: initial_grid.rows,
        cols: initial_grid.cols,
    };
    assert(current_grid@ =~= initial_grid@);
    assert(plays(steps@) =~= Seq::<StepView>::empty());
    loop
        invariant
            initial_grid.wf(),
            current_grid.wf(),
            valid_play(initial_grid@, plays(steps@)),
            current_grid@ == grid_after_all(initial_grid@, plays(steps@)),
            current_grid.rows == rows,
            current_grid.cols == cols,
            rows == initial_grid.rows,
            cols == initial_grid.cols,
            forall|i: int|
                0 <= i < steps@.len() ==> #[trigger] greedy_step(initial_grid@, rows, cols, plays(steps@), lookahead as int, i),
        ensures
            valid_play(initial_grid@, plays(steps@)),
            current_grid@ == grid_after_all(initial_grid@, plays(steps@)),
            no_findable_move(current_grid@),
            enumerate(current_grid@, rows, cols).len() == 0,
            forall|i: int|
                0 <= i < steps@.len() ==> #[trigger] greedy_step(initial_grid@, rows, cols, plays(steps@), lookahead as int, i),
        decreases current_grid.remaining(),
    {
        let combinations = find_valid_combinations(&current_grid);
        if combinations.len() == 0 {
            assert(no_findable_move(current_grid@));
            assert(seqs_of(combinations@).len() == 0);
            break;
        }
        let best = best_candidate(&current_grid, &combinations, lookahead);
        let best_combo = &combinations[best];
        proof {
            assert(is_move(current_grid@, combinations@[best as int]@));
            lemma_move_facts(&current_grid, best_combo@);
        }
        let new_grid = current_grid.apply_move(best_combo);
        let step = Step { cells: cells_to_output(best_combo), sum: TARGET as u8, grid_after: new_grid.to_vec() };
        let ghost before = plays(steps@);
        steps.push(step);
        proof {
            lemma_play_push(initial_grid@, before, step@);
            let after = plays(steps@);
            assert(after =~= before.push(step@));
            let c = enumerate(current_grid@, rows, cols);
            assert(c[best as int] == seqs_of(combinations@)[best as int]);
            assert(step@.cells == best_combo@);
            assert(grid_before(initial_grid@, after, before.len() as int) == current_grid@);
            assert(greedy_step(initial_grid@, rows, cols, after, lookahead as int, before.len() as int));
            assert forall|i: int| 0 <= i < after.len() implies #[trigger] greedy_step(
                initial_grid@,
                rows,
                cols,
                after,
                lookahead as int,
                i,
            ) by {
                if i < before.len() {
                    assert(greedy_step(initial_grid@, rows, cols, before, lookahead as int, i));
                    assert(after[i] == before[i]);
                    assert(grid_before(initial_grid@, after, i) == grid_before(initial_grid@, before, i));
                }
            }
        }
        current_grid = new_grid;
    }
    proof {
        if no_findable_move(initial_grid@) && steps@.len() > 0 {
            assert(step_ok(initial_grid@, plays(steps@), 0));
        }
    }
    steps
}

/// Most non-empty cells for which the wide beam is used.
pub const WIDE_BEAM_LIMIT: usize = 30;

/// Most non-empty cells for which the narrow beam is used.
pub const NARROW_BEAM_LIMIT: usize = 50;

/// How a grid is solved.
#[derive(Clone, Copy, Debug, PartialEq, Eq)]
pub enum Strategy {
    /// Beam search of the given width.
    Beam(usize),
    /// Greedy search with the given lookahead depth.
    Greedy(usize),
}

/// The strategy for a grid with `cells` non-empty cells: beam search of width
/// 20 up to `WIDE_BEAM_LIMIT` cells, of width 12 up to `NARROW_BEAM_LIMIT`,
/// else greedy lookahead of depth 3.
pub open spec fn strategy_for(cells: int) -> Strategy {
    if cells <= WIDE_BEAM_LIMIT {
        Strategy::Beam(20)
    } else if cells <= NARROW_BEAM_LIMIT {
        Strategy::Beam(12)
    } else {
        Strategy::Greedy(3)
    }
}

/// Picks the strategy for a grid with `cells` non-empty cells.
pub fn select_strategy(cells: usize) -> (r: Strategy)
    ensures
        r == strategy_for(cells as int),
{
    if cells <= WIDE_BEAM_LIMIT {
        Strategy::Beam(20)
    } else if cells <= NARROW_BEAM_LIMIT {
        Strategy::Beam(12)
    } else {
        Strategy::Greedy(3)
    }
}

/// Solves `grid` with the strategy that `select_strategy` picks for its count
/// of non-empty cells.
pub fn solve(grid: &FlatGrid) -> (r: Vec<Step>)
    requires
        grid.wf(),
    ensures
        valid_play(grid@, plays(r@)),
        no_findable_move(grid_after_all(grid@, plays(r@))),
        no_findable_move(grid@) ==> r@.len() == 0,
{
    let total_cells = grid.count_remaining();
    match select_strategy(total_cells) {
        Strategy::Beam(width) => solve_puzzle_beam_search(grid, width),
        Strategy::Greedy(depth) => solve_puzzle_greedy_lookahead(grid, depth),
    }
}

/// Checks `rows` and solves it; a matrix that is not a valid grid is refused
/// with the reason that `FlatGrid::new` gives.
pub fn solve_rows(rows: &Vec<Vec<u8>>) -> (r: Result<Vec<Step>, GridError>)
    ensures
        r is Ok <==> valid_matrix(rows@),
        r matches Err(e) ==> matrix_error(rows@) == Some(e),
        r matches Ok(steps) ==> valid_play(rows_view(rows@), plays(steps@)),
        r matches Ok(steps) ==> no_findable_move(grid_after_all(rows_view(rows@), plays(steps@))),
        r matches Ok(steps) ==> no_findable_move(rows_view(rows@)) ==> steps@.len() == 0,
{
    match FlatGrid::new(rows) {
        Ok(g) => Ok(solve(&g)),
        Err(e) => Err(e),
    }
}

} // verus!
