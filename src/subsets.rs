use vstd::prelude::*;

verus! {

/// A cell as (row, column, value).
pub type CellTuple = (usize, usize, u8);

/// Longest list that the subset search accepts.
pub const MAX_SUBSET_INPUT: usize = 20;

/// Sum of the values of `m`.
pub open spec fn sum_vals(m: Seq<CellTuple>) -> int
    decreases m.len(),
{
    if m.len() == 0 {
        0
    } else {
        sum_vals(m.drop_last()) + m.last().2
    }
}

/// Sum of the values of `s` from index `i` on.
pub open spec fn sum_from(s: Seq<CellTuple>, i: int) -> int
    decreases s.len() - i,
{
    if i >= s.len() || i < 0 {
        0
    } else {
        s[i].2 + sum_from(s, i + 1)
    }
}

/// Every way to extend `cur` by a subsequence of `cells[i..]` whose values
/// bring the total to `target`, leaving out the empty selection; listed
/// depth first, taking an element before leaving it out.
pub open spec fn subsets_from(cells: Seq<CellTuple>, i: int, cur: Seq<CellTuple>, target: int) -> Seq<
    Seq<CellTuple>,
>
    decreases cells.len() - i,
{
    if i >= cells.len() || i < 0 {
        if sum_vals(cur) == target && cur.len() > 0 {
            seq![cur]
        } else {
            seq![]
        }
    } else {
        subsets_from(cells, i + 1, cur.push(cells[i]), target) + subsets_from(
            cells,
            i + 1,
            cur,
            target,
        )
    }
}

/// All non-empty subsequences of `cells` whose values sum to `target`.
pub open spec fn all_subsets(cells: Seq<CellTuple>, target: int) -> Seq<Seq<CellTuple>> {
    subsets_from(cells, 0, seq![], target)
}

/// The elements of a vector of vectors, as sequences.
pub open spec fn seqs_of(v: Seq<Vec<CellTuple>>) -> Seq<Seq<CellTuple>> {
    v.map_values(|x: Vec<CellTuple>| x@)
}

pub proof fn lemma_sum_push(m: Seq<CellTuple>, x: CellTuple)
    ensures
        sum_vals(m.push(x)) == sum_vals(m) + x.2,
{
    assert(m.push(x).drop_last() =~= m);
}

pub proof fn lemma_sum_bound(m: Seq<CellTuple>)
    ensures
        0 <= sum_vals(m) <= 255 * m.len(),
    decreases m.len(),
{
    if m.len() > 0 {
        lemma_sum_bound(m.drop_last());
    }
}

pub proof fn lemma_sum_from_bound(s: Seq<CellTuple>, i: int)
    requires
        0 <= i <= s.len(),
    ensures
        0 <= sum_from(s, i) <= 255 * (s.len() - i),
    decreases s.len() - i,
{
    if i < s.len() {
        lemma_sum_from_bound(s, i + 1);
    }
}

/// No extension of `cur` reaches `target` when even all that is left falls short.
pub proof fn lemma_short_prunes(cells: Seq<CellTuple>, i: int, cur: Seq<CellTuple>, target: int)
    requires
        0 <= i <= cells.len(),
        sum_vals(cur) + sum_from(cells, i) < target,
    ensures
        subsets_from(cells, i, cur, target).len() == 0,
    decreases cells.len() - i,
{
    if i < cells.len() {
        lemma_sum_push(cur, cells[i]);
        lemma_short_prunes(cells, i + 1, cur.push(cells[i]), target);
        lemma_short_prunes(cells, i + 1, cur, target);
    }
}

/// No extension of `cur` reaches `target` once `cur` has passed it.
pub proof fn lemma_over_prunes(cells: Seq<CellTuple>, i: int, cur: Seq<CellTuple>, target: int)
    requires
        0 <= i <= cells.len(),
        sum_vals(cur) > target,
    ensures
        subsets_from(cells, i, cur, target).len() == 0,
    decreases cells.len() - i,
{
    if i < cells.len() {
        lemma_sum_push(cur, cells[i]);
        lemma_over_prunes(cells, i + 1, cur.push(cells[i]), target);
        lemma_over_prunes(cells, i + 1, cur, target);
    }
}

/// A copy of `v`.
pub fn copy_cells(v: &Vec<CellTuple>) -> (r: Vec<CellTuple>)
    ensures
        r@ == v@,
{
    let mut r: Vec<CellTuple> = Vec::new();
    let mut i: usize = 0;
    while i < v.len()
        invariant
            i <= v@.len(),
            r@ == v@.take(i as int),
        decreases v@.len() - i,
    {
        r.push(v[i]);
        assert(r@ =~= v@.take(i + 1));
        i += 1;
    }
    assert(v@.take(i as int) =~= v@);
    r
}

fn backtrack(
    cells: &Vec<CellTuple>,
    idx: usize,
    current_sum: u16,
    target: u16,
    suffix_sum: &Vec<u16>,
    current: &mut Vec<CellTuple>,
    result: &mut Vec<Vec<CellTuple>>,
)
    requires
        idx <= cells@.len() <= MAX_SUBSET_INPUT,
        suffix_sum@.len() == cells@.len() + 1,
        forall|i: int| 0 <= i <= cells@.len() ==> #[trigger] suffix_sum@[i] == sum_from(cells@, i),
        current_sum == sum_vals(old(current)@),
        old(current)@.len() <= idx,
    ensures
        final(current)@ == old(current)@,
        seqs_of(final(result)@) == seqs_of(old(result)@) + subsets_from(
            cells@,
            idx as int,
            old(current)@,
            target as int,
        ),
    decreases cells@.len() - idx,
{
    let ghost cur = current@;
    if idx >= cells.len() {
        if current_sum == target && current.len() > 0 {
            let ghost pre = result@;
            result.push(copy_cells(current));
            assert(seqs_of(result@) =~= seqs_of(pre) + seq![cur]);
        } else {
            assert(seqs_of(result@) =~= seqs_of(result@) + Seq::<Seq<CellTuple>>::empty());
        }
        return;
    }
    proof {
        lemma_sum_from_bound(cells@, idx as int);
        lemma_sum_bound(cur);
    }
    if current_sum + suffix_sum[idx] < target {
        proof {
            lemma_short_prunes(cells@, idx as int, cur, target as int);
        }
        assert(seqs_of(result@) =~= seqs_of(result@) + subsets_from(
            cells@,
            idx as int,
            cur,
            target as int,
        ));
        return;
    }
    if current_sum > target {
        proof {
            lemma_over_prunes(cells@, idx as int, cur, target as int);
        }
        assert(seqs_of(result@) =~= seqs_of(result@) + subsets_from(
            cells@,
            idx as int,
            cur,
            target as int,
        ));
        return;
    }
    let ghost r0 = seqs_of(result@);
    let (row, col, value) = cells[idx];
    current.push((row, col, value));
    proof {
        lemma_sum_push(cur, cells@[idx as int]);
    }
    backtrack(cells, idx + 1, current_sum + value as u16, target, suffix_sum, current, result);
    let ghost r1 = seqs_of(result@);
    current.pop();
    assert(current@ =~= cur);
    backtrack(cells, idx + 1, current_sum, target, suffix_sum, current, result);
    assert(seqs_of(result@) =~= r0 + subsets_from(cells@, idx as int, cur, target as int));
}

/// Appends to `result` every non-empty subsequence of `cells` whose values sum
/// to `target`, in depth-first order; a list that is empty or longer than
/// `MAX_SUBSET_INPUT` adds nothing.
pub fn find_subsets_with_sum(cells: &Vec<CellTuple>, target: u16, result: &mut Vec<Vec<CellTuple>>)
    ensures
        cells@.len() == 0 || cells@.len() > MAX_SUBSET_INPUT ==> final(result)@ == old(result)@,
        0 < cells@.len() <= MAX_SUBSET_INPUT ==> seqs_of(final(result)@) == seqs_of(old(result)@)
            + all_subsets(cells@, target as int),
{
    let n = cells.len();
    if n == 0 || n > MAX_SUBSET_INPUT {
        return;
    }
    let mut suffix_sum: Vec<u16> = Vec::new();
    let mut k: usize = 0;
    while k <= n
        invariant
            k <= n + 1,
            n == cells@.len() <= MAX_SUBSET_INPUT,
            suffix_sum@.len() == k,
            forall|j: int| 0 <= j < k ==> #[trigger] suffix_sum@[j] == 0,
        decreases n + 1 - k,
    {
        suffix_sum.push(0);
        k += 1;
    }
    let mut i: usize = n;
    while i > 0
        invariant
            i <= n <= MAX_SUBSET_INPUT,
            n == cells@.len(),
            suffix_sum@.len() == n + 1,
            suffix_sum@[n as int] == 0,
            forall|j: int| i <= j <= n ==> #[trigger] suffix_sum@[j] == sum_from(cells@, j),
        decreases i,
    {
        i -= 1;
        proof {
            lemma_sum_from_bound(cells@, i + 1);
        }
        let s = suffix_sum[i + 1] + cells[i].2 as u16;
        suffix_sum.set(i, s);
    }
    let mut current: Vec<CellTuple> = Vec::new();
    backtrack(cells, 0, 0, target, &suffix_sum, &mut current, result);
}


/// `a` comes before `b` in row-major order of positions.
pub open spec fn lt_pos(a: CellTuple, b: CellTuple) -> bool {
    a.0 < b.0 || (a.0 == b.0 && a.1 < b.1)
}

/// Positions strictly increasing in row-major order (so all distinct).
pub open spec fn strictly_sorted(m: Seq<CellTuple>) -> bool {
    forall|i: int, j: int| 0 <= i < j < m.len() ==> lt_pos(#[trigger] m[i], #[trigger] m[j])
}

/// Every element of `s` is one of `cells[..i]`.
pub open spec fn drawn_from(s: Seq<CellTuple>, cells: Seq<CellTuple>, i: int) -> bool {
    forall|x: int|
        0 <= x < s.len() ==> exists|j: int| 0 <= j < i && cells[j] == #[trigger] s[x]
}

/// What every enumerated subset satisfies: it reaches the target, is
/// non-empty, keeps the order of `cells` and takes its elements from `cells`.
pub proof fn lemma_subsets_sound(cells: Seq<CellTuple>, i: int, cur: Seq<CellTuple>, target: int)
    requires
        0 <= i <= cells.len(),
        strictly_sorted(cells),
        strictly_sorted(cur),
        drawn_from(cur, cells, i),
        forall|a: int, j: int|
            0 <= a < cur.len() && i <= j < cells.len() ==> lt_pos(#[trigger] cur[a], #[trigger] cells[j]),
    ensures
        forall|k: int|
            0 <= k < subsets_from(cells, i, cur, target).len() ==> {
                let s = #[trigger] subsets_from(cells, i, cur, target)[k];
                &&& sum_vals(s) == target
                &&& s.len() > 0
                &&& strictly_sorted(s)
                &&& drawn_from(s, cells, cells.len() as int)
            },
    decreases cells.len() - i,
{
    if i < cells.len() {
        let nxt = cur.push(cells[i]);
        assert(strictly_sorted(nxt)) by {
            assert forall|a: int, b: int| 0 <= a < b < nxt.len() implies lt_pos(nxt[a], nxt[b]) by {
                if b == cur.len() {
                    assert(lt_pos(cur[a], cells[i]));
                } else {
                    assert(lt_pos(cur[a], cur[b]));
                }
            }
        }
        assert(drawn_from(nxt, cells, i + 1)) by {
            assert forall|x: int| 0 <= x < nxt.len() implies exists|j: int|
                0 <= j < i + 1 && cells[j] == #[trigger] nxt[x] by {
                if x == cur.len() {
                    assert(cells[i] == nxt[x]);
                } else {
                    assert(nxt[x] == cur[x]);
                }
            }
        }
        assert forall|a: int, j: int| 0 <= a < nxt.len() && i + 1 <= j < cells.len() implies lt_pos(
            #[trigger] nxt[a],
            #[trigger] cells[j],
        ) by {
            if a == cur.len() {
                assert(lt_pos(cells[i], cells[j]));
            } else {
                assert(nxt[a] == cur[a]);
                assert(lt_pos(cur[a], cells[j]));
            }
        }
        assert(drawn_from(cur, cells, i + 1)) by {
            assert forall|x: int| 0 <= x < cur.len() implies exists|j: int|
                0 <= j < i + 1 && cells[j] == #[trigger] cur[x] by {
                let j = choose|j: int| 0 <= j < i && cells[j] == cur[x];
            }
        }
        lemma_subsets_sound(cells, i + 1, nxt, target);
        lemma_subsets_sound(cells, i + 1, cur, target);
        let left = subsets_from(cells, i + 1, nxt, target);
        let right = subsets_from(cells, i + 1, cur, target);
        assert(subsets_from(cells, i, cur, target) == left + right);
        assert forall|k: int| 0 <= k < (left + right).len() implies {
            let s = #[trigger] (left + right)[k];
            &&& sum_vals(s) == target
            &&& s.len() > 0
            &&& strictly_sorted(s)
            &&& drawn_from(s, cells, cells.len() as int)
        } by {
            if k < left.len() {
                assert((left + right)[k] == left[k]);
            } else {
                assert((left + right)[k] == right[k - left.len()]);
            }
        }
    } else {
        assert(drawn_from(cur, cells, cells.len() as int));
    }
}

/// Every extension of `cur` by a subsequence `rest` of `cells[i..]` that
/// reaches `target` is enumerated.
pub proof fn lemma_subsets_complete(
    cells: Seq<CellTuple>,
    i: int,
    cur: Seq<CellTuple>,
    rest: Seq<CellTuple>,
    target: int,
)
    requires
        0 <= i <= cells.len(),
        strictly_sorted(cells),
        strictly_sorted(rest),
        forall|x: int|
            0 <= x < rest.len() ==> exists|j: int| i <= j < cells.len() && cells[j] == #[trigger] rest[x],
        sum_vals(cur + rest) == target,
        (cur + rest).len() > 0,
    ensures
        exists|k: int|
            0 <= k < subsets_from(cells, i, cur, target).len() && #[trigger] subsets_from(
                cells,
                i,
                cur,
                target,
            )[k] == cur + rest,
    decreases cells.len() - i,
{
    if i == cells.len() {
        if rest.len() > 0 {
            let j = choose|j: int| i <= j < cells.len() && cells[j] == rest[0];
        }
        assert(cur + rest =~= cur);
        assert(subsets_from(cells, i, cur, target)[0] == cur + rest);
    } else if rest.len() > 0 && rest[0] == cells[i] {
        let nxt = cur.push(cells[i]);
        let tail = rest.drop_first();
        assert(cur + rest =~= nxt + tail);
        assert forall|x: int| 0 <= x < tail.len() implies exists|j: int|
            i + 1 <= j < cells.len() && cells[j] == #[trigger] tail[x] by {
            assert(tail[x] == rest[x + 1]);
            let j = choose|j: int| i <= j < cells.len() && cells[j] == rest[x + 1];
            assert(lt_pos(rest[0], rest[x + 1]));
        }
        assert(strictly_sorted(tail)) by {
            assert forall|a: int, b: int| 0 <= a < b < tail.len() implies lt_pos(tail[a], tail[b]) by {
                assert(lt_pos(rest[a + 1], rest[b + 1]));
            }
        }
        lemma_subsets_complete(cells, i + 1, nxt, tail, target);
        let left = subsets_from(cells, i + 1, nxt, target);
        let right = subsets_from(cells, i + 1, cur, target);
        let k = choose|k: int| 0 <= k < left.len() && #[trigger] left[k] == nxt + tail;
        assert(subsets_from(cells, i, cur, target) == left + right);
        assert((left + right)[k] == left[k]);
    } else {
        assert forall|x: int| 0 <= x < rest.len() implies exists|j: int|
            i + 1 <= j < cells.len() && cells[j] == #[trigger] rest[x] by {
            let j = choose|j: int| i <= j < cells.len() && cells[j] == rest[x];
            if j == i {
                assert(x != 0);
                let j0 = choose|j0: int| i <= j0 < cells.len() && cells[j0] == rest[0];
                assert(lt_pos(rest[0], rest[x]));
                if j0 > i {
                    assert(lt_pos(cells[i], cells[j0]));
                }
            }
        }
        lemma_subsets_complete(cells, i + 1, cur, rest, target);
        let left = subsets_from(cells, i + 1, cur.push(cells[i]), target);
        let right = subsets_from(cells, i + 1, cur, target);
        let k = choose|k: int| 0 <= k < right.len() && #[trigger] right[k] == cur + rest;
        assert(subsets_from(cells, i, cur, target) == left + right);
        assert((left + right)[left.len() + k] == right[k]);
    }
}

} // verus!
