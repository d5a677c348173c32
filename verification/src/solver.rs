//! Exhaustive search for the solutions of a puzzle, branching at every step
//! on the row or region with the fewest free cells.

use vstd::prelude::*;
use crate::MAX_CELLS;
use crate::bits::{bit64, lemma_bit_and_not, lemma_bit_clear_single, lemma_bit_or_single, lemma_bit_test_single, lemma_bit_zero, lemma_low_mask, lemma_nonzero_has_bit};
use crate::bitset::BitSet1024;
use crate::counting::lemma_same_elements;
use crate::grid::{cell_index, col_of, lemma_cell_index, lemma_index_cell, row_of, touching};
use crate::neighbors::{are_neighbor_masks, neighbor_cells};
use crate::puzzle::{
    all_solutions_among, cell_free, distinct_solutions, is_solution, lemma_cell_tree_at, lemma_compatible_symmetric,
    lemma_partial_counts, lemma_solution_regions, lemma_solution_tree_free, lemma_solutions_differ, lemma_tree_at_cell,
    row_has_tree, tree_at, tree_cell, trees_compatible, trees_within, valid_partial, well_formed_regions,
};

verus! {

/// The region map held in a flat array: `flat[j]` for the cells `j` of the board.
pub open spec fn flat_region_model(n: int, flat: Seq<u16>) -> Seq<int> {
    Seq::new((n * n) as nat, |j: int| flat[j] as int)
}

/// The cells touching some tree of `placed`.
pub open spec fn blocked_cells(n: int, placed: Seq<(usize, usize)>) -> Set<int> {
    Set::new(|j: int| 0 <= j < n * n &&
        exists|k: int| 0 <= k < placed.len() && touching((#[trigger] placed[k]).0 as int, placed[k].1 as int, row_of(n, j), col_of(n, j)))
}

/// The masks of the search describe the trees `placed`: the rows still
/// empty, the columns taken, the regions still empty and the cells touched.
pub open spec fn search_state(
    n: int,
    reg: Seq<int>,
    placed: Seq<(usize, usize)>,
    rows_left: u64,
    cols_used: u64,
    regs_left: u64,
    blocked: Set<int>,
) -> bool {
    &&& valid_partial(n, reg, placed)
    &&& forall|r: u64| r < 64 ==> (#[trigger] bit64(rows_left, r) <==>
            (r < n && forall|k: int| 0 <= k < placed.len() ==> (#[trigger] placed[k]).0 != r))
    &&& forall|c: u64| c < 64 ==> (#[trigger] bit64(cols_used, c) <==>
            exists|k: int| 0 <= k < placed.len() && (#[trigger] placed[k]).1 == c)
    &&& forall|g: u64| g < 64 ==> (#[trigger] bit64(regs_left, g) <==>
            (g < n && forall|k: int| 0 <= k < placed.len() ==> reg[tree_cell(n, #[trigger] placed[k])] != g))
    &&& blocked == blocked_cells(n, placed)
}

/// `list` holds, in increasing order, exactly the cells of region `g`.
pub open spec fn region_list(n: int, reg: Seq<int>, g: int, list: Seq<usize>) -> bool {
    &&& list.len() <= n * n
    &&& forall|k: int| 0 <= k < list.len() ==> #[trigger] list[k] < n * n && reg[list[k] as int] == g
    &&& forall|k: int, l: int| 0 <= k < l < list.len() ==> #[trigger] list[k] < #[trigger] list[l]
    &&& forall|idx: int| 0 <= idx < n * n && #[trigger] reg[idx] == g ==> list.contains(idx as usize)
}

/// `cands` holds, in increasing order, exactly the free cells of a group:
/// row `key` when `by_row`, region `key` otherwise. The group is still empty.
pub open spec fn group_candidates(
    n: int,
    reg: Seq<int>,
    placed: Seq<(usize, usize)>,
    cands: Seq<usize>,
    by_row: bool,
    key: int,
) -> bool {
    &&& 0 <= key < n
    &&& by_row ==> forall|k: int| 0 <= k < placed.len() ==> (#[trigger] placed[k]).0 != key
    &&& !by_row ==> forall|k: int| 0 <= k < placed.len() ==> reg[tree_cell(n, #[trigger] placed[k])] != key
    &&& forall|k: int| 0 <= k < cands.len() ==> #[trigger] cell_free(n, reg, placed, cands[k] as int)
    &&& forall|k: int| 0 <= k < cands.len() ==> in_group(n, reg, #[trigger] cands[k] as int, by_row, key)
    &&& forall|k: int, l: int| 0 <= k < l < cands.len() ==> #[trigger] cands[k] < #[trigger] cands[l]
    &&& forall|idx: int| #[trigger] cell_free(n, reg, placed, idx) && in_group(n, reg, idx, by_row, key)
            ==> cands.contains(idx as usize)
}

/// Cell `idx` lies in row `key` (when `by_row`) or in region `key`.
pub open spec fn in_group(n: int, reg: Seq<int>, idx: int, by_row: bool, key: int) -> bool {
    if by_row { row_of(n, idx) == key } else { reg[idx] == key }
}

/// `x` occurs among `list[0 .. i]`.
pub open spec fn listed_before(x: usize, list: Seq<usize>, i: int) -> bool {
    exists|m: int| 0 <= m < i && list[m] == x
}

/// Some solution among `views[lo ..]` has the trees of `q`.
pub open spec fn found_among(q: Seq<(usize, usize)>, views: Seq<Seq<(usize, usize)>>, lo: int) -> bool {
    exists|m: int| lo <= m < views.len() && (#[trigger] views[m]).to_set() == q.to_set()
}

/// Tree `t` stands on one of the cells `best[0 .. i]`.
pub open spec fn picked_from(n: int, t: (usize, usize), best: Seq<usize>, i: int) -> bool {
    exists|j: int| 0 <= j < i && t == tree_at(n, #[trigger] best[j] as int)
}

/// What a search below the placement `p` adds to the solutions `before`,
/// giving `after`: it keeps `before`, adds nothing once `limit` solutions
/// are known and never goes past `limit`; every added solution extends `p`,
/// the added ones have pairwise different sets of trees, and, unless the
/// limit was reached, every solution containing the trees of `p` is among
/// them.
pub open spec fn search_result(
    n: int,
    reg: Seq<int>,
    p: Seq<(usize, usize)>,
    limit: int,
    before: Seq<Seq<(usize, usize)>>,
    after: Seq<Seq<(usize, usize)>>,
) -> bool {
    &&& after.len() >= before.len()
    &&& after.take(before.len() as int) == before
    &&& before.len() >= limit ==> after.len() == before.len()
    &&& before.len() < limit ==> after.len() <= limit
    &&& forall|m: int| before.len() <= m < after.len() ==> is_solution(n, reg, #[trigger] after[m])
    &&& forall|m: int| before.len() <= m < after.len() ==> (#[trigger] after[m]).take(p.len() as int) == p
    &&& forall|a: int, b: int| before.len() <= a < b < after.len() ==> (#[trigger] after[a]).to_set() != (#[trigger] after[b]).to_set()
    &&& after.len() < limit ==> forall|q: Seq<(usize, usize)>| #[trigger] is_solution(n, reg, q) && trees_within(p, q)
            ==> found_among(q, after, before.len() as int)
}

/// Views of the solutions found.
pub open spec fn solution_views(sols: Seq<Vec<(usize, usize)>>) -> Seq<Seq<(usize, usize)>> {
    sols.map_values(|v: Vec<(usize, usize)>| v@)
}

/// The free cells of a group among the cells `0 .. k`, in increasing
/// order: row `key` when `by_row`, region `key` otherwise.
pub open spec fn free_in_group(n: int, reg: Seq<int>, p: Seq<(usize, usize)>, by_row: bool, key: int, k: int) -> Seq<usize>
    decreases k,
{
    if k <= 0 {
        Seq::empty()
    } else if cell_free(n, reg, p, k - 1) && in_group(n, reg, k - 1, by_row, key) {
        free_in_group(n, reg, p, by_row, key, k - 1).push((k - 1) as usize)
    } else {
        free_in_group(n, reg, p, by_row, key, k - 1)
    }
}

/// Some tree of `p` stands in region `g`.
pub open spec fn region_has_tree(n: int, reg: Seq<int>, p: Seq<(usize, usize)>, g: int) -> bool {
    exists|k: int| 0 <= k < p.len() && reg[tree_cell(n, #[trigger] p[k])] == g
}

/// The choice of the group to branch on, over the rows `r ..`: `best` is the
/// least count of free cells met so far with its group (`usize::MAX` before
/// any); a row without a tree with fewer free cells replaces it, and the
/// scan stops at a count of 1 or less.
pub open spec fn pick_rows(n: int, reg: Seq<int>, p: Seq<(usize, usize)>, r: int, best: (int, bool, int)) -> (int, bool, int)
    decreases n - r,
{
    if r >= n || best.0 <= 1 {
        best
    } else {
        let count = free_in_group(n, reg, p, true, r, n * n).len() as int;
        let next = if !row_has_tree(p, r) && count < best.0 { (count, true, r) } else { best };
        pick_rows(n, reg, p, r + 1, next)
    }
}

/// The same scan over the regions `g ..`.
pub open spec fn pick_regions(n: int, reg: Seq<int>, p: Seq<(usize, usize)>, g: int, best: (int, bool, int)) -> (int, bool, int)
    decreases n - g,
{
    if g >= n || best.0 <= 1 {
        best
    } else {
        let count = free_in_group(n, reg, p, false, g, n * n).len() as int;
        let next = if !region_has_tree(n, reg, p, g) && count < best.0 { (count, false, g) } else { best };
        pick_regions(n, reg, p, g + 1, next)
    }
}

/// The group the search branches on below `p`: the row, or failing that
/// the region, with the fewest free cells, the first one on a tie.
pub open spec fn branch_group(n: int, reg: Seq<int>, p: Seq<(usize, usize)>) -> (int, bool, int) {
    pick_regions(n, reg, p, 0, pick_rows(n, reg, p, 0, (usize::MAX as int, true, 0)))
}

/// The solutions the search adds below the placement `p` to the solutions
/// `sols`: none once `limit` are known; `p` itself when every row holds a
/// tree; otherwise those found by placing a tree on each free cell of the
/// branching group in turn.
#[verifier::opaque]
pub open spec fn search_out(n: int, reg: Seq<int>, p: Seq<(usize, usize)>, limit: int, sols: Seq<Seq<(usize, usize)>>)
    -> Seq<Seq<(usize, usize)>>
    decreases n - p.len(), 1int, 0int,
{
    if sols.len() >= limit {
        sols
    } else if forall|r: int| 0 <= r < n ==> #[trigger] row_has_tree(p, r) {
        sols.push(p)
    } else {
        let g = branch_group(n, reg, p);
        let cands = free_in_group(n, reg, p, g.1, g.2, n * n);
        try_cells(n, reg, p, limit, sols, cands, 0)
    }
}

/// The search below `p` with a tree on `cands[i]`, then on the next cells,
/// stopping once `limit` solutions are known.
#[verifier::opaque]
pub open spec fn try_cells(
    n: int,
    reg: Seq<int>,
    p: Seq<(usize, usize)>,
    limit: int,
    sols: Seq<Seq<(usize, usize)>>,
    cands: Seq<usize>,
    i: int,
) -> Seq<Seq<(usize, usize)>>
    decreases n - p.len(), 0int, cands.len() - i,
{
    if i < 0 || i >= cands.len() || p.len() >= n {
        sols
    } else {
        let s2 = search_out(n, reg, p.push(tree_at(n, cands[i] as int)), limit, sols);
        if s2.len() >= limit {
            s2
        } else {
            try_cells(n, reg, p, limit, s2, cands, i + 1)
        }
    }
}

/// The solutions the solver returns for the board `reg` and the limit `limit`.
pub open spec fn solver_output(n: int, reg: Seq<int>, limit: int) -> Seq<Seq<(usize, usize)>> {
    search_out(n, reg, Seq::empty(), limit, Seq::empty())
}

/// `free_in_group` is increasing and holds exactly the free cells of the
/// group below `k`.
proof fn lemma_free_in_group(n: int, reg: Seq<int>, p: Seq<(usize, usize)>, by_row: bool, key: int, k: int)
    requires
        0 <= k <= usize::MAX,
    ensures
        forall|a: int, b: int| 0 <= a < b < free_in_group(n, reg, p, by_row, key, k).len() ==>
            #[trigger] free_in_group(n, reg, p, by_row, key, k)[a] < #[trigger] free_in_group(n, reg, p, by_row, key, k)[b],
        forall|a: int| 0 <= a < free_in_group(n, reg, p, by_row, key, k).len() ==>
            #[trigger] free_in_group(n, reg, p, by_row, key, k)[a] < k,
        forall|x: usize| #[trigger] free_in_group(n, reg, p, by_row, key, k).contains(x) <==>
            (x < k && cell_free(n, reg, p, x as int) && in_group(n, reg, x as int, by_row, key)),
    decreases k,
{
    if k > 0 {
        lemma_free_in_group(n, reg, p, by_row, key, k - 1);
        let prev = free_in_group(n, reg, p, by_row, key, k - 1);
        let cur = free_in_group(n, reg, p, by_row, key, k);
        if cell_free(n, reg, p, k - 1) && in_group(n, reg, k - 1, by_row, key) {
            assert(cur == prev.push((k - 1) as usize));
            assert forall|a: int, b: int| 0 <= a < b < cur.len() implies #[trigger] cur[a] < #[trigger] cur[b] by {
                if b < prev.len() {
                    assert(cur[a] == prev[a] && cur[b] == prev[b]);
                } else {
                    assert(cur[a] == prev[a]);
                }
            }
            assert forall|x: usize| #[trigger] cur.contains(x) <==>
                (x < k && cell_free(n, reg, p, x as int) && in_group(n, reg, x as int, by_row, key)) by {
                if cur.contains(x) && x != k - 1 {
                    let m = choose|m: int| 0 <= m < cur.len() && cur[m] == x;
                    assert(cur[prev.len() as int] == (k - 1) as usize);
                    assert(m < prev.len());
                    assert(prev[m] == x);
                    assert(prev.contains(x));
                }
                if x < k - 1 && cell_free(n, reg, p, x as int) && in_group(n, reg, x as int, by_row, key) {
                    assert(prev.contains(x));
                    let m = choose|m: int| 0 <= m < prev.len() && prev[m] == x;
                    assert(cur[m] == x);
                }
                if x == k - 1 {
                    assert(cur[cur.len() - 1] == x);
                }
            }
        } else {
            assert(cur == prev);
        }
    }
}

/// Two increasing sequences with the same elements are equal.
proof fn lemma_increasing_unique(a: Seq<usize>, b: Seq<usize>)
    requires
        forall|i: int, j: int| 0 <= i < j < a.len() ==> #[trigger] a[i] < #[trigger] a[j],
        forall|i: int, j: int| 0 <= i < j < b.len() ==> #[trigger] b[i] < #[trigger] b[j],
        forall|x: usize| #[trigger] a.contains(x) <==> b.contains(x),
    ensures
        a == b,
    decreases a.len() + b.len(),
{
    if a.len() == 0 {
        if b.len() > 0 {
            assert(b.contains(b[0]));
            assert(a.contains(b[0]));
        }
        assert(a =~= b);
    } else if b.len() == 0 {
        assert(a.contains(a[0]));
        assert(b.contains(a[0]));
    } else {
        let x = a.last();
        let y = b.last();
        assert(a.contains(x));
        assert(b.contains(x));
        assert(b.contains(y));
        assert(a.contains(y));
        let i = choose|i: int| 0 <= i < b.len() && b[i] == x;
        let j = choose|j: int| 0 <= j < a.len() && a[j] == y;
        if i < b.len() - 1 {
            assert(b[i] < b[b.len() - 1]);
        }
        if j < a.len() - 1 {
            assert(a[j] < a[a.len() - 1]);
        }
        assert(x == y);
        let a2 = a.drop_last();
        let b2 = b.drop_last();
        assert forall|z: usize| #[trigger] a2.contains(z) <==> b2.contains(z) by {
            if a2.contains(z) {
                let m = choose|m: int| 0 <= m < a2.len() && a2[m] == z;
                assert(a[m] == z);
                assert(a[m] < a[a.len() - 1]);
                assert(a.contains(z));
                assert(b.contains(z));
                let l = choose|l: int| 0 <= l < b.len() && b[l] == z;
                assert(l != b.len() - 1);
                assert(b2[l] == z);
            }
            if b2.contains(z) {
                let m = choose|m: int| 0 <= m < b2.len() && b2[m] == z;
                assert(b[m] == z);
                assert(b[m] < b[b.len() - 1]);
                assert(b.contains(z));
                assert(a.contains(z));
                let l = choose|l: int| 0 <= l < a.len() && a[l] == z;
                assert(l != a.len() - 1);
                assert(a2[l] == z);
            }
        }
        lemma_increasing_unique(a2, b2);
        assert(a =~= a2.push(x));
        assert(b =~= b2.push(y));
    }
}

/// The candidates of a group are `free_in_group` over the whole board.
proof fn lemma_candidates_exact(n: int, reg: Seq<int>, p: Seq<(usize, usize)>, cands: Seq<usize>, by_row: bool, key: int)
    requires
        0 <= n <= 32,
        group_candidates(n, reg, p, cands, by_row, key),
    ensures
        cands == free_in_group(n, reg, p, by_row, key, n * n),
{
    assert(0 <= n * n <= 1024) by (nonlinear_arith)
        requires 0 <= n <= 32;
    lemma_free_in_group(n, reg, p, by_row, key, n * n);
    let f = free_in_group(n, reg, p, by_row, key, n * n);
    assert forall|x: usize| #[trigger] cands.contains(x) <==> f.contains(x) by {
        if cands.contains(x) {
            let m = choose|m: int| 0 <= m < cands.len() && cands[m] == x;
            assert(cell_free(n, reg, p, cands[m] as int));
            assert(in_group(n, reg, cands[m] as int, by_row, key));
        }
        if f.contains(x) {
            assert(cell_free(n, reg, p, x as int) && in_group(n, reg, x as int, by_row, key));
            assert(cands.contains(x as int as usize));
        }
    }
    lemma_increasing_unique(cands, f);
}

/// A cell is free exactly when the masks allow it.
proof fn lemma_free_iff_masks(
    n: int,
    reg: Seq<int>,
    placed: Seq<(usize, usize)>,
    rows_left: u64,
    cols_used: u64,
    regs_left: u64,
    blocked: Set<int>,
    idx: int,
)
    requires
        0 < n <= 32,
        well_formed_regions(n, reg),
        search_state(n, reg, placed, rows_left, cols_used, regs_left, blocked),
        0 <= idx < n * n,
    ensures
        cell_free(n, reg, placed, idx) <==> (
            bit64(rows_left, row_of(n, idx) as u64) && !bit64(cols_used, col_of(n, idx) as u64)
                && bit64(regs_left, reg[idx] as u64) && !blocked.contains(idx)),
{
    lemma_index_cell(n, idx);
    lemma_cell_tree_at(n, idx);
    let t = tree_at(n, idx);
    let r = row_of(n, idx);
    let c = col_of(n, idx);
    assert(bit64(rows_left, r as u64) == forall|k: int| 0 <= k < placed.len() ==> (#[trigger] placed[k]).0 != r);
    assert(bit64(cols_used, c as u64) == exists|k: int| 0 <= k < placed.len() && (#[trigger] placed[k]).1 == c);
    assert(bit64(regs_left, reg[idx] as u64) == forall|k: int| 0 <= k < placed.len() ==> reg[tree_cell(n, #[trigger] placed[k])] != reg[idx]);
    if cell_free(n, reg, placed, idx) {
        assert forall|k: int| 0 <= k < placed.len() implies (#[trigger] placed[k]).1 != c by {
            assert(trees_compatible(n, reg, placed[k], t));
        }
        assert(!blocked.contains(idx)) by {
            if blocked.contains(idx) {
                let k = choose|k: int| 0 <= k < placed.len() && touching((#[trigger] placed[k]).0 as int, placed[k].1 as int, r, c);
                assert(trees_compatible(n, reg, placed[k], t));
            }
        }
    }
}

/// Placing a tree on a free cell keeps the masks describing the placement.
proof fn lemma_place_tree(
    n: int,
    reg: Seq<int>,
    placed: Seq<(usize, usize)>,
    rows_left: u64,
    cols_used: u64,
    regs_left: u64,
    blocked: Set<int>,
    idx: int,
    nbrs: Set<int>,
)
    requires
        0 < n <= 32,
        well_formed_regions(n, reg),
        search_state(n, reg, placed, rows_left, cols_used, regs_left, blocked),
        cell_free(n, reg, placed, idx),
        nbrs == neighbor_cells(n, idx),
    ensures
        valid_partial(n, reg, placed.push(tree_at(n, idx))),
        search_state(
            n,
            reg,
            placed.push(tree_at(n, idx)),
            rows_left & !(1u64 << (row_of(n, idx) as u64)),
            cols_used | (1u64 << (col_of(n, idx) as u64)),
            regs_left & !(1u64 << (reg[idx] as u64)),
            blocked.union(nbrs),
        ),
{
    lemma_index_cell(n, idx);
    lemma_cell_tree_at(n, idx);
    let t = tree_at(n, idx);
    let p2 = placed.push(t);
    let r = row_of(n, idx);
    let c = col_of(n, idx);
    let g = reg[idx];
    assert forall|k: int, l: int| 0 <= k < p2.len() && 0 <= l < p2.len() && k != l
        implies trees_compatible(n, reg, #[trigger] p2[k], #[trigger] p2[l]) by {
        if k == placed.len() {
            assert(trees_compatible(n, reg, placed[l], t));
            lemma_compatible_symmetric(n, reg, placed[l], t);
        } else if l == placed.len() {
            assert(trees_compatible(n, reg, placed[k], t));
        }
    }
    let rl2 = rows_left & !(1u64 << (r as u64));
    let cu2 = cols_used | (1u64 << (c as u64));
    let rg2 = regs_left & !(1u64 << (g as u64));
    assert forall|x: u64| x < 64 implies (#[trigger] bit64(rl2, x) <==>
        (x < n && forall|k: int| 0 <= k < p2.len() ==> (#[trigger] p2[k]).0 != x)) by {
        lemma_bit_clear_single(rows_left, r as u64, x);
        assert(bit64(rows_left, x) <==> (x < n && forall|k: int| 0 <= k < placed.len() ==> (#[trigger] placed[k]).0 != x));
        if x < n && forall|k: int| 0 <= k < p2.len() ==> (#[trigger] p2[k]).0 != x {
            assert(p2[placed.len() as int].0 != x);
            assert forall|k: int| 0 <= k < placed.len() implies (#[trigger] placed[k]).0 != x by {
                assert(p2[k] == placed[k]);
            }
        }
    }
    assert forall|x: u64| x < 64 implies (#[trigger] bit64(cu2, x) <==>
        exists|k: int| 0 <= k < p2.len() && (#[trigger] p2[k]).1 == x) by {
        lemma_bit_or_single(cols_used, c as u64, x);
        assert(bit64(cols_used, x) <==> exists|k: int| 0 <= k < placed.len() && (#[trigger] placed[k]).1 == x);
        if exists|k: int| 0 <= k < placed.len() && (#[trigger] placed[k]).1 == x {
            let k = choose|k: int| 0 <= k < placed.len() && (#[trigger] placed[k]).1 == x;
            assert(p2[k] == placed[k]);
        }
        if exists|k: int| 0 <= k < p2.len() && (#[trigger] p2[k]).1 == x {
            let k = choose|k: int| 0 <= k < p2.len() && (#[trigger] p2[k]).1 == x;
            if k < placed.len() {
                assert(p2[k] == placed[k]);
            }
        }
        if x == c as u64 {
            assert(p2[placed.len() as int].1 == x);
        }
    }
    assert forall|x: u64| x < 64 implies (#[trigger] bit64(rg2, x) <==>
        (x < n && forall|k: int| 0 <= k < p2.len() ==> reg[tree_cell(n, #[trigger] p2[k])] != x)) by {
        lemma_bit_clear_single(regs_left, g as u64, x);
        assert(bit64(regs_left, x) <==> (x < n && forall|k: int| 0 <= k < placed.len() ==> reg[tree_cell(n, #[trigger] placed[k])] != x));
        if x < n && forall|k: int| 0 <= k < p2.len() ==> reg[tree_cell(n, #[trigger] p2[k])] != x {
            assert(reg[tree_cell(n, p2[placed.len() as int])] != x);
            assert forall|k: int| 0 <= k < placed.len() implies reg[tree_cell(n, #[trigger] placed[k])] != x by {
                assert(p2[k] == placed[k]);
            }
        }
    }
    let b2 = blocked.union(nbrs);
    assert forall|j: int| #[trigger] b2.contains(j) == blocked_cells(n, p2).contains(j) by {
        if blocked_cells(n, p2).contains(j) {
            let k = choose|k: int| 0 <= k < p2.len() && touching((#[trigger] p2[k]).0 as int, p2[k].1 as int, row_of(n, j), col_of(n, j));
            if k < placed.len() {
                assert(p2[k] == placed[k]);
            }
        }
        if blocked.contains(j) {
            let k = choose|k: int| 0 <= k < placed.len() && touching((#[trigger] placed[k]).0 as int, placed[k].1 as int, row_of(n, j), col_of(n, j));
            assert(p2[k] == placed[k]);
        }
        if nbrs.contains(j) {
            assert(p2[placed.len() as int] == t);
        }
    }
    assert(b2 =~= blocked_cells(n, p2));
}

/// The free cells of row `r`, in increasing order.
fn row_candidates(
    n: usize,
    r: usize,
    cols_used: u64,
    regs_left: u64,
    blocked: &BitSet1024,
    flat: &[u16; MAX_CELLS],
    Ghost(reg): Ghost<Seq<int>>,
    Ghost(placed): Ghost<Seq<(usize, usize)>>,
    Ghost(rows_left): Ghost<u64>,
) -> (cands: Vec<usize>)
    requires
        0 < n <= 32,
        reg == flat_region_model(n as int, flat@),
        well_formed_regions(n as int, reg),
        search_state(n as int, reg, placed, rows_left, cols_used, regs_left, blocked@),
        r < n,
        bit64(rows_left, r as u64),
    ensures
        group_candidates(n as int, reg, placed, cands@, true, r as int),
        cands@.len() <= n,
{
    let mut cands: Vec<usize> = Vec::new();
    proof {
        assert(n * n <= 1024) by (nonlinear_arith)
            requires n <= 32;
    }
    for c in 0..n
        invariant
            0 < n <= 32,
            n * n <= 1024,
            r < n,
            reg == flat_region_model(n as int, flat@),
            well_formed_regions(n as int, reg),
            search_state(n as int, reg, placed, rows_left, cols_used, regs_left, blocked@),
            bit64(rows_left, r as u64),
            cands@.len() <= c,
            forall|k: int| 0 <= k < cands@.len() ==> #[trigger] cell_free(n as int, reg, placed, cands@[k] as int),
            forall|k: int| 0 <= k < cands@.len() ==> row_of(n as int, #[trigger] cands@[k] as int) == r,
            forall|k: int| 0 <= k < cands@.len() ==> #[trigger] cands@[k] < r * n + c,
            forall|k: int, l: int| 0 <= k < l < cands@.len() ==> #[trigger] cands@[k] < #[trigger] cands@[l],
            forall|idx: int| #[trigger] cell_free(n as int, reg, placed, idx) && row_of(n as int, idx) == r
                && col_of(n as int, idx) < c ==> cands@.contains(idx as usize),
    {
        proof {
            lemma_cell_index(n as int, r as int, c as int);
            assert(r * n + c < n * n);
        }
        let idx = r * n + c;
        proof {
            lemma_free_iff_masks(n as int, reg, placed, rows_left, cols_used, regs_left, blocked@, idx as int);
            lemma_bit_test_single(cols_used, c as u64);
        }
        let ghost before = cands@;
        let mut take = false;
        if (cols_used & (1u64 << (c as u64))) == 0 {
            let g = flat[idx] as u64;
            proof {
                lemma_bit_test_single(regs_left, g);
            }
            if (regs_left & (1u64 << g)) != 0 && !blocked.test_bit(idx) {
                take = true;
            }
        }
        proof {
            assert(take == cell_free(n as int, reg, placed, idx as int));
        }
        if take {
            cands.push(idx);
        }
        proof {
            assert forall|j: int| #[trigger] cell_free(n as int, reg, placed, j) && row_of(n as int, j) == r
                && col_of(n as int, j) < c + 1 implies cands@.contains(j as usize) by {
                if col_of(n as int, j) == c {
                    crate::grid::lemma_index_unique(n as int, j, idx as int);
                    assert(cands@[cands@.len() - 1] == idx);
                } else {
                    assert(before.contains(j as usize));
                    let m = choose|m: int| 0 <= m < before.len() && before[m] == j as usize;
                    assert(cands@[m] == j as usize);
                }
            }
        }
    }
    cands
}

/// The free cells of region `g`, in increasing order.
fn region_candidates(
    n: usize,
    g: usize,
    list: &Vec<usize>,
    rows_left: u64,
    cols_used: u64,
    blocked: &BitSet1024,
    Ghost(reg): Ghost<Seq<int>>,
    Ghost(placed): Ghost<Seq<(usize, usize)>>,
    Ghost(regs_left): Ghost<u64>,
) -> (cands: Vec<usize>)
    requires
        0 < n <= 32,
        well_formed_regions(n as int, reg),
        search_state(n as int, reg, placed, rows_left, cols_used, regs_left, blocked@),
        g < n,
        bit64(regs_left, g as u64),
        region_list(n as int, reg, g as int, list@),
    ensures
        group_candidates(n as int, reg, placed, cands@, false, g as int),
        cands@.len() <= n * n,
{
    let mut cands: Vec<usize> = Vec::new();
    proof {
        assert(n * n <= 1024) by (nonlinear_arith)
            requires n <= 32;
    }
    for i in 0..list.len()
        invariant
            0 < n <= 32,
            n * n <= 1024,
            g < n,
            well_formed_regions(n as int, reg),
            search_state(n as int, reg, placed, rows_left, cols_used, regs_left, blocked@),
            bit64(regs_left, g as u64),
            region_list(n as int, reg, g as int, list@),
            cands@.len() <= i,
            forall|k: int| 0 <= k < cands@.len() ==> #[trigger] cell_free(n as int, reg, placed, cands@[k] as int),
            forall|k: int| 0 <= k < cands@.len() ==> reg[#[trigger] cands@[k] as int] == g,
            forall|k: int| 0 <= k < cands@.len() ==> listed_before(#[trigger] cands@[k], list@, i as int),
            forall|k: int, l: int| 0 <= k < l < cands@.len() ==> #[trigger] cands@[k] < #[trigger] cands@[l],
            forall|m: int| 0 <= m < i && #[trigger] cell_free(n as int, reg, placed, list@[m] as int)
                ==> cands@.contains(list@[m]),
    {
        let idx = list[i];
        proof {
            assert(idx < n * n && reg[idx as int] == g);
            lemma_index_cell(n as int, idx as int);
            lemma_free_iff_masks(n as int, reg, placed, rows_left, cols_used, regs_left, blocked@, idx as int);
        }
        let r = idx / n;
        let c = idx % n;
        proof {
            lemma_bit_test_single(rows_left, r as u64);
            lemma_bit_test_single(cols_used, c as u64);
        }
        let take = (rows_left & (1u64 << (r as u64))) != 0 && (cols_used & (1u64 << (c as u64))) == 0
            && !blocked.test_bit(idx);
        proof {
            assert(take == cell_free(n as int, reg, placed, idx as int));
            assert forall|k: int| 0 <= k < cands@.len() implies #[trigger] cands@[k] < idx by {
                assert(listed_before(cands@[k], list@, i as int));
                let m = choose|m: int| 0 <= m < i && cands@[k] == list@[m];
                assert(list@[m] < list@[i as int]);
            }
        }
        let ghost before = cands@;
        if take {
            cands.push(idx);
        }
        proof {
            assert forall|k: int| 0 <= k < cands@.len() implies listed_before(#[trigger] cands@[k], list@, i + 1) by {
                if k < before.len() {
                    assert(cands@[k] == before[k]);
                    assert(listed_before(before[k], list@, i as int));
                    let m = choose|m: int| 0 <= m < i && before[k] == list@[m];
                    assert(0 <= m < i + 1 && cands@[k] == list@[m]);
                } else {
                    assert(cands@[k] == list@[i as int]);
                }
            }
            assert forall|m: int| 0 <= m < i + 1 && #[trigger] cell_free(n as int, reg, placed, list@[m] as int)
                implies cands@.contains(list@[m]) by {
                if m == i {
                    assert(cands@[cands@.len() - 1] == idx);
                } else {
                    assert(before.contains(list@[m]));
                    let k = choose|k: int| 0 <= k < before.len() && before[k] == list@[m];
                    assert(cands@[k] == list@[m]);
                }
            }
        }
    }
    proof {
        assert forall|idx: int| #[trigger] cell_free(n as int, reg, placed, idx) && in_group(n as int, reg, idx, false, g as int)
            implies cands@.contains(idx as usize) by {
            assert(0 <= idx < n * n);
            let u = idx as usize;
            assert(u as int == idx);
            assert(list@.contains(u));
            let m = choose|m: int| 0 <= m < list@.len() && list@[m] == u;
            assert(list@[m] as int == idx);
            assert(cell_free(n as int, reg, placed, list@[m] as int));
            assert(cands@.contains(list@[m]));
        }
        assert forall|k: int| 0 <= k < placed.len() implies reg[tree_cell(n as int, #[trigger] placed[k])] != g by {
            assert(bit64(regs_left, g as u64));
        }
    }
    cands
}

/// Every solution containing the trees `placed` has a tree on one of the
/// candidate cells of a group.
proof fn lemma_group_covers(
    n: int,
    reg: Seq<int>,
    placed: Seq<(usize, usize)>,
    best: Seq<usize>,
    by_row: bool,
    key: int,
    q: Seq<(usize, usize)>,
)
    requires
        0 < n <= 32,
        well_formed_regions(n, reg),
        valid_partial(n, reg, placed),
        group_candidates(n, reg, placed, best, by_row, key),
        is_solution(n, reg, q),
        trees_within(placed, q),
    ensures
        exists|j: int| 0 <= j < best.len() && q.contains(tree_at(n, #[trigger] best[j] as int)),
{
    let k: int;
    if by_row {
        lemma_partial_counts(n, reg, q);
        assert(row_has_tree(q, key));
        k = choose|k: int| 0 <= k < q.len() && (#[trigger] q[k]).0 == key;
    } else {
        lemma_solution_regions(n, reg, q, key);
        k = choose|k: int| 0 <= k < q.len() && reg[tree_cell(n, #[trigger] q[k])] == key;
        assert forall|i: int| 0 <= i < placed.len() implies (#[trigger] placed[i]).0 != q[k].0 by {
            assert(q.contains(placed[i]));
            let l = choose|l: int| 0 <= l < q.len() && q[l] == placed[i];
            if l != k {
                assert(trees_compatible(n, reg, q[l], q[k]));
            }
            assert(reg[tree_cell(n, placed[i])] != key);
        }
    }
    lemma_solution_tree_free(n, reg, placed, q, k);
    let idx = tree_cell(n, q[k]);
    lemma_tree_at_cell(n, q[k]);
    assert(0 <= idx < n * n);
    assert(n * n <= 1024) by (nonlinear_arith)
        requires 0 < n <= 32;
    let u = idx as usize;
    assert(u as int == idx);
    assert(in_group(n, reg, idx, by_row, key));
    assert(best.contains(u));
    let j = choose|j: int| 0 <= j < best.len() && best[j] == u;
    assert(best[j] as int == idx);
    assert(tree_at(n, best[j] as int) == q[k]);
    assert(q.contains(tree_at(n, best[j] as int)));
}

/// Depth-first search below the trees `placed`, appending every solution
/// found to `solutions` until `limit` are known.
#[verifier::rlimit(60)]
#[verifier::spinoff_prover]
fn search(
    n: usize,
    num_words: usize,
    limit: usize,
    rows_left: u64,
    cols_used: u64,
    regs_left: u64,
    blocked: BitSet1024,
    placed: &mut Vec<(usize, usize)>,
    flat: &[u16; MAX_CELLS],
    reg_lists: &Vec<Vec<usize>>,
    nbr_masks: &[BitSet1024],
    solutions: &mut Vec<Vec<(usize, usize)>>,
    Ghost(reg): Ghost<Seq<int>>,
)
    requires
        0 < n <= 32,
        num_words == (n * n + 63) / 64,
        reg == flat_region_model(n as int, flat@),
        well_formed_regions(n as int, reg),
        reg_lists@.len() == n,
        forall|g: int| 0 <= g < n ==> region_list(n as int, reg, g, #[trigger] reg_lists@[g]@),
        are_neighbor_masks(n as int, nbr_masks@),
        search_state(n as int, reg, old(placed)@, rows_left, cols_used, regs_left, blocked@),
    ensures
        final(placed)@ == old(placed)@,
        search_result(n as int, reg, old(placed)@, limit as int, solution_views(old(solutions)@), solution_views(final(solutions)@)),
        solution_views(final(solutions)@) == search_out(n as int, reg, old(placed)@, limit as int, solution_views(old(solutions)@)),
    decreases n - old(placed)@.len(),
{
    let ghost p = placed@;
    let ghost before = solution_views(solutions@);
    proof {
        lemma_partial_counts(n as int, reg, p);
        assert(n * n <= 1024) by (nonlinear_arith)
            requires n <= 32;
    }
    if solutions.len() >= limit {
        proof {
            assert(solution_views(solutions@).take(before.len() as int) =~= before);
            reveal_with_fuel(search_out, 1);
        }
        return;
    }
    if rows_left == 0 {
        proof {
            assert forall|r: int| 0 <= r < n implies #[trigger] row_has_tree(p, r) by {
                lemma_bit_zero(r as u64);
                assert(!bit64(rows_left, r as u64));
                let k = choose|k: int| 0 <= k < p.len() && (#[trigger] p[k]).0 == r as u64;
                assert(p[k].0 == r);
            }
        }
        let mut sol: Vec<(usize, usize)> = Vec::new();
        for i in 0..placed.len()
            invariant
                placed@ == p,
                sol@ == p.take(i as int),
        {
            sol.push(placed[i]);
            proof {
                assert(sol@ =~= p.take(i as int + 1));
            }
        }
        proof {
            assert(sol@ =~= p);
        }
        solutions.push(sol);
        proof {
            let after = solution_views(solutions@);
            assert(after =~= before.push(p));
            assert(search_out(n as int, reg, p, limit as int, before) == before.push(p)) by {
                reveal_with_fuel(search_out, 1);
            }
            assert(after.take(before.len() as int) =~= before);
            assert(p.take(p.len() as int) =~= p);
            assert forall|q: Seq<(usize, usize)>| #[trigger] is_solution(n as int, reg, q) && trees_within(p, q)
                implies found_among(q, after, before.len() as int) by {
                lemma_partial_counts(n as int, reg, q);
                lemma_same_elements(p, q);
                assert(after[before.len() as int] == p);
            }
        }
        return;
    }
    proof {
        lemma_nonzero_has_bit(rows_left);
        let x = choose|x: u64| x < 64 && #[trigger] bit64(rows_left, x);
        assert(x < n);
        assert(!row_has_tree(p, x as int));
        assert(!(forall|r: int| 0 <= r < n ==> #[trigger] row_has_tree(p, r)));
    }
    let ghost want_rows = pick_rows(n as int, reg, p, 0, (usize::MAX as int, true, 0));
    // Pick the row, or failing that the region, with the fewest free cells.
    let mut best: Vec<usize> = Vec::new();
    let mut min_cands: usize = usize::MAX;
    let ghost mut by_row: bool = true;
    let ghost mut key: int = 0;
    let mut r: usize = 0;
    while r < n && min_cands > 1
        invariant
            0 < n <= 32,
            r <= n,
            reg == flat_region_model(n as int, flat@),
            well_formed_regions(n as int, reg),
            search_state(n as int, reg, p, rows_left, cols_used, regs_left, blocked@),
            min_cands == usize::MAX || (min_cands == best@.len() && group_candidates(n as int, reg, p, best@, by_row, key)),
            min_cands == usize::MAX ==> forall|x: u64| x < r ==> !#[trigger] bit64(rows_left, x),
            min_cands == usize::MAX ==> by_row && key == 0,
            pick_rows(n as int, reg, p, r as int, (min_cands as int, by_row, key)) == want_rows,
        decreases n - r,
    {
        let ghost cur = (min_cands as int, by_row, key);
        proof {
            lemma_bit_test_single(rows_left, r as u64);
        }
        if (rows_left & (1u64 << (r as u64))) != 0 {
            let cands = row_candidates(n, r, cols_used, regs_left, &blocked, flat, Ghost(reg), Ghost(p), Ghost(rows_left));
            proof {
                lemma_candidates_exact(n as int, reg, p, cands@, true, r as int);
                assert(!row_has_tree(p, r as int));
            }
            if cands.len() < min_cands {
                min_cands = cands.len();
                best = cands;
                proof {
                    by_row = true;
                    key = r as int;
                }
            }
        }
        proof {
            if !bit64(rows_left, r as u64) {
                assert(row_has_tree(p, r as int)) by {
                    assert(!(r < n && forall|k: int| 0 <= k < p.len() ==> (#[trigger] p[k]).0 != r as u64));
                    let k = choose|k: int| 0 <= k < p.len() && (#[trigger] p[k]).0 == r as u64;
                }
            }
            assert(pick_rows(n as int, reg, p, r as int, cur) == pick_rows(n as int, reg, p, r + 1, (min_cands as int, by_row, key)));
        }
        r = r + 1;
    }
    proof {
        assert(pick_rows(n as int, reg, p, r as int, (min_cands as int, by_row, key)) == (min_cands as int, by_row, key));
    }
    proof {
        if min_cands == usize::MAX {
            lemma_nonzero_has_bit(rows_left);
            let x = choose|x: u64| x < 64 && #[trigger] bit64(rows_left, x);
            assert(x < n);
        }
    }
    if min_cands > 1 {
        let mut g: usize = 0;
        while g < n && min_cands > 1
            invariant
                0 < n <= 32,
                g <= n,
                reg_lists@.len() == n,
                forall|h: int| 0 <= h < n ==> region_list(n as int, reg, h, #[trigger] reg_lists@[h]@),
                well_formed_regions(n as int, reg),
                search_state(n as int, reg, p, rows_left, cols_used, regs_left, blocked@),
                min_cands == best@.len(),
                group_candidates(n as int, reg, p, best@, by_row, key),
                pick_regions(n as int, reg, p, g as int, (min_cands as int, by_row, key)) == branch_group(n as int, reg, p),
            decreases n - g,
        {
            let ghost cur = (min_cands as int, by_row, key);
            proof {
                lemma_bit_test_single(regs_left, g as u64);
            }
            if (regs_left & (1u64 << (g as u64))) != 0 {
                let cands = region_candidates(n, g, &reg_lists[g], rows_left, cols_used, &blocked, Ghost(reg), Ghost(p), Ghost(regs_left));
                proof {
                    lemma_candidates_exact(n as int, reg, p, cands@, false, g as int);
                    assert(!region_has_tree(n as int, reg, p, g as int));
                }
                if cands.len() < min_cands {
                    min_cands = cands.len();
                    best = cands;
                    proof {
                        by_row = false;
                        key = g as int;
                    }
                }
            }
            proof {
                if !bit64(regs_left, g as u64) {
                    assert(region_has_tree(n as int, reg, p, g as int)) by {
                        let k = choose|k: int| 0 <= k < p.len() && reg[tree_cell(n as int, #[trigger] p[k])] == g as u64;
                    }
                }
                assert(pick_regions(n as int, reg, p, g as int, cur)
                    == pick_regions(n as int, reg, p, g + 1, (min_cands as int, by_row, key)));
            }
            g = g + 1;
        }
        proof {
            assert(pick_regions(n as int, reg, p, g as int, (min_cands as int, by_row, key)) == (min_cands as int, by_row, key));
        }
    } else {
        proof {
            assert(pick_regions(n as int, reg, p, 0, want_rows) == want_rows);
        }
    }
    proof {
        assert(branch_group(n as int, reg, p) == (min_cands as int, by_row, key));
        assert(before.len() == solutions@.len());
        lemma_candidates_exact(n as int, reg, p, best@, by_row, key);
        assert(search_out(n as int, reg, p, limit as int, before) == try_cells(n as int, reg, p, limit as int, before, best@, 0)) by {
            reveal_with_fuel(search_out, 1);
            reveal_with_fuel(try_cells, 1);
        }
    }
    if min_cands == 0 {
        proof {
            reveal_with_fuel(try_cells, 1);
            assert(solution_views(solutions@).take(before.len() as int) =~= before);
            assert forall|q: Seq<(usize, usize)>| #[trigger] is_solution(n as int, reg, q) && trees_within(p, q)
                implies found_among(q, solution_views(solutions@), before.len() as int) by {
                lemma_group_covers(n as int, reg, p, best@, by_row, key, q);
            }
        }
        return;
    }
    let mut i: usize = 0;
    while i < best.len()
        invariant
            0 < n <= 32,
            n * n <= 1024,
            num_words == (n * n + 63) / 64,
            reg == flat_region_model(n as int, flat@),
            well_formed_regions(n as int, reg),
            reg_lists@.len() == n,
            forall|g: int| 0 <= g < n ==> region_list(n as int, reg, g, #[trigger] reg_lists@[g]@),
            are_neighbor_masks(n as int, nbr_masks@),
            search_state(n as int, reg, p, rows_left, cols_used, regs_left, blocked@),
            group_candidates(n as int, reg, p, best@, by_row, key),
            placed@ == p,
            p == old(placed)@,
            before == solution_views(old(solutions)@),
            i <= best@.len(),
            before.len() < limit,
            ({
                let views = solution_views(solutions@);
                &&& views.len() >= before.len()
                &&& views.take(before.len() as int) == before
                &&& views.len() <= limit
                &&& forall|m: int| before.len() <= m < views.len() ==> is_solution(n as int, reg, #[trigger] views[m])
                &&& forall|m: int| before.len() <= m < views.len() ==> (#[trigger] views[m]).take(p.len() as int) == p
                &&& forall|m: int| before.len() <= m < views.len() ==> picked_from(n as int, (#[trigger] views[m])[p.len() as int], best@, i as int)
                &&& forall|a: int, b: int| before.len() <= a < b < views.len() ==> (#[trigger] views[a]).to_set() != (#[trigger] views[b]).to_set()
                &&& try_cells(n as int, reg, p, limit as int, views, best@, i as int) == search_out(n as int, reg, p, limit as int, before)
                &&& views.len() < limit ==> forall|q: Seq<(usize, usize)>, j: int|
                    0 <= j < i && #[trigger] is_solution(n as int, reg, q) && trees_within(p, q) && q.contains(tree_at(n as int, #[trigger] best@[j] as int))
                        ==> found_among(q, views, before.len() as int)
            }),
        decreases best@.len() - i,
    {
        let idx = best[i];
        proof {
            assert(cell_free(n as int, reg, p, idx as int));
            lemma_index_cell(n as int, idx as int);
            lemma_cell_tree_at(n as int, idx as int);
            lemma_place_tree(n as int, reg, p, rows_left, cols_used, regs_left, blocked@, idx as int, neighbor_cells(n as int, idx as int));
            assert(64 * num_words >= n * n) by (nonlinear_arith)
                requires num_words == (n * n + 63) / 64;
        }
        let r = idx / n;
        let c = idx % n;
        let g = flat[idx] as usize;
        let child_blocked = blocked.union_words(&nbr_masks[idx], num_words);
        proof {
            assert(child_blocked@ =~= blocked@.union(neighbor_cells(n as int, idx as int)));
            let t = tree_at(n as int, idx as int);
            assert(t == (r, c));
            // the row of `idx` is still empty, so fewer than `n` trees are placed
            assert(!row_has_tree(p, r as int)) by {
                if row_has_tree(p, r as int) {
                    let k = choose|k: int| 0 <= k < p.len() && (#[trigger] p[k]).0 == r as int;
                    assert(trees_compatible(n as int, reg, p[k], t));
                }
            }
            assert(r < n);
            lemma_partial_counts(n as int, reg, p);
            assert(p.len() < n);
        }
        placed.push((r, c));
        proof {
            assert(placed@.len() == p.len() + 1);
            assert(n - placed@.len() < n - p.len());
        }
        let ghost views_mid = solution_views(solutions@);
        search(
            n,
            num_words,
            limit,
            rows_left & !(1u64 << (r as u64)),
            cols_used | (1u64 << (c as u64)),
            regs_left & !(1u64 << (g as u64)),
            child_blocked,
            placed,
            flat,
            reg_lists,
            nbr_masks,
            solutions,
            Ghost(reg),
        );
        placed.pop();
        proof {
            assert(placed@ =~= p);
            let t = tree_at(n as int, idx as int);
            let p2 = p.push(t);
            let views = solution_views(solutions@);
            assert(views.take(views_mid.len() as int) == views_mid);
            assert(views.take(before.len() as int) =~= before) by {
                assert(views_mid.take(before.len() as int) == before);
                assert forall|m: int| 0 <= m < before.len() implies views[m] == before[m] by {
                    assert(views[m] == views.take(views_mid.len() as int)[m]);
                    assert(views_mid[m] == views_mid.take(before.len() as int)[m]);
                }
            }
            assert forall|m: int| before.len() <= m < views.len() implies
                is_solution(n as int, reg, #[trigger] views[m]) && views[m].take(p.len() as int) == p
                && picked_from(n as int, views[m][p.len() as int], best@, i + 1) by {
                if m < views_mid.len() {
                    assert(views[m] == views.take(views_mid.len() as int)[m]);
                    assert(picked_from(n as int, views_mid[m][p.len() as int], best@, i as int));
                    let j = choose|j: int| 0 <= j < i && views_mid[m][p.len() as int] == tree_at(n as int, #[trigger] best@[j] as int);
                    assert(0 <= j < i + 1 && views[m][p.len() as int] == tree_at(n as int, best@[j] as int));
                } else {
                    assert(views[m].take(p2.len() as int) == p2);
                    assert(views[m].take(p.len() as int) =~= p2.take(p.len() as int));
                    assert(p2.take(p.len() as int) =~= p);
                    assert(views[m][p.len() as int] == views[m].take(p2.len() as int)[p.len() as int]);
                    assert(views[m][p.len() as int] == t);
                    assert(0 <= i < i + 1 && views[m][p.len() as int] == tree_at(n as int, best@[i as int] as int));
                }
            }
            assert forall|a: int, b: int| before.len() <= a < b < views.len() implies
                (#[trigger] views[a]).to_set() != (#[trigger] views[b]).to_set() by {
                if b < views_mid.len() {
                    assert(views[a] == views.take(views_mid.len() as int)[a]);
                    assert(views[b] == views.take(views_mid.len() as int)[b]);
                } else if a >= views_mid.len() {
                } else {
                    assert(views[a] == views.take(views_mid.len() as int)[a]);
                    let j = choose|j: int| 0 <= j < i && views_mid[a][p.len() as int] == tree_at(n as int, #[trigger] best@[j] as int);
                    let x = views[a][p.len() as int];
                    let y = views[b][p.len() as int];
                    assert(y == t);
                    assert(best@[j] < best@[i as int]);
                    lemma_cell_tree_at(n as int, best@[j] as int);
                    assert(x != y);
                    assert(views[a].contains(x));
                    assert(views[b].contains(y));
                    assert(x.0 == y.0 || reg[tree_cell(n as int, x)] == reg[tree_cell(n as int, y)]);
                    lemma_solutions_differ(n as int, reg, views[a], views[b], x, y);
                }
            }
            assert(p.len() < n);
            assert(views == search_out(n as int, reg, p2, limit as int, views_mid));
            assert(try_cells(n as int, reg, p, limit as int, views_mid, best@, i as int)
                == if views.len() >= limit { views } else { try_cells(n as int, reg, p, limit as int, views, best@, i + 1) }) by {
                reveal_with_fuel(try_cells, 1);
                reveal_with_fuel(search_out, 1);
                assert(tree_at(n as int, best@[i as int] as int) == t);
            }
            if views.len() < limit {
                assert forall|q: Seq<(usize, usize)>, j: int|
                    0 <= j < i + 1 && #[trigger] is_solution(n as int, reg, q) && trees_within(p, q) && q.contains(tree_at(n as int, #[trigger] best@[j] as int))
                    implies found_among(q, views, before.len() as int) by {
                    if j < i {
                        assert(found_among(q, views_mid, before.len() as int));
                        let m = choose|m: int| before.len() <= m < views_mid.len() && (#[trigger] views_mid[m]).to_set() == q.to_set();
                        assert(views[m] == views.take(views_mid.len() as int)[m]);
                    } else {
                        assert(trees_within(p2, q));
                        assert(found_among(q, views, views_mid.len() as int));
                        let m = choose|m: int| views_mid.len() <= m < views.len() && (#[trigger] views[m]).to_set() == q.to_set();
                    }
                }
            }
        }
        if solutions.len() >= limit {
            return;
        }
        i = i + 1;
    }
    proof {
        reveal_with_fuel(try_cells, 1);
    }
    proof {
        let views = solution_views(solutions@);
        if views.len() < limit {
            assert forall|q: Seq<(usize, usize)>| #[trigger] is_solution(n as int, reg, q) && trees_within(p, q)
                implies found_among(q, views, before.len() as int) by {
                lemma_group_covers(n as int, reg, p, best@, by_row, key, q);
                let j = choose|j: int| 0 <= j < best@.len() && q.contains(tree_at(n as int, #[trigger] best@[j] as int));
            }
        }
    }
}

/// For each region `g < n`, the cells of region `g` in increasing order.
fn build_region_lists(n: usize, flat: &[u16; MAX_CELLS], Ghost(reg): Ghost<Seq<int>>) -> (lists: Vec<Vec<usize>>)
    requires
        0 < n <= 32,
        reg == flat_region_model(n as int, flat@),
        well_formed_regions(n as int, reg),
    ensures
        lists@.len() == n,
        forall|g: int| 0 <= g < n ==> region_list(n as int, reg, g, #[trigger] lists@[g]@),
{
    proof {
        assert(n * n <= 1024) by (nonlinear_arith)
            requires n <= 32;
    }
    let total = n * n;
    let mut lists: Vec<Vec<usize>> = Vec::new();
    for g in 0..n
        invariant
            0 < n <= 32,
            total == n * n,
            total <= 1024,
            reg == flat_region_model(n as int, flat@),
            well_formed_regions(n as int, reg),
            lists@.len() == g,
            forall|h: int| 0 <= h < g ==> region_list(n as int, reg, h, #[trigger] lists@[h]@),
    {
        let mut cells: Vec<usize> = Vec::new();
        for idx in 0..total
            invariant
                0 < n <= 32,
                total == n * n,
                total <= 1024,
                g < n,
                reg == flat_region_model(n as int, flat@),
                cells@.len() <= idx,
                forall|k: int| 0 <= k < cells@.len() ==> #[trigger] cells@[k] < idx && reg[cells@[k] as int] == g,
                forall|k: int, l: int| 0 <= k < l < cells@.len() ==> #[trigger] cells@[k] < #[trigger] cells@[l],
                forall|j: int| 0 <= j < idx && #[trigger] reg[j] == g ==> cells@.contains(j as usize),
        {
            let ghost before = cells@;
            if flat[idx] as usize == g {
                cells.push(idx);
            }
            proof {
                assert forall|j: int| 0 <= j < idx + 1 && #[trigger] reg[j] == g implies cells@.contains(j as usize) by {
                    if j == idx {
                        assert(cells@[cells@.len() - 1] == idx);
                    } else {
                        assert(before.contains(j as usize));
                        let k = choose|k: int| 0 <= k < before.len() && before[k] == j as usize;
                        assert(cells@[k] == j as usize);
                    }
                }
            }
        }
        lists.push(cells);
    }
    lists
}

/// The region map of a board given as rows: `regions[r][c]` for the cells `(r, c)`.
pub open spec fn grid_region_model(n: int, regions: Seq<Vec<usize>>) -> Seq<int> {
    Seq::new((n * n) as nat, |j: int| regions[row_of(n, j)]@[col_of(n, j)] as int)
}

/// The board given as rows is an `n x n` board.
pub open spec fn grid_shape(n: int, regions: Seq<Vec<usize>>) -> bool {
    &&& regions.len() >= n
    &&& forall|r: int| 0 <= r < n ==> (#[trigger] regions[r])@.len() >= n
}

/// The solutions of the puzzle with flat region map `flat_regions`: at most
/// `limit` of them, pairwise different, and all of them when fewer than
/// `limit` are returned.
pub fn solve_fast_internal(
    n: usize,
    flat_regions: &[u16; MAX_CELLS],
    nbr_masks: &[BitSet1024],
    limit: usize,
) -> (sols: Vec<Vec<(usize, usize)>>)
    requires
        n <= 32,
        well_formed_regions(n as int, flat_region_model(n as int, flat_regions@)),
        are_neighbor_masks(n as int, nbr_masks@),
    ensures
        solution_views(sols@).len() <= limit,
        distinct_solutions(n as int, flat_region_model(n as int, flat_regions@), solution_views(sols@)),
        solution_views(sols@).len() < limit ==> all_solutions_among(n as int, flat_region_model(n as int, flat_regions@), solution_views(sols@)),
        solution_views(sols@) == solver_output(n as int, flat_region_model(n as int, flat_regions@), limit as int),
{
    let ghost reg = flat_region_model(n as int, flat_regions@);
    let mut solutions: Vec<Vec<(usize, usize)>> = Vec::new();
    if n == 0 {
        // The empty board has one solution: no trees at all.
        if limit > 0 {
            solutions.push(Vec::new());
            proof {
                let views = solution_views(solutions@);
                assert(views =~= seq![Seq::<(usize, usize)>::empty()]);
                assert forall|q: Seq<(usize, usize)>| #[trigger] is_solution(n as int, reg, q)
                    implies exists|i: int| 0 <= i < views.len() && (#[trigger] views[i]).to_set() == q.to_set() by {
                    assert(q =~= views[0]);
                }
            }
        }
        proof {
            reveal_with_fuel(search_out, 1);
            let views = solution_views(solutions@);
            if limit > 0 {
                assert(views =~= Seq::<Seq<(usize, usize)>>::empty().push(Seq::<(usize, usize)>::empty()));
            } else {
                assert(views =~= Seq::<Seq<(usize, usize)>>::empty());
            }
        }
        return solutions;
    }
    proof {
        assert(n * n <= 1024) by (nonlinear_arith)
            requires n <= 32;
    }
    let num_words = (n * n + 63) / 64;
    let reg_lists = build_region_lists(n, flat_regions, Ghost(reg));
    proof {
        lemma_low_mask(n as u64, 0);
    }
    let all_bits: u64 = (1u64 << (n as u64)) - 1;
    let mut placed: Vec<(usize, usize)> = Vec::new();
    let blocked = BitSet1024::default();
    proof {
        let p = placed@;
        assert forall|x: u64| x < 64 implies (#[trigger] bit64(all_bits, x) <==>
            (x < n && forall|k: int| 0 <= k < p.len() ==> (#[trigger] p[k]).0 != x)) by {
            lemma_low_mask(n as u64, x);
        }
        assert forall|x: u64| x < 64 implies (#[trigger] bit64(0u64, x) <==>
            exists|k: int| 0 <= k < p.len() && (#[trigger] p[k]).1 == x) by {
            lemma_bit_zero(x);
        }
        assert forall|x: u64| x < 64 implies (#[trigger] bit64(all_bits, x) <==>
            (x < n && forall|k: int| 0 <= k < p.len() ==> reg[tree_cell(n as int, #[trigger] p[k])] != x)) by {
            lemma_low_mask(n as u64, x);
        }
        assert(blocked@ =~= blocked_cells(n as int, p));
    }
    search(
        n,
        num_words,
        limit,
        all_bits,
        0,
        all_bits,
        blocked,
        &mut placed,
        flat_regions,
        &reg_lists,
        nbr_masks,
        &mut solutions,
        Ghost(reg),
    );
    proof {
        let views = solution_views(solutions@);
        assert(solution_views(Seq::<Vec<(usize, usize)>>::empty()) =~= Seq::<Seq<(usize, usize)>>::empty());
        assert(Seq::<(usize, usize)>::empty() =~= placed@);
        if views.len() < limit {
            assert forall|q: Seq<(usize, usize)>| #[trigger] is_solution(n as int, reg, q)
                implies exists|i: int| 0 <= i < views.len() && (#[trigger] views[i]).to_set() == q.to_set() by {
                assert(trees_within(Seq::<(usize, usize)>::empty(), q));
                assert(found_among(q, views, 0));
            }
        }
    }
    solutions
}

/// How many solutions the puzzle has, counting no further than `limit`.
pub fn count_solutions_fast(
    n: usize,
    flat_regions: &[u16; MAX_CELLS],
    nbr_masks: &[BitSet1024],
    limit: usize,
) -> (count: usize)
    requires
        n <= 32,
        well_formed_regions(n as int, flat_region_model(n as int, flat_regions@)),
        are_neighbor_masks(n as int, nbr_masks@),
    ensures
        count <= limit,
        exists|sols: Seq<Seq<(usize, usize)>>| #![trigger sols.len()]
            sols.len() == count
            && distinct_solutions(n as int, flat_region_model(n as int, flat_regions@), sols)
            && (count < limit ==> all_solutions_among(n as int, flat_region_model(n as int, flat_regions@), sols)),
        count == solver_output(n as int, flat_region_model(n as int, flat_regions@), limit as int).len(),
{
    let sols = solve_fast_internal(n, flat_regions, nbr_masks, limit);
    proof {
        let views = solution_views(sols@);
        assert(views.len() == sols@.len());
    }
    sols.len()
}

/// The solutions of the puzzle whose regions are `regions[r][c]`: at most
/// `limit` of them, pairwise different, and all of them when fewer than
/// `limit` are returned.
pub fn solve_fast(
    n: usize,
    regions: &[Vec<usize>],
    nbr_masks: &[BitSet1024],
    limit: usize,
) -> (sols: Vec<Vec<(usize, usize)>>)
    requires
        n <= 32,
        grid_shape(n as int, regions@),
        well_formed_regions(n as int, grid_region_model(n as int, regions@)),
        are_neighbor_masks(n as int, nbr_masks@),
    ensures
        solution_views(sols@).len() <= limit,
        distinct_solutions(n as int, grid_region_model(n as int, regions@), solution_views(sols@)),
        solution_views(sols@).len() < limit ==> all_solutions_among(n as int, grid_region_model(n as int, regions@), solution_views(sols@)),
        solution_views(sols@) == solver_output(n as int, grid_region_model(n as int, regions@), limit as int),
{
    let ghost model = grid_region_model(n as int, regions@);
    let mut flat_regions = [0u16; MAX_CELLS];
    proof {
        assert(n * n <= 1024) by (nonlinear_arith)
            requires n <= 32;
        assert(0 * n == 0);
    }
    for r in 0..n
        invariant
            n <= 32,
            n * n <= 1024,
            grid_shape(n as int, regions@),
            model == grid_region_model(n as int, regions@),
            well_formed_regions(n as int, model),
            forall|j: int| 0 <= j < r * n ==> flat_regions@[j] as int == #[trigger] model[j],
    {
        for c in 0..n
            invariant
                n <= 32,
                n * n <= 1024,
                r < n,
                grid_shape(n as int, regions@),
                model == grid_region_model(n as int, regions@),
                well_formed_regions(n as int, model),
                forall|j: int| 0 <= j < r * n + c ==> flat_regions@[j] as int == #[trigger] model[j],
        {
            proof {
                lemma_cell_index(n as int, r as int, c as int);
                assert(regions@[r as int]@.len() >= n);
                assert(model[r * n + c] == regions@[r as int]@[c as int] as int);
            }
            let v = regions[r][c];
            flat_regions[r * n + c] = v as u16;
        }
        proof {
            assert((r + 1) * n == r * n + n) by (nonlinear_arith);
        }
    }
    proof {
        assert(flat_region_model(n as int, flat_regions@) =~= model);
    }
    solve_fast_internal(n, &flat_regions, nbr_masks, limit)
}

/// The board given by rows and the same board held flat, with
/// `flat[r * n + c] == regions[r][c]`, get the same solutions from the
/// solver, in the same order.
pub proof fn lemma_solvers_agree(n: int, regions: Seq<Vec<usize>>, flat: Seq<u16>, limit: int)
    requires
        0 < n,
        grid_shape(n, regions),
        forall|r: int, c: int| 0 <= r < n && 0 <= c < n ==> (#[trigger] regions[r]@[c]) < n,
        forall|r: int, c: int| 0 <= r < n && 0 <= c < n ==> #[trigger] flat[r * n + c] as int == regions[r]@[c] as int,
    ensures
        grid_region_model(n, regions) == flat_region_model(n, flat),
        solver_output(n, grid_region_model(n, regions), limit) == solver_output(n, flat_region_model(n, flat), limit),
{
    let g = grid_region_model(n, regions);
    let f = flat_region_model(n, flat);
    assert forall|j: int| 0 <= j < n * n implies #[trigger] g[j] == f[j] by {
        lemma_index_cell(n, j);
        let r = row_of(n, j);
        let c = col_of(n, j);
        assert(flat[r * n + c] as int == regions[r]@[c] as int);
    }
    assert(g =~= f);
}

/// The board held in `flat[0 .. n * n]`, by rows.
pub fn rows_from_flat(n: usize, flat: &[u16; MAX_CELLS]) -> (rows: Vec<Vec<usize>>)
    requires
        n <= 32,
    ensures
        rows@.len() == n,
        forall|r: int| 0 <= r < n ==> (#[trigger] rows@[r])@.len() == n,
        grid_shape(n as int, rows@),
        grid_region_model(n as int, rows@) == flat_region_model(n as int, flat@),
{
    proof {
        assert(n * n <= 1024) by (nonlinear_arith)
            requires n <= 32;
    }
    let mut rows: Vec<Vec<usize>> = Vec::new();
    for r in 0..n
        invariant
            n <= 32,
            n * n <= 1024,
            rows@.len() == r,
            forall|x: int| 0 <= x < r ==> (#[trigger] rows@[x])@.len() == n,
            forall|x: int, c: int| 0 <= x < r && 0 <= c < n ==>
                (#[trigger] rows@[x]@[c]) as int == flat@[x * n + c] as int,
    {
        let mut row: Vec<usize> = Vec::new();
        for c in 0..n
            invariant
                n <= 32,
                n * n <= 1024,
                r < n,
                row@.len() == c,
                forall|y: int| 0 <= y < c ==> (#[trigger] row@[y]) as int == flat@[r * n + y] as int,
        {
            proof {
                lemma_cell_index(n as int, r as int, c as int);
            }
            row.push(flat[r * n + c] as usize);
        }
        rows.push(row);
    }
    proof {
        let grid = grid_region_model(n as int, rows@);
        let fm = flat_region_model(n as int, flat@);
        assert forall|j: int| 0 <= j < n * n implies #[trigger] grid[j] == fm[j] by {
            lemma_index_cell(n as int, j);
        }
        assert(grid =~= fm);
    }
    rows
}

/// A count of exactly one, with a limit above one, means the puzzle has a
/// unique solution.
pub proof fn lemma_count_one_unique(n: int, reg: Seq<int>, sols: Seq<Seq<(usize, usize)>>)
    requires
        sols.len() == 1,
        distinct_solutions(n, reg, sols),
        all_solutions_among(n, reg, sols),
    ensures
        crate::puzzle::has_unique_solution(n, reg),
{
    assert(is_solution(n, reg, sols[0]));
    assert forall|q: Seq<(usize, usize)>| #[trigger] is_solution(n, reg, q) implies q.to_set() == sols[0].to_set() by {
        let i = choose|i: int| 0 <= i < sols.len() && (#[trigger] sols[i]).to_set() == q.to_set();
    }
}

} // verus!
