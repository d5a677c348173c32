//! Construction of the regions of a puzzle around a tree placement: two
//! small "anchor" regions and flood-filled regions for the other trees.

use vstd::prelude::*;
use crate::{MAX_CELLS, MAX_N};
use crate::connectivity::{
    lemma_link_join, lemma_link_reverse, lemma_link_self, lemma_link_step, linked_in_region, region_path,
    region_size_below,
};
use crate::grid::{adjacent4, cell_index, col_of, lemma_cell_index, lemma_index_cell, row_of};
use crate::polyomino::{cells_adjacent, generate_non_collinear_polyomino_fast, grown_group, poly_tries, touches_earlier};
use crate::connectivity::regions_all_connected;
use crate::difficulty::{is_easy, is_medium, str_equals};
use crate::rng::{range_pick, range_state, SimpleRng};
use crate::solver::{flat_region_model, grid_region_model};

verus! {

/// The labels of the board as integers (`-1` for a cell not yet assigned).
pub open spec fn label_model(n: int, regions: Seq<i16>) -> Seq<int> {
    Seq::new((n * n) as nat, |j: int| regions[j] as int)
}

/// Flat index of the cell of tree `t`.
pub open spec fn tree_index(n: int, t: (usize, usize)) -> int {
    cell_index(n, t.0 as int, t.1 as int)
}

/// `n` trees, one per region id, all on the board.
pub open spec fn trees_on_board(n: int, trees: Seq<(usize, usize)>) -> bool {
    &&& trees.len() == n
    &&& forall|k: int| 0 <= k < n ==> (#[trigger] trees[k]).0 < n && trees[k].1 < n
}

/// No two trees share a cell.
pub open spec fn trees_distinct(trees: Seq<(usize, usize)>) -> bool {
    forall|k: int, l: int| 0 <= k < l < trees.len() ==> #[trigger] trees[k] != #[trigger] trees[l]
}

/// Every label is `-1` or a region id below `n`.
pub open spec fn labels_ok(n: int, regions: Seq<i16>) -> bool {
    forall|j: int| 0 <= j < n * n ==> (#[trigger] regions[j] == -1 || 0 <= regions[j] < n)
}

/// How many cells of the board are assigned.
pub open spec fn assigned_count(n: int, regions: Seq<i16>) -> int {
    n * n - region_size_below(label_model(n, regions), -1, n * n)
}

/// Each tree `k` is on a cell of region `k`, every assigned cell is joined
/// to the tree of its region inside that region, and `sizes` counts the
/// cells of every region.
pub open spec fn growth_ok(n: int, trees: Seq<(usize, usize)>, regions: Seq<i16>, sizes: Seq<usize>) -> bool {
    &&& forall|k: int| 0 <= k < n ==> regions[tree_index(n, #[trigger] trees[k])] == k
    &&& forall|j: int| 0 <= j < n * n && #[trigger] regions[j] >= 0 ==>
            linked_in_region(n, label_model(n, regions), regions[j] as int, tree_index(n, trees[regions[j] as int]), j)
    &&& forall|g: int| 0 <= g < n ==> #[trigger] sizes[g] == region_size_below(label_model(n, regions), g, n * n)
}

/// The state of the construction: labels in range, region sizes bounded by
/// the number of assigned cells, and, when the trees are on distinct cells,
/// connected regions around their trees with exact sizes.
#[verifier::opaque]
pub open spec fn build_state(n: int, trees: Seq<(usize, usize)>, regions: Seq<i16>, sizes: Seq<usize>) -> bool {
    &&& regions.len() == MAX_CELLS
    &&& sizes.len() == MAX_N
    &&& labels_ok(n, regions)
    &&& forall|k: int| 0 <= k < n ==> regions[tree_index(n, #[trigger] trees[k])] != -1
    &&& forall|g: int| 0 <= g < n ==> #[trigger] sizes[g] <= 1 + assigned_count(n, regions)
    &&& trees_distinct(trees) ==> growth_ok(n, trees, regions, sizes)
}

/// Counting after one cell changes label.
pub proof fn lemma_size_update(reg: Seq<int>, x: int, v: int, h: int, k: int)
    requires
        0 <= x < reg.len(),
        0 <= k <= reg.len(),
    ensures
        region_size_below(reg.update(x, v), h, k) == region_size_below(reg, h, k)
            + (if x < k && v == h { 1int } else { 0int }) - (if x < k && reg[x] == h { 1int } else { 0int }),
    decreases k,
{
    if k > 0 {
        lemma_size_update(reg, x, v, h, k - 1);
    }
}

pub proof fn lemma_size_bounds(reg: Seq<int>, h: int, k: int)
    requires
        0 <= k,
    ensures
        0 <= region_size_below(reg, h, k) <= k,
    decreases k,
{
    if k > 0 {
        lemma_size_bounds(reg, h, k - 1);
    }
}

/// A path inside region `h` survives a relabelling of a cell outside it.
pub proof fn lemma_path_survives(n: int, reg: Seq<int>, reg2: Seq<int>, h: int, a: int, b: int)
    requires
        linked_in_region(n, reg, h, a, b),
        reg.len() == n * n,
        reg2.len() == reg.len(),
        forall|j: int| 0 <= j < reg.len() && #[trigger] reg[j] == h ==> reg2[j] == h,
    ensures
        linked_in_region(n, reg2, h, a, b),
{
    let path = choose|path: Seq<int>| #[trigger] region_path(n, reg, h, path) && path[0] == a && path.last() == b;
    assert forall|k: int| 0 <= k < path.len() implies 0 <= #[trigger] path[k] < n * n && reg2[path[k]] == h by {
        let j = path[k];
        assert(0 <= j < n * n && reg[j] == h);
    }
    assert(region_path(n, reg2, h, path));
}

/// Assigning an unassigned cell to region `g`, next to a cell of region
/// `g` when the trees are distinct, keeps the state of the construction.
pub proof fn lemma_assign(
    n: int,
    trees: Seq<(usize, usize)>,
    regions: Seq<i16>,
    sizes: Seq<usize>,
    x: int,
    g: int,
    y: int,
)
    requires
        0 < n <= 32,
        trees_on_board(n, trees),
        build_state(n, trees, regions, sizes),
        0 <= x < n * n,
        regions[x] == -1,
        0 <= g < n,
        trees_distinct(trees) ==> adjacent4(n, y, x) && regions[y] == g,
    ensures
        sizes[g] + 1 <= 2 * MAX_CELLS,
        build_state(n, trees, regions.update(x, g as i16), sizes.update(g, (sizes[g] + 1) as usize)),
{
    reveal(build_state);
    assert(n * n <= 1024) by (nonlinear_arith)
        requires 0 < n <= 32;
    let r2 = regions.update(x, g as i16);
    let s2 = sizes.update(g, (sizes[g] + 1) as usize);
    let m = label_model(n, regions);
    let m2 = label_model(n, r2);
    assert forall|j: int| 0 <= j < n * n implies #[trigger] m2[j] == m.update(x, g)[j] by {
        if j == x {
            assert(r2[j] == g as i16);
        } else {
            assert(r2[j] == regions[j]);
        }
    }
    assert(m2 =~= m.update(x, g));
    lemma_size_update(m, x, g, -1, n * n);
    lemma_size_bounds(m, -1, n * n);
    lemma_size_bounds(m2, -1, n * n);
    assert forall|j: int| 0 <= j < n * n implies (#[trigger] r2[j] == -1 || 0 <= r2[j] < n) by {
        if j != x {
            assert(r2[j] == regions[j]);
        }
    }
    assert forall|k: int| 0 <= k < n implies r2[tree_index(n, #[trigger] trees[k])] != -1 by {
        lemma_cell_index(n, trees[k].0 as int, trees[k].1 as int);
        assert(regions[tree_index(n, trees[k])] != -1);
    }
    assert forall|h: int| 0 <= h < n implies #[trigger] s2[h] <= 1 + assigned_count(n, r2) by {
        assert(sizes[h] <= 1 + assigned_count(n, regions));
    }
    if trees_distinct(trees) {
        assert forall|k: int| 0 <= k < n implies r2[tree_index(n, #[trigger] trees[k])] == k by {
            lemma_cell_index(n, trees[k].0 as int, trees[k].1 as int);
            assert(regions[tree_index(n, trees[k])] == k);
        }
        assert forall|j: int| 0 <= j < n * n && #[trigger] r2[j] >= 0 implies
            linked_in_region(n, m2, r2[j] as int, tree_index(n, trees[r2[j] as int]), j) by {
            if j == x {
                assert(regions[y] >= 0);
                assert(linked_in_region(n, m, g, tree_index(n, trees[g]), y));
                assert forall|i: int| 0 <= i < m.len() && #[trigger] m[i] == g implies m2[i] == g by {
                    if i == x {
                    }
                }
                lemma_path_survives(n, m, m2, g, tree_index(n, trees[g]), y);
                lemma_link_step(n, m2, g, tree_index(n, trees[g]), y, x);
            } else {
                let h = regions[j] as int;
                assert(r2[j] == regions[j]);
                assert(linked_in_region(n, m, h, tree_index(n, trees[h]), j));
                assert forall|i: int| 0 <= i < m.len() && #[trigger] m[i] == h implies m2[i] == h by {
                    if i == x {
                    }
                }
                lemma_path_survives(n, m, m2, h, tree_index(n, trees[h]), j);
            }
        }
        assert forall|h: int| 0 <= h < n implies #[trigger] s2[h] == region_size_below(m2, h, n * n) by {
            lemma_size_update(m, x, g, h, n * n);
        }
    }
}

/// What the state of the construction says of labels and tree cells.
pub proof fn lemma_state_facts(n: int, trees: Seq<(usize, usize)>, regions: Seq<i16>, sizes: Seq<usize>)
    requires
        build_state(n, trees, regions, sizes),
    ensures
        regions.len() == MAX_CELLS,
        sizes.len() == MAX_N,
        labels_ok(n, regions),
        forall|k: int| 0 <= k < n ==> regions[tree_index(n, #[trigger] trees[k])] != -1,
        trees_distinct(trees) ==> forall|k: int| 0 <= k < n ==> regions[tree_index(n, #[trigger] trees[k])] == k,
{
    reveal(build_state);
}

/// Counting in a board where all of the first `k` labels are `v`.
pub proof fn lemma_size_constant(reg: Seq<int>, v: int, h: int, k: int)
    requires
        0 <= k <= reg.len(),
        forall|j: int| 0 <= j < k ==> #[trigger] reg[j] == v,
    ensures
        region_size_below(reg, h, k) == (if h == v { k } else { 0 }),
    decreases k,
{
    if k > 0 {
        lemma_size_constant(reg, v, h, k - 1);
    }
}

/// Labels the cell of tree `k` with `k`, on a board with no cell assigned;

/// The labels after trees `0 .. k` are placed on a board of unassigned
/// cells: tree `k` labels its cell with `k` (a later tree on the same cell wins).
pub open spec fn seeded(n: int, trees: Seq<(usize, usize)>, k: int) -> Seq<i16>
    decreases k,
{
    if k <= 0 {
        Seq::new(MAX_CELLS as nat, |j: int| -1i16)
    } else {
        seeded(n, trees, k - 1).update(tree_index(n, trees[k - 1]), (k - 1) as i16)
    }
}

/// The generator state after `construct_gadget_regions_fast` from `state`:
/// "Easy" draws nothing; otherwise the size of region 0 is drawn, region 0
/// is grown (see `poly_tries`) from the seeded board, and the target size of
/// region 1 is drawn.
#[verifier::opaque]
pub open spec fn gadget_state(n: int, trees: Seq<(usize, usize)>, difficulty: Seq<char>, state: u64) -> u64 {
    if is_easy(difficulty) {
        state
    } else {
        let lo0: nat = if is_medium(difficulty) { 3 } else { 4 };
        let lo1: nat = if is_medium(difficulty) { 2 } else { 3 };
        let size = range_pick(state, lo0, lo0 + 2);
        let s1 = range_state(state, lo0, lo0 + 2);
        let s2 = poly_tries(n, seeded(n, trees, n), trees[0].0 as int, trees[0].1 as int, size as int, s1, 0, Seq::empty()).1;
        range_state(s2, lo1, lo1 + 2)
    }
}

/// clears the sizes of regions `0 .. n` and sets each to one.
fn seed_trees(
    n: usize,
    trees: &[(usize, usize)],
    regions: &mut [i16; MAX_CELLS],
    sizes: &mut [usize; MAX_N],
)
    requires
        2 <= n <= 32,
        trees_on_board(n as int, trees@),
        forall|j: int| 0 <= j < MAX_CELLS ==> #[trigger] old(regions)@[j] == -1,
    ensures
        build_state(n as int, trees@, final(regions)@, final(sizes)@),
        forall|g: int| n <= g < MAX_N ==> #[trigger] final(sizes)@[g] == old(sizes)@[g],
        final(regions)@ == seeded(n as int, trees@, n as int),
        forall|g: int| 0 <= g < n ==> #[trigger] final(sizes)@[g] == 1,
{
    proof {
        assert(n * n <= 1024) by (nonlinear_arith)
            requires n <= 32;
    }
    for g in 0..n
        invariant
            n <= 32,
            forall|h: int| 0 <= h < g ==> #[trigger] sizes@[h] == 0,
            forall|h: int| n <= h < MAX_N ==> #[trigger] sizes@[h] == old(sizes)@[h],
    {
        sizes[g] = 0;
    }
    proof {
        let m = label_model(n as int, regions@);
        assert forall|h: int| 0 <= h < n implies #[trigger] sizes@[h] == region_size_below(m, h, n * n) by {
            lemma_size_constant(m, -1, h, n * n);
        }
        lemma_size_constant(m, -1, -1, n * n);
    }
    for i in 0..n
        invariant
            2 <= n <= 32,
            n * n <= 1024,
            trees_on_board(n as int, trees@),
            labels_ok(n as int, regions@),
            forall|j: int| n * n <= j < MAX_CELLS ==> #[trigger] regions@[j] == -1,
            forall|h: int| n <= h < MAX_N ==> #[trigger] sizes@[h] == old(sizes)@[h],
            regions@ == seeded(n as int, trees@, i as int),
            forall|h: int| 0 <= h < i ==> #[trigger] sizes@[h] == 1,
            forall|h: int| i <= h < n ==> #[trigger] sizes@[h] == 0,
            forall|k: int| 0 <= k < i ==> regions@[tree_index(n as int, #[trigger] trees@[k])] != -1,
            trees_distinct(trees@) ==> {
                &&& forall|j: int| 0 <= j < n * n && #[trigger] regions@[j] >= 0 ==>
                        regions@[j] < i && j == tree_index(n as int, trees@[regions@[j] as int])
                &&& forall|k: int| 0 <= k < i ==> regions@[tree_index(n as int, #[trigger] trees@[k])] == k
                &&& forall|h: int| 0 <= h < n ==> #[trigger] sizes@[h] == region_size_below(label_model(n as int, regions@), h, n * n)
                &&& region_size_below(label_model(n as int, regions@), -1, n * n) == n * n - i
            },
    {
        let t = trees[i];
        proof {
            lemma_cell_index(n as int, t.0 as int, t.1 as int);
        }
        let ghost r0 = regions@;
        let idx = t.0 * n + t.1;
        proof {
            if trees_distinct(trees@) {
                if r0[idx as int] >= 0 {
                    let k = r0[idx as int] as int;
                    assert(trees@[k] != trees@[i as int]);
                    crate::grid::lemma_index_unique(n as int, tree_index(n as int, trees@[k]), idx as int);
                    lemma_cell_index(n as int, trees@[k].0 as int, trees@[k].1 as int);
                    assert(false);
                }
            }
        }
        regions[idx] = i as i16;
        sizes[i] = 1;
        proof {
            let m0 = label_model(n as int, r0);
            let m1 = label_model(n as int, regions@);
            assert forall|j: int| 0 <= j < n * n implies (#[trigger] regions@[j] == -1 || 0 <= regions@[j] < n) by {
                if j != idx {
                    assert(regions@[j] == r0[j]);
                }
            }
            assert forall|k: int| 0 <= k < i + 1 implies regions@[tree_index(n as int, #[trigger] trees@[k])] != -1 by {
                lemma_cell_index(n as int, trees@[k].0 as int, trees@[k].1 as int);
                if tree_index(n as int, trees@[k]) != idx {
                    assert(regions@[tree_index(n as int, trees@[k])] == r0[tree_index(n as int, trees@[k])]);
                }
            }
            if trees_distinct(trees@) {
                assert(m1 =~= m0.update(idx as int, i as int));
                assert forall|h: int| 0 <= h < n implies #[trigger] sizes@[h] == region_size_below(m1, h, n * n) by {
                    lemma_size_update(m0, idx as int, i as int, h, n * n);
                }
                lemma_size_update(m0, idx as int, i as int, -1, n * n);
                assert forall|k: int| 0 <= k < i + 1 implies regions@[tree_index(n as int, #[trigger] trees@[k])] == k by {
                    lemma_cell_index(n as int, trees@[k].0 as int, trees@[k].1 as int);
                    if k < i {
                        assert(trees@[k] != trees@[i as int]);
                        if tree_index(n as int, trees@[k]) == idx {
                            crate::grid::lemma_index_unique(n as int, tree_index(n as int, trees@[k]), idx as int);
                        }
                    }
                }
            }
        }
    }
    proof {
        reveal(build_state);
        let m = label_model(n as int, regions@);
        lemma_size_bounds(m, -1, n * n);
        if trees_distinct(trees@) {
            assert forall|j: int| 0 <= j < n * n && #[trigger] regions@[j] >= 0 implies
                linked_in_region(n as int, m, regions@[j] as int, tree_index(n as int, trees@[regions@[j] as int]), j) by {
                lemma_link_self(n as int, m, regions@[j] as int, j);
            }
        }
    }
}

/// Cell `j` of the `n x n` board lies in rows `r_lo ..= r_hi` and columns
/// `c_lo ..= c_hi`.
pub open spec fn in_box(n: int, r_lo: int, r_hi: int, c_lo: int, c_hi: int, j: int) -> bool {
    &&& 0 <= j < n * n
    &&& r_lo <= row_of(n, j) <= r_hi
    &&& c_lo <= col_of(n, j) <= c_hi
}

/// Cell `j` of the box, in a row before `r`, or in row `r` before column `c`.
pub open spec fn box_done(n: int, r_lo: int, r_hi: int, c_lo: int, c_hi: int, r: int, c: int, j: int) -> bool {
    &&& in_box(n, r_lo, r_hi, c_lo, c_hi, j)
    &&& (row_of(n, j) < r || (row_of(n, j) == r && col_of(n, j) < c))
}

/// Lowers to 0 the elimination time of every cell of rows `r_lo ..= r_hi`
/// and columns `c_lo ..= c_hi` that is not labelled `label`.
fn mark_box(
    n: usize,
    r_lo: usize,
    r_hi: usize,
    c_lo: usize,
    c_hi: usize,
    label: i16,
    regions: &[i16; MAX_CELLS],
    elim_time: &mut [i16; MAX_CELLS],
)
    requires
        n <= 32,
        r_hi < n,
        c_hi < n,
    ensures
        forall|j: int| 0 <= j < MAX_CELLS ==> #[trigger] final(elim_time)@[j] ==
            if in_box(n as int, r_lo as int, r_hi as int, c_lo as int, c_hi as int, j) && regions@[j] != label && old(elim_time)@[j] > 0 {
                0i16
            } else {
                old(elim_time)@[j]
            },
{
    let ghost e0 = elim_time@;
    let mut r = r_lo;
    while r <= r_hi
        invariant
            n <= 32,
            r_hi < n,
            c_hi < n,
            r_lo <= r,
            forall|j: int| 0 <= j < MAX_CELLS ==> #[trigger] elim_time@[j] ==
                if box_done(n as int, r_lo as int, r_hi as int, c_lo as int, c_hi as int, r as int, 0, j) && regions@[j] != label && e0[j] > 0 {
                    0i16
                } else {
                    e0[j]
                },
        decreases r_hi + 1 - r,
    {
        proof {
            assert(r * n <= 31 * 32) by (nonlinear_arith)
                requires r < n, n <= 32;
        }
        let r_off = r * n;
        let mut c = c_lo;
        proof {
            assert forall|j: int| 0 <= j < MAX_CELLS implies #[trigger] elim_time@[j] ==
                if box_done(n as int, r_lo as int, r_hi as int, c_lo as int, c_hi as int, r as int, c as int, j) && regions@[j] != label && e0[j] > 0 {
                    0i16
                } else {
                    e0[j]
                } by {
                if box_done(n as int, r_lo as int, r_hi as int, c_lo as int, c_hi as int, r as int, c as int, j) {
                    assert(box_done(n as int, r_lo as int, r_hi as int, c_lo as int, c_hi as int, r as int, 0, j));
                }
            }
        }
        while c <= c_hi
            invariant
                n <= 32,
                r_lo <= r <= r_hi,
                r_hi < n,
                c_hi < n,
                c_lo <= c,
                r_off == r * n,
                r_off <= 31 * 32,
                forall|j: int| 0 <= j < MAX_CELLS ==> #[trigger] elim_time@[j] ==
                    if box_done(n as int, r_lo as int, r_hi as int, c_lo as int, c_hi as int, r as int, c as int, j) && regions@[j] != label && e0[j] > 0 {
                        0i16
                    } else {
                        e0[j]
                    },
            decreases c_hi + 1 - c,
        {
            proof {
                lemma_cell_index(n as int, r as int, c as int);
                assert(n * n <= 1024) by (nonlinear_arith)
                    requires n <= 32;
            }
            let idx = r_off + c;
            let ghost before = elim_time@;
            if regions[idx] != label && elim_time[idx] > 0 {
                elim_time[idx] = 0;
            }
            proof {
                assert forall|j: int| 0 <= j < MAX_CELLS implies #[trigger] elim_time@[j] ==
                    if box_done(n as int, r_lo as int, r_hi as int, c_lo as int, c_hi as int, r as int, c + 1, j) && regions@[j] != label && e0[j] > 0 {
                        0i16
                    } else {
                        e0[j]
                    } by {
                    if j != idx {
                        assert(elim_time@[j] == before[j]);
                        if 0 <= j < n * n && row_of(n as int, j) == r && col_of(n as int, j) == c {
                            crate::grid::lemma_index_unique(n as int, j, idx as int);
                        }
                    }
                }
            }
            c = c + 1;
        }
        proof {
            assert forall|j: int| 0 <= j < MAX_CELLS implies #[trigger] elim_time@[j] ==
                if box_done(n as int, r_lo as int, r_hi as int, c_lo as int, c_hi as int, r + 1, 0, j) && regions@[j] != label && e0[j] > 0 {
                    0i16
                } else {
                    e0[j]
                } by {
                if 0 <= j < n * n {
                    lemma_index_cell(n as int, j);
                }
            }
        }
        r = r + 1;
    }
    proof {
        assert forall|j: int| 0 <= j < MAX_CELLS implies #[trigger] elim_time@[j] ==
            if in_box(n as int, r_lo as int, r_hi as int, c_lo as int, c_hi as int, j) && regions@[j] != label && e0[j] > 0 {
                0i16
            } else {
                e0[j]
            } by {
            if in_box(n as int, r_lo as int, r_hi as int, c_lo as int, c_hi as int, j) {
                assert(box_done(n as int, r_lo as int, r_hi as int, c_lo as int, c_hi as int, r as int, 0, j));
            }
        }
    }
}

/// Cell `j` is one of the cells `group[0 .. i]`.
pub open spec fn group_covers(n: int, group: Seq<(u8, u8)>, i: int, j: int) -> bool {
    exists|m: int| 0 <= m < i && cell_index(n, (#[trigger] group[m]).0 as int, group[m].1 as int) == j
}

/// How many of the cells `group[0 .. i]` are unassigned in `regions`.
pub open spec fn fresh_count(n: int, regions: Seq<i16>, group: Seq<(u8, u8)>, i: int) -> nat
    decreases i,
{
    if i <= 0 {
        0
    } else {
        fresh_count(n, regions, group, i - 1)
            + if regions[cell_index(n, group[i - 1].0 as int, group[i - 1].1 as int)] == -1 { 1nat } else { 0nat }
    }
}

/// Labels with 0 the unassigned cells of the group `cells[0 .. len]` grown
/// from the cell of tree 0.
#[verifier::rlimit(100)]
#[verifier::spinoff_prover]
fn claim_group0(
    n: usize,
    trees: &[(usize, usize)],
    cells: &[(u8, u8); 64],
    len: usize,
    regions: &mut [i16; MAX_CELLS],
    sizes: &mut [usize; MAX_N],
)
    requires
        2 <= n <= 32,
        trees_on_board(n as int, trees@),
        build_state(n as int, trees@, old(regions)@, old(sizes)@),
        len <= 64,
        grown_group(n as int, old(regions)@, trees@[0].0 as int, trees@[0].1 as int, cells@.take(len as int)),
    ensures
        build_state(n as int, trees@, final(regions)@, final(sizes)@),
        forall|g: int| n <= g < MAX_N ==> #[trigger] final(sizes)@[g] == old(sizes)@[g],
        forall|j: int| 0 <= j < MAX_CELLS ==> #[trigger] final(regions)@[j] ==
            if old(regions)@[j] == -1 && group_covers(n as int, cells@.take(len as int), len as int, j) { 0i16 } else { old(regions)@[j] },
        final(sizes)@[0] == old(sizes)@[0] + fresh_count(n as int, old(regions)@, cells@.take(len as int), len as int),
        forall|g: int| 0 < g < MAX_N ==> #[trigger] final(sizes)@[g] == old(sizes)@[g],
{
    proof {
        assert(n * n <= 1024) by (nonlinear_arith)
            requires n <= 32;
    }
    let ghost entry = regions@;
    let ghost group = cells@.take(len as int);
    for i in 0..len
        invariant
            2 <= n <= 32,
            n * n <= 1024,
            len <= 64,
            trees_on_board(n as int, trees@),
            build_state(n as int, trees@, regions@, sizes@),
            group == cells@.take(len as int),
            grown_group(n as int, entry, trees@[0].0 as int, trees@[0].1 as int, group),
            forall|g: int| n <= g < MAX_N ==> #[trigger] sizes@[g] == old(sizes)@[g],
            trees_distinct(trees@) ==> forall|m: int| i <= m < len ==>
                regions@[cell_index(n as int, (#[trigger] group[m]).0 as int, group[m].1 as int)]
                    == entry[cell_index(n as int, group[m].0 as int, group[m].1 as int)],
            trees_distinct(trees@) ==> forall|m: int| 0 <= m < i ==>
                regions@[cell_index(n as int, (#[trigger] group[m]).0 as int, group[m].1 as int)] == 0,
            forall|j: int| 0 <= j < MAX_CELLS ==> #[trigger] regions@[j] ==
                if entry[j] == -1 && group_covers(n as int, group, i as int, j) { 0i16 } else { entry[j] },
            sizes@[0] == old(sizes)@[0] + fresh_count(n as int, entry, group, i as int),
            forall|g: int| 0 < g < MAX_N ==> #[trigger] sizes@[g] == old(sizes)@[g],
    {
        let cell = cells[i];
        proof {
            assert(cell == group[i as int]);
            lemma_cell_index(n as int, cell.0 as int, cell.1 as int);
            lemma_state_facts(n as int, trees@, regions@, sizes@);
        }
        let r = cell.0 as usize;
        let c = cell.1 as usize;
        let idx = r * n + c;
        let ghost r0 = regions@;
        let ghost s0 = sizes@;
        if regions[idx] == -1 {
            proof {
                if trees_distinct(trees@) {
                    if i == 0 {
                        lemma_cell_index(n as int, trees@[0].0 as int, trees@[0].1 as int);
                        assert(false);
                    }
                    assert(touches_earlier(group, i as int, group[i as int]));
                    let m = choose|m: int| 0 <= m < i && cells_adjacent(#[trigger] group[m], group[i as int]);
                    let y = cell_index(n as int, group[m].0 as int, group[m].1 as int);
                    lemma_cell_index(n as int, group[m].0 as int, group[m].1 as int);
                    assert(adjacent4(n as int, y, idx as int));
                    lemma_assign(n as int, trees@, r0, s0, idx as int, 0, y);
                } else {
                    lemma_assign(n as int, trees@, r0, s0, idx as int, 0, 0);
                }
            }
            regions[idx] = 0;
            sizes[0] = sizes[0] + 1;
        } else {
            proof {
                if trees_distinct(trees@) && i == 0 {
                    lemma_cell_index(n as int, trees@[0].0 as int, trees@[0].1 as int);
                }
            }
        }
        proof {
            let ci = cell_index(n as int, group[i as int].0 as int, group[i as int].1 as int);
            assert(ci == idx);
            assert(!group_covers(n as int, group, i as int, idx as int)) by {
                if group_covers(n as int, group, i as int, idx as int) {
                    let m = choose|m: int| 0 <= m < i && cell_index(n as int, (#[trigger] group[m]).0 as int, group[m].1 as int) == idx;
                    lemma_cell_index(n as int, group[m].0 as int, group[m].1 as int);
                    crate::grid::lemma_index_unique(n as int, idx as int, cell_index(n as int, group[m].0 as int, group[m].1 as int));
                    assert(group[m] == group[i as int]);
                }
            }
            assert(r0[idx as int] == entry[idx as int]);
            assert forall|j: int| 0 <= j < MAX_CELLS implies #[trigger] regions@[j] ==
                if entry[j] == -1 && group_covers(n as int, group, i + 1, j) { 0i16 } else { entry[j] } by {
                if j != idx {
                    if group_covers(n as int, group, i + 1, j) {
                        let m = choose|m: int| 0 <= m < i + 1 && cell_index(n as int, (#[trigger] group[m]).0 as int, group[m].1 as int) == j;
                        assert(m != i);
                        assert(group_covers(n as int, group, i as int, j));
                    }
                } else {
                    assert(group_covers(n as int, group, i + 1, j));
                }
            }
            assert(fresh_count(n as int, entry, group, i + 1) == fresh_count(n as int, entry, group, i as int)
                + if entry[idx as int] == -1 { 1nat } else { 0nat });
        }
        proof {
            if trees_distinct(trees@) {
                assert forall|m: int| i + 1 <= m < len implies
                    regions@[cell_index(n as int, (#[trigger] group[m]).0 as int, group[m].1 as int)]
                        == entry[cell_index(n as int, group[m].0 as int, group[m].1 as int)] by {
                    lemma_cell_index(n as int, group[m].0 as int, group[m].1 as int);
                    assert(group[m] != group[i as int]);
                    if cell_index(n as int, group[m].0 as int, group[m].1 as int) == idx {
                        crate::grid::lemma_index_unique(n as int, idx as int, cell_index(n as int, group[m].0 as int, group[m].1 as int));
                    }
                }
                assert forall|m: int| 0 <= m < i + 1 implies
                    regions@[cell_index(n as int, (#[trigger] group[m]).0 as int, group[m].1 as int)] == 0 by {
                    lemma_cell_index(n as int, group[m].0 as int, group[m].1 as int);
                    if m < i {
                        assert(group[m] != group[i as int]);
                        if cell_index(n as int, group[m].0 as int, group[m].1 as int) == idx {
                            crate::grid::lemma_index_unique(n as int, idx as int, cell_index(n as int, group[m].0 as int, group[m].1 as int));
                        }
                    } else if i > 0 {
                        assert(entry[idx as int] == -1);
                    }
                }
            }
        }
    }
}

/// Lowers to `s` the elimination time of every cell of rows `r_lo ..= r_hi`
/// and columns `c_lo ..= c_hi` whose time is above `s`.
fn lower_box(n: usize, r_lo: usize, r_hi: usize, c_lo: usize, c_hi: usize, s: i16, elim_time: &mut [i16; MAX_CELLS])
    requires
        n <= 32,
        r_hi < n,
        c_hi < n,
    ensures
        forall|j: int| 0 <= j < MAX_CELLS ==> #[trigger] final(elim_time)@[j] ==
            if in_box(n as int, r_lo as int, r_hi as int, c_lo as int, c_hi as int, j) && s < old(elim_time)@[j] {
                s
            } else {
                old(elim_time)@[j]
            },
{
    let ghost e0 = elim_time@;
    let mut r = r_lo;
    while r <= r_hi
        invariant
            n <= 32,
            r_hi < n,
            c_hi < n,
            r_lo <= r,
            forall|j: int| 0 <= j < MAX_CELLS ==> #[trigger] elim_time@[j] ==
                if box_done(n as int, r_lo as int, r_hi as int, c_lo as int, c_hi as int, r as int, 0, j) && s < e0[j] {
                    s
                } else {
                    e0[j]
                },
        decreases r_hi + 1 - r,
    {
        proof {
            assert(r * n <= 31 * 32) by (nonlinear_arith)
                requires r < n, n <= 32;
        }
        let r_off = r * n;
        let mut c = c_lo;
        proof {
            assert forall|j: int| 0 <= j < MAX_CELLS implies #[trigger] elim_time@[j] ==
                if box_done(n as int, r_lo as int, r_hi as int, c_lo as int, c_hi as int, r as int, c as int, j) && s < e0[j] {
                    s
                } else {
                    e0[j]
                } by {
                if box_done(n as int, r_lo as int, r_hi as int, c_lo as int, c_hi as int, r as int, c as int, j) {
                    assert(box_done(n as int, r_lo as int, r_hi as int, c_lo as int, c_hi as int, r as int, 0, j));
                }
            }
        }
        while c <= c_hi
            invariant
                n <= 32,
                r_lo <= r <= r_hi,
                r_hi < n,
                c_hi < n,
                c_lo <= c,
                r_off == r * n,
                r_off <= 31 * 32,
                forall|j: int| 0 <= j < MAX_CELLS ==> #[trigger] elim_time@[j] ==
                    if box_done(n as int, r_lo as int, r_hi as int, c_lo as int, c_hi as int, r as int, c as int, j) && s < e0[j] {
                        s
                    } else {
                        e0[j]
                    },
            decreases c_hi + 1 - c,
        {
            proof {
                lemma_cell_index(n as int, r as int, c as int);
                assert(n * n <= 1024) by (nonlinear_arith)
                    requires n <= 32;
            }
            let idx = r_off + c;
            let ghost before = elim_time@;
            if s < elim_time[idx] {
                elim_time[idx] = s;
            }
            proof {
                assert forall|j: int| 0 <= j < MAX_CELLS implies #[trigger] elim_time@[j] ==
                    if box_done(n as int, r_lo as int, r_hi as int, c_lo as int, c_hi as int, r as int, c + 1, j) && s < e0[j] {
                        s
                    } else {
                        e0[j]
                    } by {
                    if j != idx {
                        assert(elim_time@[j] == before[j]);
                        if 0 <= j < n * n && row_of(n as int, j) == r && col_of(n as int, j) == c {
                            crate::grid::lemma_index_unique(n as int, j, idx as int);
                        }
                    }
                }
            }
            c = c + 1;
        }
        proof {
            assert forall|j: int| 0 <= j < MAX_CELLS implies #[trigger] elim_time@[j] ==
                if box_done(n as int, r_lo as int, r_hi as int, c_lo as int, c_hi as int, r + 1, 0, j) && s < e0[j] {
                    s
                } else {
                    e0[j]
                } by {
                if 0 <= j < n * n {
                    lemma_index_cell(n as int, j);
                }
            }
        }
        r = r + 1;
    }
    proof {
        assert forall|j: int| 0 <= j < MAX_CELLS implies #[trigger] elim_time@[j] ==
            if in_box(n as int, r_lo as int, r_hi as int, c_lo as int, c_hi as int, j) && s < e0[j] {
                s
            } else {
                e0[j]
            } by {
            if in_box(n as int, r_lo as int, r_hi as int, c_lo as int, c_hi as int, j) {
                assert(box_done(n as int, r_lo as int, r_hi as int, c_lo as int, c_hi as int, r as int, 0, j));
            }
        }
    }
}

/// The smallest row, largest row, smallest column and largest column of
/// `cells` (`usize::MAX` and 0 for no cells).
pub open spec fn bounds_of(cells: Seq<(u8, u8)>) -> (int, int, int, int)
    decreases cells.len(),
{
    if cells.len() == 0 {
        (usize::MAX as int, 0, usize::MAX as int, 0)
    } else {
        let b = bounds_of(cells.drop_last());
        let r = cells.last().0 as int;
        let c = cells.last().1 as int;
        (
            if r < b.0 { r } else { b.0 },
            if r > b.1 { r } else { b.1 },
            if c < b.2 { c } else { b.2 },
            if c > b.3 { c } else { b.3 },
        )
    }
}

/// The smallest and largest row and column of `cells[0 .. len]`.
fn cell_bounds(cells: &[(u8, u8)], len: usize, Ghost(n): Ghost<int>) -> (b: (usize, usize, usize, usize))
    requires
        1 <= len <= cells@.len(),
        forall|k: int| 0 <= k < len ==> (#[trigger] cells@[k]).0 < n && cells@[k].1 < n,
    ensures
        b.0 <= b.1 < n,
        b.2 <= b.3 < n,
        (b.0 as int, b.1 as int, b.2 as int, b.3 as int) == bounds_of(cells@.take(len as int)),
{
    let mut min_r = usize::MAX;
    let mut max_r: usize = 0;
    let mut min_c = usize::MAX;
    let mut max_c: usize = 0;
    for i in 0..len
        invariant
            1 <= len <= cells@.len(),
            forall|k: int| 0 <= k < len ==> (#[trigger] cells@[k]).0 < n && cells@[k].1 < n,
            i > 0 ==> min_r <= max_r < n && min_c <= max_c < n,
            i == 0 ==> min_r == usize::MAX && max_r == 0 && min_c == usize::MAX && max_c == 0,
            (min_r as int, max_r as int, min_c as int, max_c as int) == bounds_of(cells@.take(i as int)),
    {
        proof {
            assert(cells@.take(i + 1).drop_last() =~= cells@.take(i as int));
        }
        let r = cells[i].0 as usize;
        let c = cells[i].1 as usize;
        if r < min_r {
            min_r = r;
        }
        if r > max_r {
            max_r = r;
        }
        if c < min_c {
            min_c = c;
        }
        if c > max_c {
            max_c = c;
        }
    }
    (min_r, max_r, min_c, max_c)
}

/// The `k`-th neighbour of `(tr, tc)` in the order left, right, up, down
/// (`cols_first`) or up, down, left, right, with `false` when it is off the
/// `n x n` board.
pub open spec fn anchor_step(n: int, tr: int, tc: int, k: int, cols_first: bool) -> (bool, usize, usize) {
    let dir = if cols_first { k } else { (k + 2) % 4 };
    let (dr, dc) = if dir == 0 { (0int, -1int) } else if dir == 1 { (0int, 1int) } else if dir == 2 { (-1int, 0int) } else { (1int, 0int) };
    if 0 <= tr + dr < n && 0 <= tc + dc < n {
        (true, (tr + dr) as usize, (tc + dc) as usize)
    } else {
        (false, 0, 0)
    }
}

/// The `k`-th neighbour of `(tr, tc)` tried when growing the second anchor:
/// left, right, up, down when `cols_first`, otherwise up, down, left, right.
fn anchor_neighbor(n: usize, tr: usize, tc: usize, k: usize, cols_first: bool) -> (res: (bool, usize, usize))
    requires
        n <= 32,
        tr < n,
        tc < n,
        k < 4,
    ensures
        res == anchor_step(n as int, tr as int, tc as int, k as int, cols_first),
        res.0 ==> res.1 < n && res.2 < n
            && adjacent4(n as int, cell_index(n as int, tr as int, tc as int), cell_index(n as int, res.1 as int, res.2 as int)),
{
    let dir = if cols_first { k } else { (k + 2) % 4 };
    proof {
        lemma_cell_index(n as int, tr as int, tc as int);
    }
    if dir == 0 {
        if tc > 0 {
            proof { lemma_cell_index(n as int, tr as int, tc - 1); }
            return (true, tr, tc - 1);
        }
    } else if dir == 1 {
        if tc + 1 < n {
            proof { lemma_cell_index(n as int, tr as int, tc + 1); }
            return (true, tr, tc + 1);
        }
    } else if dir == 2 {
        if tr > 0 {
            proof { lemma_cell_index(n as int, tr - 1, tc as int); }
            return (true, tr - 1, tc);
        }
    } else {
        if tr + 1 < n {
            proof { lemma_cell_index(n as int, tr + 1, tc as int); }
            return (true, tr + 1, tc);
        }
    }
    (false, 0, 0)
}

/// The growth of region 1 from neighbour `k` of `(tr, tc)` on (see
/// `anchor_step`): an unassigned neighbour is labelled 1, counted in `size1`
/// and added to `cells`; the growth stops once `size1` reaches `target`.
/// The labels, the size of region 1 and its cells at the end.
pub open spec fn anchor_from(
    n: int,
    regions: Seq<i16>,
    size1: int,
    tr: int,
    tc: int,
    target: int,
    cols_first: bool,
    k: int,
    cells: Seq<(u8, u8)>,
) -> (Seq<i16>, int, Seq<(u8, u8)>)
    decreases 4 - k,
{
    if k >= 4 {
        (regions, size1, cells)
    } else {
        let st = anchor_step(n, tr, tc, k, cols_first);
        let idx = st.1 * n + st.2;
        if st.0 && regions[idx] == -1 {
            let r2 = regions.update(idx, 1);
            let c2 = cells.push((st.1 as u8, st.2 as u8));
            if size1 + 1 >= target {
                (r2, size1 + 1, c2)
            } else {
                anchor_from(n, r2, size1 + 1, tr, tc, target, cols_first, k + 1, c2)
            }
        } else {
            anchor_from(n, regions, size1, tr, tc, target, cols_first, k + 1, cells)
        }
    }
}

/// Grows the second anchor region: labels with 1 unassigned neighbours of
/// the cell of tree 1, in a fixed order, until region 1 has `target` cells
/// or the neighbours run out; returns its cells in `a1_cells[0 .. len]`.
fn claim_anchor1(
    n: usize,
    trees: &[(usize, usize)],
    target: usize,
    cols_first: bool,
    regions: &mut [i16; MAX_CELLS],
    sizes: &mut [usize; MAX_N],
    a1_cells: &mut [(u8, u8); 16],
) -> (len: usize)
    requires
        2 <= n <= 32,
        trees_on_board(n as int, trees@),
        build_state(n as int, trees@, old(regions)@, old(sizes)@),
    ensures
        1 <= len <= 5,
        build_state(n as int, trees@, final(regions)@, final(sizes)@),
        forall|g: int| n <= g < MAX_N ==> #[trigger] final(sizes)@[g] == old(sizes)@[g],
        forall|k: int| 0 <= k < len ==> (#[trigger] final(a1_cells)@[k]).0 < n && final(a1_cells)@[k].1 < n,
        ({
            let start = seq![(trees@[1].0 as u8, trees@[1].1 as u8)];
            let res = if target > 1 {
                anchor_from(n as int, old(regions)@, old(sizes)@[1] as int, trees@[1].0 as int, trees@[1].1 as int,
                    target as int, cols_first, 0, start)
            } else {
                (old(regions)@, old(sizes)@[1] as int, start)
            };
            &&& final(regions)@ == res.0
            &&& final(sizes)@[1] == res.1
            &&& forall|g: int| 0 <= g < MAX_N && g != 1 ==> #[trigger] final(sizes)@[g] == old(sizes)@[g]
            &&& final(a1_cells)@.take(len as int) == res.2
        }),
{
    let (tr1, tc1) = trees[1];
    a1_cells[0] = (tr1 as u8, tc1 as u8);
    let mut a1_len: usize = 1;
    let ghost start = seq![(tr1 as u8, tc1 as u8)];
    proof {
        assert(a1_cells@.take(1) =~= start);
        assert(trees@[1] == (tr1, tc1));
    }
    proof {
        assert(n * n <= 1024) by (nonlinear_arith)
            requires n <= 32;
    }
    if target > 1 {
        let mut k: usize = 0;
        let mut done = false;
        while k < 4 && !done
            invariant
                2 <= n <= 32,
                n * n <= 1024,
                tr1 == trees@[1].0,
                tc1 == trees@[1].1,
                trees_on_board(n as int, trees@),
                build_state(n as int, trees@, regions@, sizes@),
                forall|g: int| n <= g < MAX_N ==> #[trigger] sizes@[g] == old(sizes)@[g],
                1 <= a1_len <= k + 1,
                k <= 4,
                forall|m: int| 0 <= m < a1_len ==> (#[trigger] a1_cells@[m]).0 < n && a1_cells@[m].1 < n,
                a1_len <= 16,
                target > 1,
                forall|g: int| 0 <= g < MAX_N && g != 1 ==> #[trigger] sizes@[g] == old(sizes)@[g],
                start == seq![(tr1 as u8, tc1 as u8)],
                !done ==> anchor_from(n as int, regions@, sizes@[1] as int, tr1 as int, tc1 as int, target as int, cols_first, k as int, a1_cells@.take(a1_len as int))
                    == anchor_from(n as int, old(regions)@, old(sizes)@[1] as int, tr1 as int, tc1 as int, target as int, cols_first, 0, start),
                done ==> (regions@, sizes@[1] as int, a1_cells@.take(a1_len as int))
                    == anchor_from(n as int, old(regions)@, old(sizes)@[1] as int, tr1 as int, tc1 as int, target as int, cols_first, 0, start),
            decreases 4 - k,
        {
            let ghost r_k = regions@;
            let ghost s_k = sizes@[1] as int;
            let ghost c_k = a1_cells@.take(a1_len as int);
            let (ok, nr, nc) = anchor_neighbor(n, tr1, tc1, k, cols_first);
            if ok {
                proof {
                    lemma_cell_index(n as int, nr as int, nc as int);
                }
                let idx = nr * n + nc;
                if regions[idx] == -1 {
                    proof {
                        lemma_state_facts(n as int, trees@, regions@, sizes@);
                        lemma_cell_index(n as int, tr1 as int, tc1 as int);
                        lemma_assign(n as int, trees@, regions@, sizes@, idx as int, 1, tree_index(n as int, trees@[1]));
                    }
                    regions[idx] = 1;
                    sizes[1] = sizes[1] + 1;
                    a1_cells[a1_len] = (nr as u8, nc as u8);
                    a1_len = a1_len + 1;
                    proof {
                        assert(a1_cells@.take(a1_len as int) =~= c_k.push((nr as u8, nc as u8)));
                        assert(regions@ == r_k.update(idx as int, 1));
                    }
                    if sizes[1] >= target {
                        done = true;
                    }
                }
            }
            k = k + 1;
        }
    }
    a1_len
}

/// Some orthogonal neighbour of cell `x` is labelled `g`.
pub open spec fn has_labelled_neighbor(n: int, regions: Seq<i16>, x: int, g: int) -> bool {
    exists|y: int| 0 <= y < n * n && adjacent4(n, y, x) && #[trigger] regions[y] == g
}

/// Every queued pair `(cell, region)` names a cell of the board and one of
/// the regions `2 .. n`; with distinct trees the cell has a neighbour in
/// that region.
pub open spec fn flood_queue_ok(n: int, trees: Seq<(usize, usize)>, regions: Seq<i16>, queue: Seq<(u16, u16)>) -> bool {
    &&& queue.len() <= MAX_CELLS
    &&& forall|k: int| 0 <= k < queue.len() ==> (#[trigger] queue[k]).0 < n * n && 2 <= queue[k].1 < n
    &&& trees_distinct(trees) ==> forall|k: int| 0 <= k < queue.len() ==>
            has_labelled_neighbor(n, regions, (#[trigger] queue[k]).0 as int, queue[k].1 as int)
}

/// A labelled neighbour stays labelled when an unassigned cell is assigned.
proof fn lemma_neighbor_persists(n: int, regions: Seq<i16>, x: int, v: i16, z: int, g: int)
    requires
        0 <= x < regions.len(),
        n * n <= regions.len(),
        regions[x] == -1,
        g >= 0,
        has_labelled_neighbor(n, regions, z, g),
    ensures
        has_labelled_neighbor(n, regions.update(x, v), z, g),
{
    let y = choose|y: int| 0 <= y < n * n && adjacent4(n, y, z) && #[trigger] regions[y] == g;
    assert(y != x);
    assert(regions.update(x, v)[y] == g);
}

/// `queue` with `(x, g)` added when cell `x` is unassigned and the queue has room.
pub open spec fn offered(regions: Seq<i16>, queue: Seq<(u16, u16)>, x: int, g: int) -> Seq<(u16, u16)> {
    if regions[x] == -1 && queue.len() < MAX_CELLS {
        queue.push((x as u16, g as u16))
    } else {
        queue
    }
}

/// Queues `(x, g)` when cell `x` is unassigned and the queue has room.
fn offer_cell(
    n: usize,
    x: usize,
    g: usize,
    regions: &[i16; MAX_CELLS],
    queue: &mut Vec<(u16, u16)>,
    Ghost(trees): Ghost<Seq<(usize, usize)>>,
)
    requires
        n <= 32,
        x < n * n,
        2 <= g < n,
        trees_distinct(trees) ==> has_labelled_neighbor(n as int, regions@, x as int, g as int),
        flood_queue_ok(n as int, trees, regions@, old(queue)@),
    ensures
        final(queue)@ == offered(regions@, old(queue)@, x as int, g as int),
        flood_queue_ok(n as int, trees, regions@, final(queue)@),
        old(queue)@.len() <= final(queue)@.len() <= old(queue)@.len() + 1,
{
    proof {
        assert(n * n <= 1024) by (nonlinear_arith)
            requires n <= 32;
    }
    if regions[x] == -1 && queue.len() < MAX_CELLS {
        queue.push((x as u16, g as u16));
        proof {
            let q = queue@;
            assert forall|k: int| 0 <= k < q.len() implies (#[trigger] q[k]).0 < n * n && 2 <= q[k].1 < n by {
                if k < q.len() - 1 {
                    assert(q[k] == old(queue)@[k]);
                }
            }
            if trees_distinct(trees) {
                assert forall|k: int| 0 <= k < q.len() implies
                    has_labelled_neighbor(n as int, regions@, (#[trigger] q[k]).0 as int, q[k].1 as int) by {
                    if k < q.len() - 1 {
                        assert(q[k] == old(queue)@[k]);
                    }
                }
            }
        }
    }
}

/// `queue` after the neighbours of cell `(r, c)` that are on the board
/// (above, below, left, right) are offered to region `g`.
pub open spec fn neighbours_offered(n: int, regions: Seq<i16>, queue: Seq<(u16, u16)>, r: int, c: int, g: int) -> Seq<(u16, u16)> {
    let q1 = if r > 0 { offered(regions, queue, (r - 1) * n + c, g) } else { queue };
    let q2 = if r + 1 < n { offered(regions, q1, (r + 1) * n + c, g) } else { q1 };
    let q3 = if c > 0 { offered(regions, q2, r * n + c - 1, g) } else { q2 };
    if c + 1 < n { offered(regions, q3, r * n + c + 1, g) } else { q3 }
}

/// The queue of the flood once the trees `2 .. k` have offered their
/// neighbours, tree by tree.
pub open spec fn seed_queue(n: int, trees: Seq<(usize, usize)>, regions: Seq<i16>, k: int) -> Seq<(u16, u16)>
    decreases k,
{
    if k <= 2 {
        Seq::empty()
    } else {
        neighbours_offered(n, regions, seed_queue(n, trees, regions, k - 1), trees[k - 1].0 as int, trees[k - 1].1 as int, k - 1)
    }
}

/// The regions and sizes at the end of the flood, from entry `head` of the
/// queue on: a queued cell joins the region that queued it when it is
/// unassigned and its elimination time is below that region's index, and
/// then offers its own neighbours to that region.
pub open spec fn flood_run(
    n: int,
    elim: Seq<i16>,
    regions: Seq<i16>,
    sizes: Seq<usize>,
    queue: Seq<(u16, u16)>,
    head: int,
) -> (Seq<i16>, Seq<usize>)
    decreases MAX_CELLS - head,
{
    if head < 0 || head >= queue.len() || queue.len() > MAX_CELLS {
        (regions, sizes)
    } else {
        let idx = queue[head].0 as int;
        let g = queue[head].1 as int;
        if regions[idx] == -1 && elim[idx] < g {
            let r2 = regions.update(idx, g as i16);
            let s2 = sizes.update(g, (sizes[g] + 1) as usize);
            flood_run(n, elim, r2, s2, neighbours_offered(n, r2, queue, idx / n, idx % n, g), head + 1)
        } else {
            flood_run(n, elim, regions, sizes, queue, head + 1)
        }
    }
}

/// Grows the regions `2 .. n` breadth-first from their trees: a queued cell
/// joins the region that queued it when it is still unassigned and its
/// elimination time is earlier than that region's index.
fn flood_fill(
    n: usize,
    trees: &[(usize, usize)],
    elim_time: &[i16; MAX_CELLS],
    regions: &mut [i16; MAX_CELLS],
    sizes: &mut [usize; MAX_N],
)
    requires
        2 <= n <= 32,
        trees_on_board(n as int, trees@),
        build_state(n as int, trees@, old(regions)@, old(sizes)@),
    ensures
        build_state(n as int, trees@, final(regions)@, final(sizes)@),
        forall|g: int| n <= g < MAX_N ==> #[trigger] final(sizes)@[g] == old(sizes)@[g],
        (final(regions)@, final(sizes)@) == flood_run(n as int, elim_time@, old(regions)@, old(sizes)@,
            seed_queue(n as int, trees@, old(regions)@, n as int), 0),
{
    proof {
        assert(n * n <= 1024) by (nonlinear_arith)
            requires n <= 32;
    }
    let ghost target = flood_run(n as int, elim_time@, regions@, sizes@, seed_queue(n as int, trees@, regions@, n as int), 0);
    let mut queue: Vec<(u16, u16)> = Vec::new();
    for reg_id in 2..n
        invariant
            2 <= n <= 32,
            n * n <= 1024,
            trees_on_board(n as int, trees@),
            build_state(n as int, trees@, regions@, sizes@),
            flood_queue_ok(n as int, trees@, regions@, queue@),
            queue@.len() <= 4 * reg_id,
            regions@ == old(regions)@,
            sizes@ == old(sizes)@,
            queue@ == seed_queue(n as int, trees@, regions@, reg_id as int),
    {
        let (tr, tc) = trees[reg_id];
        let ghost q_start = queue@;
        proof {
            lemma_state_facts(n as int, trees@, regions@, sizes@);
            lemma_cell_index(n as int, tr as int, tc as int);
            assert(trees@[reg_id as int] == (tr, tc));
        }
        let ghost t = tree_index(n as int, trees@[reg_id as int]);
        if tr > 0 {
            proof {
                lemma_cell_index(n as int, tr - 1, tc as int);
                assert((tr - 1) * n == tr * n - n) by (nonlinear_arith);
                assert(adjacent4(n as int, t, (tr - 1) * n + tc));
            }
            offer_cell(n, (tr - 1) * n + tc, reg_id, regions, &mut queue, Ghost(trees@));
        }
        if tr + 1 < n {
            proof {
                lemma_cell_index(n as int, tr + 1, tc as int);
                assert((tr + 1) * n == tr * n + n) by (nonlinear_arith);
                assert(adjacent4(n as int, t, (tr + 1) * n + tc));
            }
            offer_cell(n, (tr + 1) * n + tc, reg_id, regions, &mut queue, Ghost(trees@));
        }
        if tc > 0 {
            proof {
                lemma_cell_index(n as int, tr as int, tc - 1);
                assert(adjacent4(n as int, t, tr * n + tc - 1));
            }
            offer_cell(n, tr * n + (tc - 1), reg_id, regions, &mut queue, Ghost(trees@));
        }
        if tc + 1 < n {
            proof {
                lemma_cell_index(n as int, tr as int, tc + 1);
                assert(adjacent4(n as int, t, tr * n + tc + 1));
            }
            offer_cell(n, tr * n + (tc + 1), reg_id, regions, &mut queue, Ghost(trees@));
        }
        proof {
            assert(queue@ == neighbours_offered(n as int, regions@, q_start, tr as int, tc as int, reg_id as int));
        }
    }
    proof {
        assert(queue@ == seed_queue(n as int, trees@, regions@, n as int));
    }
    let mut head: usize = 0;
    while head < queue.len()
        invariant
            2 <= n <= 32,
            n * n <= 1024,
            trees_on_board(n as int, trees@),
            build_state(n as int, trees@, regions@, sizes@),
            forall|g: int| n <= g < MAX_N ==> #[trigger] sizes@[g] == old(sizes)@[g],
            flood_queue_ok(n as int, trees@, regions@, queue@),
            head <= queue@.len(),
            flood_run(n as int, elim_time@, regions@, sizes@, queue@, head as int) == target,
        decreases MAX_CELLS - head,
    {
        let ghost r_h = regions@;
        let ghost s_h = sizes@;
        let ghost q_h = queue@;
        let ghost h0 = head as int;
        let (idx_u16, reg_u16) = queue[head];
        head = head + 1;
        let idx = idx_u16 as usize;
        let reg_id = reg_u16 as usize;
        proof {
            assert(queue@[head - 1] == (idx_u16, reg_u16));
        }
        if regions[idx] == -1 && elim_time[idx] < reg_id as i16 {
            let ghost r0 = regions@;
            let ghost q0 = queue@;
            proof {
                if trees_distinct(trees@) {
                    assert(has_labelled_neighbor(n as int, r0, idx as int, reg_id as int));
                    let y = choose|y: int| 0 <= y < n * n && adjacent4(n as int, y, idx as int) && #[trigger] r0[y] == reg_id as int;
                    lemma_assign(n as int, trees@, r0, sizes@, idx as int, reg_id as int, y);
                } else {
                    lemma_assign(n as int, trees@, r0, sizes@, idx as int, reg_id as int, 0);
                }
            }
            regions[idx] = reg_id as i16;
            sizes[reg_id] = sizes[reg_id] + 1;
            proof {
                if trees_distinct(trees@) {
                    assert forall|k: int| 0 <= k < q0.len() implies
                        has_labelled_neighbor(n as int, regions@, (#[trigger] q0[k]).0 as int, q0[k].1 as int) by {
                        lemma_neighbor_persists(n as int, r0, idx as int, reg_id as i16, q0[k].0 as int, q0[k].1 as int);
                    }
                }
                lemma_index_cell(n as int, idx as int);
            }
            let r = idx / n;
            let c = idx % n;
            if r > 0 {
                proof {
                    lemma_cell_index(n as int, r - 1, c as int);
                    assert((r - 1) * n == r * n - n) by (nonlinear_arith);
                    assert(adjacent4(n as int, idx as int, idx - n));
                    assert(regions@[idx as int] == reg_id as int);
                }
                offer_cell(n, idx - n, reg_id, regions, &mut queue, Ghost(trees@));
            }
            if r + 1 < n {
                proof {
                    lemma_cell_index(n as int, r + 1, c as int);
                    assert((r + 1) * n == r * n + n) by (nonlinear_arith);
                    assert(adjacent4(n as int, idx as int, idx + n));
                    assert(regions@[idx as int] == reg_id as int);
                }
                offer_cell(n, idx + n, reg_id, regions, &mut queue, Ghost(trees@));
            }
            if c > 0 {
                proof {
                    lemma_cell_index(n as int, r as int, c - 1);
                    assert(adjacent4(n as int, idx as int, idx - 1));
                    assert(regions@[idx as int] == reg_id as int);
                }
                offer_cell(n, idx - 1, reg_id, regions, &mut queue, Ghost(trees@));
            }
            if c + 1 < n {
                proof {
                    lemma_cell_index(n as int, r as int, c + 1);
                    assert(adjacent4(n as int, idx as int, idx + 1));
                    assert(regions@[idx as int] == reg_id as int);
                }
                offer_cell(n, idx + 1, reg_id, regions, &mut queue, Ghost(trees@));
            }
            proof {
                assert(idx as int == r * n + c);
                assert((r as int - 1) * n + c == idx - n) by (nonlinear_arith)
                    requires idx as int == r * n + c;
                assert((r as int + 1) * n + c == idx + n) by (nonlinear_arith)
                    requires idx as int == r * n + c;
                assert(queue@ == neighbours_offered(n as int, regions@, q_h, idx as int / n as int, idx as int % n as int, reg_id as int));
                assert(regions@ == r_h.update(idx as int, reg_id as i16));
                assert(sizes@ == s_h.update(reg_id as int, (s_h[reg_id as int] + 1) as usize));
            }
        }
        proof {
            assert(q_h.len() <= MAX_CELLS);
            assert(flood_run(n as int, elim_time@, r_h, s_h, q_h, h0) == flood_run(n as int, elim_time@, regions@, sizes@, queue@, head as int));
        }
    }
    proof {
        assert(flood_run(n as int, elim_time@, regions@, sizes@, queue@, head as int) == (regions@, sizes@));
    }
}

/// The larger of two labels.
pub open spec fn max_label(a: i16, b: i16) -> i16 {
    if a > b { a } else { b }
}

/// The label of the neighbour of cell `idx` above (0), below (1), to the left
/// (2) or to the right (3), or `-1` off the board.
pub open spec fn neighbour_label(n: int, regions: Seq<i16>, idx: int, dir: int) -> i16 {
    let r = idx / n;
    let c = idx % n;
    if dir == 0 {
        if r > 0 { regions[idx - n] } else { -1i16 }
    } else if dir == 1 {
        if r + 1 < n { regions[idx + n] } else { -1i16 }
    } else if dir == 2 {
        if c > 0 { regions[idx - 1] } else { -1i16 }
    } else {
        if c + 1 < n { regions[idx + 1] } else { -1i16 }
    }
}

/// A neighbour label a straggler with elimination time `elim` may prefer:
/// a region of index at least 2 above `elim`, else `-1`.
pub open spec fn preferred(v: i16, elim: i16) -> i16 {
    if v >= 2 && elim < v { v } else { -1i16 }
}

/// The label a straggler cell `idx` with elimination time `elim` takes: the
/// largest preferred neighbour label, else the largest neighbour label
/// (`-1` when no neighbour is labelled).
pub open spec fn straggler_choice(n: int, regions: Seq<i16>, idx: int, elim: i16) -> i16 {
    let u = neighbour_label(n, regions, idx, 0);
    let d = neighbour_label(n, regions, idx, 1);
    let l = neighbour_label(n, regions, idx, 2);
    let r = neighbour_label(n, regions, idx, 3);
    let mv = max_label(max_label(max_label(preferred(u, elim), preferred(d, elim)), preferred(l, elim)), preferred(r, elim));
    if mv != -1i16 { mv } else { max_label(max_label(max_label(u, d), l), r) }
}

/// The label a straggler cell takes from its neighbours: the largest label
/// of index at least 2 that exceeds the cell's elimination time, otherwise
/// the largest label, otherwise `-1` when no neighbour is labelled.
fn straggler_label(n: usize, idx: usize, regions: &[i16; MAX_CELLS], elim: i16) -> (chosen: i16)
    requires
        0 < n <= 32,
        idx < n * n,
        labels_ok(n as int, regions@),
    ensures
        chosen == straggler_choice(n as int, regions@, idx as int, elim),
        chosen == -1 ==> forall|y: int| 0 <= y < n * n && adjacent4(n as int, y, idx as int) ==> #[trigger] regions@[y] == -1,
        chosen != -1 ==> 0 <= chosen < n && has_labelled_neighbor(n as int, regions@, idx as int, chosen as int),
{
    proof {
        assert(n * n <= 1024) by (nonlinear_arith)
            requires n <= 32;
        lemma_index_cell(n as int, idx as int);
    }
    let r = idx / n;
    let c = idx % n;
    let mut max_valid: i16 = -1;
    let mut max_adj: i16 = -1;
    let ghost mut w_valid: int = -1;
    let ghost mut w_adj: int = -1;
    let ghost inv = |mv: i16, ma: i16, wv: int, wa: int|
        (mv != -1 ==> mv >= 2 && 0 <= wv < n * n && adjacent4(n as int, wv, idx as int) && regions@[wv] == mv)
        && (ma != -1 ==> 0 <= wa < n * n && adjacent4(n as int, wa, idx as int) && regions@[wa] == ma);
    if r > 0 {
        proof {
            lemma_cell_index(n as int, r - 1, c as int);
            assert((r - 1) * n == r * n - n) by (nonlinear_arith);
        }
        let n_reg = regions[idx - n];
        if n_reg != -1 {
            if n_reg > max_adj {
                max_adj = n_reg;
                proof { w_adj = idx - n; }
            }
            if n_reg >= 2 && elim < n_reg && n_reg > max_valid {
                max_valid = n_reg;
                proof { w_valid = idx - n; }
            }
        }
    }
    let ghost up_done = r > 0;
    if r + 1 < n {
        proof {
            lemma_cell_index(n as int, r + 1, c as int);
            assert((r + 1) * n == r * n + n) by (nonlinear_arith);
        }
        let n_reg = regions[idx + n];
        if n_reg != -1 {
            if n_reg > max_adj {
                max_adj = n_reg;
                proof { w_adj = idx + n; }
            }
            if n_reg >= 2 && elim < n_reg && n_reg > max_valid {
                max_valid = n_reg;
                proof { w_valid = idx + n; }
            }
        }
    }
    if c > 0 {
        proof {
            lemma_cell_index(n as int, r as int, c - 1);
        }
        let n_reg = regions[idx - 1];
        if n_reg != -1 {
            if n_reg > max_adj {
                max_adj = n_reg;
                proof { w_adj = idx - 1; }
            }
            if n_reg >= 2 && elim < n_reg && n_reg > max_valid {
                max_valid = n_reg;
                proof { w_valid = idx - 1; }
            }
        }
    }
    if c + 1 < n {
        proof {
            lemma_cell_index(n as int, r as int, c + 1);
        }
        let n_reg = regions[idx + 1];
        if n_reg != -1 {
            if n_reg > max_adj {
                max_adj = n_reg;
                proof { w_adj = idx + 1; }
            }
            if n_reg >= 2 && elim < n_reg && n_reg > max_valid {
                max_valid = n_reg;
                proof { w_valid = idx + 1; }
            }
        }
    }
    proof {
        assert forall|y: int| 0 <= y < n * n && adjacent4(n as int, y, idx as int) && #[trigger] regions@[y] != -1 implies max_adj != -1 by {
            crate::connectivity::lemma_adjacent_symmetric(n as int, y, idx as int);
            crate::connectivity::lemma_adjacent_cases(n as int, idx as int, y);
            assert(regions@[y] >= 0);
        }
    }
    let chosen = if max_valid != -1 { max_valid } else { max_adj };
    proof {
        if chosen != -1 {
            if max_valid != -1 {
                assert(regions@[w_valid] == chosen);
            } else {
                assert(regions@[w_adj] == chosen);
            }
        }
    }
    chosen
}

/// Two cells of the board, one labelled and one not, are joined by a walk
/// along which a labelled cell neighbours an unlabelled one.
proof fn lemma_boundary(n: int, regions: Seq<i16>, a: int, b: int)
    requires
        0 < n,
        n * n <= regions.len(),
        0 <= a < n * n,
        0 <= b < n * n,
        regions[a] != -1,
        regions[b] == -1,
    ensures
        exists|x: int, y: int| 0 <= x < n * n && 0 <= y < n * n && adjacent4(n, x, y)
            && #[trigger] regions[x] != -1 && #[trigger] regions[y] == -1,
    decreases (if row_of(n, a) > row_of(n, b) { row_of(n, a) - row_of(n, b) } else { row_of(n, b) - row_of(n, a) })
        + (if col_of(n, a) > col_of(n, b) { col_of(n, a) - col_of(n, b) } else { col_of(n, b) - col_of(n, a) }),
{
    lemma_index_cell(n, a);
    lemma_index_cell(n, b);
    let ra = row_of(n, a);
    let ca = col_of(n, a);
    let rb = row_of(n, b);
    let cb = col_of(n, b);
    let (rc, cc) = if ra < rb { (ra + 1, ca) } else if ra > rb { (ra - 1, ca) } else if ca < cb { (ra, ca + 1) } else { (ra, ca - 1) };
    if ra == rb && ca == cb {
        crate::grid::lemma_index_unique(n, a, b);
    } else {
        lemma_cell_index(n, rc, cc);
        let c = cell_index(n, rc, cc);
        assert(adjacent4(n, a, c));
        if regions[c] == -1 {
            assert(adjacent4(n, a, c) && regions[a] != -1 && regions[c] == -1);
        } else {
            lemma_boundary(n, regions, c, b);
        }
    }
}

/// Cell `x` is among `list[lo .. hi]`.
pub open spec fn listed(list: Seq<u16>, lo: int, hi: int, x: int) -> bool {
    exists|m: int| lo <= m < hi && #[trigger] list[m] as int == x
}

/// Sequences with the same multiset hold the same elements.
proof fn lemma_same_multiset_contains(a: Seq<u16>, b: Seq<u16>, x: u16)
    requires
        a.to_multiset() == b.to_multiset(),
        a.contains(x),
    ensures
        b.contains(x),
{
    broadcast use vstd::seq_lib::group_to_multiset_ensures;
    assert(a.to_multiset().count(x) > 0);
    assert(b.to_multiset().count(x) > 0);
}

/// The cells whose elimination time is `k`.
pub open spec fn time_is(elim: Seq<i16>, k: i16) -> spec_fn(u16) -> bool {
    |v: u16| elim[v as int] == k
}

/// The cells of `s` whose elimination time is `k`, in their order.
#[verifier::opaque]
pub open spec fn by_time(s: Seq<u16>, elim: Seq<i16>, k: i16) -> Seq<u16> {
    s.filter(time_is(elim, k))
}

/// The cells of `s` are in order of elimination time.
pub open spec fn sorted_by_time(elim: Seq<i16>, s: Seq<u16>) -> bool {
    forall|a: int, b: int| 0 <= a < b < s.len() ==> elim[(#[trigger] s[a]) as int] <= elim[(#[trigger] s[b]) as int]
}

/// Filtering one element keeps it exactly when it satisfies the predicate.
proof fn lemma_filter_one(x: u16, pred: spec_fn(u16) -> bool)
    ensures
        seq![x].filter(pred) == if pred(x) { seq![x] } else { Seq::<u16>::empty() },
{
    reveal(Seq::filter);
    assert(seq![x].drop_last() =~= Seq::<u16>::empty());
    assert(Seq::<u16>::empty().filter(pred) =~= Seq::<u16>::empty());
}

/// A sequence none of whose elements satisfies the predicate filters to nothing.
proof fn lemma_filter_none(s: Seq<u16>, pred: spec_fn(u16) -> bool)
    requires
        forall|m: int| 0 <= m < s.len() ==> !pred(#[trigger] s[m]),
    ensures
        s.filter(pred) == Seq::<u16>::empty(),
    decreases s.len(),
{
    reveal(Seq::filter);
    if s.len() > 0 {
        assert forall|m: int| 0 <= m < s.drop_last().len() implies !pred(#[trigger] s.drop_last()[m]) by {
            assert(s.drop_last()[m] == s[m]);
        }
        lemma_filter_none(s.drop_last(), pred);
    }
}

/// Sorts `list` by elimination time, exchanging neighbours (insertion sort):
/// the result is in order of time and, time by time, keeps the order of the
/// cells it was given (a stable sort).
#[verifier::rlimit(100)]
#[verifier::spinoff_prover]
fn sort_by_elimination(list: &mut Vec<u16>, elim_time: &[i16; MAX_CELLS])
    requires
        old(list)@.len() > 0,
        forall|k: int| 0 <= k < old(list)@.len() ==> (#[trigger] old(list)@[k]) < MAX_CELLS,
    ensures
        final(list)@.len() == old(list)@.len(),
        final(list)@.to_multiset() == old(list)@.to_multiset(),
        sorted_by_time(elim_time@, final(list)@),
        forall|k: i16| #[trigger] by_time(final(list)@, elim_time@, k) == by_time(old(list)@, elim_time@, k),
{
    let len = list.len();
    let ghost orig = list@;
    let ghost e = elim_time@;
    proof {
        broadcast use vstd::seq_lib::group_to_multiset_ensures;
        assert(list@.take(1) =~= orig.take(1));
        assert(list@.subrange(1, len as int) =~= orig.subrange(1, len as int));
        assert forall|k: i16| #[trigger] by_time(list@.take(1), e, k) == by_time(orig.take(1), e, k) by {}
        assert forall|a: int, b: int| 0 <= a < b < list@.take(1).len() implies
            e[(#[trigger] list@.take(1)[a]) as int] <= e[(#[trigger] list@.take(1)[b]) as int] by {}
    }
    let mut i: usize = 1;
    while i < len
        invariant
            1 <= i <= len,
            len == list@.len(),
            len == orig.len(),
            e == elim_time@,
            list@.to_multiset() == orig.to_multiset(),
            forall|k: int| 0 <= k < orig.len() ==> (#[trigger] orig[k]) < MAX_CELLS,
            list@.subrange(i as int, len as int) == orig.subrange(i as int, len as int),
            sorted_by_time(e, list@.take(i as int)),
            forall|k: i16| #[trigger] by_time(list@.take(i as int), e, k) == by_time(orig.take(i as int), e, k),
        decreases len - i,
    {
        let ghost pre = list@.take(i as int);
        let ghost x = orig[i as int];
        let ghost rest = orig.subrange(i + 1, len as int);
        proof {
            assert(list@ =~= list@.take(i as int) + list@.subrange(i as int, len as int));
            assert(orig.subrange(i as int, len as int) =~= seq![x] + rest);
            assert(list@ =~= pre + seq![x] + rest);
            assert forall|k: i16| #[trigger] by_time(pre, e, k) == by_time(orig.take(i as int), e, k) by {
                assert(by_time(list@.take(i as int), e, k) == by_time(orig.take(i as int), e, k));
            }
            assert(sorted_by_time(e, pre));
        }
        let mut j = i;
        let mut moving = true;
        while j > 0 && moving
            invariant
                len == list@.len(),
                j <= i < len,
                e == elim_time@,
                pre.len() == i,
                list@.to_multiset() == orig.to_multiset(),
                forall|k: int| 0 <= k < orig.len() ==> (#[trigger] orig[k]) < MAX_CELLS,
                list@ == pre.take(j as int) + seq![x] + pre.subrange(j as int, i as int) + rest,
                forall|m: int| j <= m < i ==> e[(#[trigger] pre[m]) as int] > e[x as int],
                !moving ==> j > 0 && e[pre[j - 1] as int] <= e[x as int],
            decreases j + if moving { 1int } else { 0int },
        {
            proof {
                broadcast use vstd::seq_lib::group_to_multiset_ensures;
                assert(list@.contains(list@[j - 1]));
                assert(list@.contains(list@[j as int]));
                lemma_same_multiset_contains(list@, orig, list@[j - 1]);
                lemma_same_multiset_contains(list@, orig, list@[j as int]);
                assert(list@[j - 1] == pre[j - 1]);
                assert(list@[j as int] == x);
            }
            if elim_time[list[j - 1] as usize] > elim_time[list[j] as usize] {
                let ghost before = list@;
                list.as_mut_slice().swap(j - 1, j);
                proof {
                    crate::rng::lemma_swap_permutes(before, j - 1, j as int);
                    assert(list@ =~= pre.take(j - 1) + seq![x] + pre.subrange(j - 1, i as int) + rest);
                }
                j = j - 1;
            } else {
                moving = false;
            }
        }
        proof {
            let a = pre.take(j as int);
            let b = pre.subrange(j as int, i as int);
            let np = list@.take(i + 1);
            assert(np =~= a + seq![x] + b);
            assert(list@.subrange(i + 1, len as int) =~= rest);
            assert(pre =~= a + b);
            assert(orig.take(i + 1) =~= orig.take(i as int) + seq![x]);
            assert forall|p: int, q: int| 0 <= p < q < np.len() implies e[(#[trigger] np[p]) as int] <= e[(#[trigger] np[q]) as int] by {
                if q < j {
                    assert(np[p] == pre[p] && np[q] == pre[q]);
                } else if q == j {
                    assert(np[q] == x);
                    assert(np[p] == pre[p]);
                    assert(e[pre[p] as int] <= e[pre[j - 1] as int]);
                } else if p == j {
                    assert(np[p] == x);
                    assert(np[q] == pre[q - 1]);
                } else if p < j {
                    assert(np[p] == pre[p]);
                    assert(np[q] == pre[q - 1]);
                } else {
                    assert(np[p] == pre[p - 1]);
                    assert(np[q] == pre[q - 1]);
                }
            }
            assert forall|k: i16| #[trigger] by_time(np, e, k) == by_time(orig.take(i + 1), e, k) by {
                reveal(by_time);
                let pk = time_is(e, k);
                Seq::filter_distributes_over_add(a + seq![x], b, pk);
                Seq::filter_distributes_over_add(a, seq![x], pk);
                Seq::filter_distributes_over_add(a, b, pk);
                Seq::filter_distributes_over_add(orig.take(i as int), seq![x], pk);
                lemma_filter_one(x, pk);
                assert(by_time(pre, e, k) == by_time(orig.take(i as int), e, k));
                assert(pre.filter(pk) == orig.take(i as int).filter(pk));
                if pk(x) {
                    assert forall|m: int| 0 <= m < b.len() implies !pk(#[trigger] b[m]) by {
                        assert(b[m] == pre[j + m]);
                    }
                    lemma_filter_none(b, pk);
                    assert(np.filter(pk) =~= orig.take(i + 1).filter(pk));
                } else {
                    assert(np.filter(pk) =~= orig.take(i + 1).filter(pk));
                }
            }
        }
        i = i + 1;
    }
    proof {
        assert(list@.take(len as int) =~= list@);
        assert(orig.take(len as int) =~= orig);
        assert forall|k: i16| #[trigger] by_time(list@, e, k) == by_time(orig, e, k) by {
            assert(by_time(list@.take(len as int), e, k) == by_time(orig.take(len as int), e, k));
        }
    }
}

/// Two sequences in order of elimination time that hold, time by time, the
/// same cells in the same order are equal.
proof fn lemma_time_order_unique(e: Seq<i16>, o1: Seq<u16>, o2: Seq<u16>)
    requires
        sorted_by_time(e, o1),
        sorted_by_time(e, o2),
        forall|k: i16| #[trigger] by_time(o1, e, k) == by_time(o2, e, k),
    ensures
        o1 == o2,
    decreases o1.len() + o2.len(),
{
    reveal(by_time);
    reveal(Seq::filter);
    if o1.len() > 0 {
        let k1 = e[o1.last() as int];
        assert(by_time(o1, e, k1).len() > 0);
        assert(by_time(o2, e, k1).len() > 0);
    }
    if o2.len() > 0 {
        let k2 = e[o2.last() as int];
        assert(by_time(o2, e, k2).len() > 0);
        assert(by_time(o1, e, k2).len() > 0);
    }
    if o1.len() > 0 && o2.len() > 0 {
        let x1 = o1.last();
        let x2 = o2.last();
        let k1 = e[x1 as int];
        let k2 = e[x2 as int];
        let f21 = by_time(o1, e, k2);
        assert(by_time(o2, e, k2).last() == x2);
        assert(f21.last() == x2);
        assert(f21[f21.len() - 1] == x2);
        assert(f21.contains(x2));
        o1.lemma_filter_contains_rev(time_is(e, k2), x2);
        let a = choose|a: int| 0 <= a < o1.len() && o1[a] == x2;
        if a < o1.len() - 1 {
            assert(e[o1[a] as int] <= e[o1[o1.len() - 1] as int]);
        }
        let f12 = by_time(o2, e, k1);
        assert(by_time(o1, e, k1).last() == x1);
        assert(f12.last() == x1);
        assert(f12[f12.len() - 1] == x1);
        assert(f12.contains(x1));
        o2.lemma_filter_contains_rev(time_is(e, k1), x1);
        let b = choose|b: int| 0 <= b < o2.len() && o2[b] == x1;
        if b < o2.len() - 1 {
            assert(e[o2[b] as int] <= e[o2[o2.len() - 1] as int]);
        }
        assert(k1 == k2);
        assert(x1 == x2);
        let d1 = o1.drop_last();
        let d2 = o2.drop_last();
        assert forall|k: i16| #[trigger] by_time(d1, e, k) == by_time(d2, e, k) by {
            assert(by_time(o1, e, k) == by_time(o2, e, k));
            if k == k1 {
                assert(by_time(d1, e, k) =~= by_time(o1, e, k).drop_last());
                assert(by_time(d2, e, k) =~= by_time(o2, e, k).drop_last());
            }
        }
        assert(sorted_by_time(e, d1));
        assert(sorted_by_time(e, d2));
        lemma_time_order_unique(e, d1, d2);
        assert(o1 =~= d1.push(x1));
        assert(o2 =~= d2.push(x2));
    }
}

/// The cells of `s` in order of elimination time, keeping, time by time,
/// their order in `s`.
pub open spec fn time_order(s: Seq<u16>, e: Seq<i16>) -> Seq<u16> {
    choose|o: Seq<u16>| sorted_by_time(e, o) && forall|k: i16| #[trigger] by_time(o, e, k) == by_time(s, e, k)
}

/// A sequence in order of elimination time that holds, time by time, the
/// cells of `s` in their order is `time_order(s, e)`.
proof fn lemma_time_order(s: Seq<u16>, e: Seq<i16>, o: Seq<u16>)
    requires
        sorted_by_time(e, o),
        forall|k: i16| #[trigger] by_time(o, e, k) == by_time(s, e, k),
    ensures
        time_order(s, e) == o,
{
    let t = time_order(s, e);
    assert(sorted_by_time(e, t) && forall|k: i16| #[trigger] by_time(t, e, k) == by_time(s, e, k));
    assert forall|k: i16| #[trigger] by_time(o, e, k) == by_time(t, e, k) by {
        assert(by_time(o, e, k) == by_time(s, e, k));
        assert(by_time(t, e, k) == by_time(s, e, k));
    }
    lemma_time_order_unique(e, o, t);
}

/// The unassigned cells among `0 .. k`, in index order.
pub open spec fn pending(regions: Seq<i16>, k: int) -> Seq<u16>
    decreases k,
{
    if k <= 0 {
        Seq::empty()
    } else if regions[k - 1] == -1 {
        pending(regions, k - 1).push((k - 1) as u16)
    } else {
        pending(regions, k - 1)
    }
}

/// One sweep over the straggler list: each cell still unassigned takes the
/// label `straggler_choice` gives it, or stays in the list when that is
/// `-1`. The labels after the sweep, the cells kept, and whether any cell
/// was assigned.
pub open spec fn sweep(n: int, regions: Seq<i16>, elim: Seq<i16>, list: Seq<u16>) -> (Seq<i16>, Seq<u16>, bool)
    decreases list.len(),
{
    if list.len() == 0 {
        (regions, Seq::empty(), false)
    } else {
        let idx = list[0] as int;
        if regions[idx] == -1 {
            let ch = straggler_choice(n, regions, idx, elim[idx]);
            if ch != -1 {
                let t = sweep(n, regions.update(idx, ch), elim, list.drop_first());
                (t.0, t.1, true)
            } else {
                let t = sweep(n, regions, elim, list.drop_first());
                (t.0, seq![list[0]] + t.1, t.2)
            }
        } else {
            sweep(n, regions, elim, list.drop_first())
        }
    }
}

/// A sweep keeps at most the cells it was given, and fewer when it assigns one.
pub proof fn lemma_sweep_len(n: int, regions: Seq<i16>, elim: Seq<i16>, list: Seq<u16>)
    ensures
        sweep(n, regions, elim, list).1.len() + (if sweep(n, regions, elim, list).2 { 1int } else { 0int }) <= list.len(),
    decreases list.len(),
{
    if list.len() > 0 {
        let idx = list[0] as int;
        lemma_sweep_len(n, regions, elim, list.drop_first());
        if regions[idx] == -1 {
            lemma_sweep_len(n, regions.update(idx, straggler_choice(n, regions, idx, elim[idx])), elim, list.drop_first());
        }
    }
}

/// Sweeps over the straggler list until a sweep assigns nothing or no
/// cell is left; the labels at the end.
pub open spec fn drain_sweeps(n: int, regions: Seq<i16>, elim: Seq<i16>, list: Seq<u16>) -> Seq<i16>
    decreases list.len(),
{
    if list.len() == 0 {
        regions
    } else {
        let t = sweep(n, regions, elim, list);
        if !t.2 || t.1.len() == 0 {
            t.0
        } else {
            proof {
                lemma_sweep_len(n, regions, elim, list);
            }
            drain_sweeps(n, t.0, elim, t.1)
        }
    }
}

/// The labels once the stragglers of `regions` have been drained.
pub open spec fn drained(n: int, regions: Seq<i16>, elim: Seq<i16>) -> Seq<i16> {
    drain_sweeps(n, regions, elim, time_order(pending(regions, n * n), elim))
}

/// Assigns the cells left unassigned, in order of elimination time, each to
/// a region of a neighbour (see `straggler_label`), sweeping until a sweep
/// assigns nothing; every cell of the board ends up assigned.
fn drain_stragglers(
    n: usize,
    trees: &[(usize, usize)],
    elim_time: &[i16; MAX_CELLS],
    regions: &mut [i16; MAX_CELLS],
    sizes: &mut [usize; MAX_N],
)
    requires
        2 <= n <= 32,
        trees_on_board(n as int, trees@),
        build_state(n as int, trees@, old(regions)@, old(sizes)@),
    ensures
        build_state(n as int, trees@, final(regions)@, final(sizes)@),
        forall|g: int| n <= g < MAX_N ==> #[trigger] final(sizes)@[g] == old(sizes)@[g],
        forall|j: int| 0 <= j < n * n ==> #[trigger] final(regions)@[j] != -1,
        final(regions)@ == drained(n as int, old(regions)@, elim_time@),
{
    proof {
        assert(n * n <= 1024) by (nonlinear_arith)
            requires n <= 32;
    }
    let total = n * n;
    let ghost r_init = regions@;
    let ghost target = drained(n as int, r_init, elim_time@);
    let mut unassigned: Vec<u16> = Vec::new();
    for idx in 0..total
        invariant
            total == n * n,
            total <= 1024,
            regions@ == r_init,
            unassigned@ == pending(r_init, idx as int),
            forall|k: int| 0 <= k < unassigned@.len() ==> (#[trigger] unassigned@[k]) < total,
            forall|x: int| 0 <= x < idx && #[trigger] regions@[x] == -1 ==> listed(unassigned@, 0, unassigned@.len() as int, x),
    {
        if regions[idx] == -1 {
            let ghost u_old = unassigned@;
            unassigned.push(idx as u16);
            proof {
                let u = unassigned@;
                assert(u[u.len() - 1] as int == idx);
                assert forall|x: int| 0 <= x < idx + 1 && #[trigger] regions@[x] == -1 implies listed(u, 0, u.len() as int, x) by {
                    if x < idx {
                        let m = choose|m: int| 0 <= m < u_old.len() && #[trigger] u_old[m] as int == x;
                        assert(u[m] == u_old[m]);
                    }
                }
            }
        }
    }
    let mut len = unassigned.len();
    if len == 0 {
        proof {
            let empty = Seq::<u16>::empty();
            assert(unassigned@ =~= empty);
            lemma_time_order(empty, elim_time@, empty);
        }
    }
    if len > 0 {
        let ghost before_sort = unassigned@;
        sort_by_elimination(&mut unassigned, elim_time);
        proof {
            broadcast use vstd::seq_lib::group_to_multiset_ensures;
            lemma_time_order(before_sort, elim_time@, unassigned@);
            assert(unassigned@.take(len as int) =~= unassigned@);
            let u = unassigned@;
            assert forall|k: int| 0 <= k < u.len() implies (#[trigger] u[k]) < total by {
                assert(u.contains(u[k]));
                lemma_same_multiset_contains(u, before_sort, u[k]);
                let m = choose|m: int| 0 <= m < before_sort.len() && before_sort[m] == u[k];
            }
            assert forall|x: int| 0 <= x < total && #[trigger] regions@[x] == -1 implies listed(u, 0, len as int, x) by {
                let m = choose|m: int| 0 <= m < before_sort.len() && #[trigger] before_sort[m] as int == x;
                assert(before_sort.contains(before_sort[m]));
                lemma_same_multiset_contains(before_sort, u, before_sort[m]);
                let k = choose|k: int| 0 <= k < u.len() && u[k] == before_sort[m];
                assert(u[k] as int == x);
            }
        }
        let mut go = true;
        while go
            invariant
                2 <= n <= 32,
                total == n * n,
                total <= 1024,
                trees_on_board(n as int, trees@),
                build_state(n as int, trees@, regions@, sizes@),
                forall|g: int| n <= g < MAX_N ==> #[trigger] sizes@[g] == old(sizes)@[g],
                len <= unassigned@.len(),
                forall|k: int| 0 <= k < len ==> (#[trigger] unassigned@[k]) < total,
                forall|x: int| 0 <= x < total && #[trigger] regions@[x] == -1 ==> listed(unassigned@, 0, len as int, x),
                go ==> len > 0,
                go ==> drain_sweeps(n as int, regions@, elim_time@, unassigned@.take(len as int)) == target,
                !go ==> regions@ == target,
                target == drained(n as int, r_init, elim_time@),
                !go ==> (len == 0 || forall|w: int, y: int| 0 <= w < len && 0 <= y < total
                    && adjacent4(n as int, y, #[trigger] unassigned@[w] as int) ==> #[trigger] regions@[y] == -1),
            decreases len + (if go { 1int } else { 0int }),
        {
            let mut progress = false;
            let mut write_pos: usize = 0;
            let ghost start = unassigned@;
            let ghost goal = sweep(n as int, regions@, elim_time@, start.take(len as int));
            proof {
                assert(start.subrange(0, len as int) =~= start.take(len as int));
                assert(unassigned@.take(0) + goal.1 =~= goal.1);
            }
            for read_pos in 0..len
                invariant
                    sweep(n as int, regions@, elim_time@, start.subrange(read_pos as int, len as int)).0 == goal.0,
                    unassigned@.take(write_pos as int) + sweep(n as int, regions@, elim_time@,
                        start.subrange(read_pos as int, len as int)).1 == goal.1,
                    (progress || sweep(n as int, regions@, elim_time@, start.subrange(read_pos as int, len as int)).2) == goal.2,
                    2 <= n <= 32,
                    total == n * n,
                    total <= 1024,
                    trees_on_board(n as int, trees@),
                    build_state(n as int, trees@, regions@, sizes@),
                    forall|g: int| n <= g < MAX_N ==> #[trigger] sizes@[g] == old(sizes)@[g],
                    len <= unassigned@.len(),
                    unassigned@.len() == start.len(),
                    write_pos + (if progress { 1int } else { 0int }) <= read_pos,
                    forall|m: int| read_pos <= m < len ==> #[trigger] unassigned@[m] == start[m],
                    forall|k: int| 0 <= k < len ==> (#[trigger] start[k]) < total,
                    forall|k: int| 0 <= k < write_pos ==> (#[trigger] unassigned@[k]) < total,
                    forall|x: int| 0 <= x < total && #[trigger] regions@[x] == -1 ==>
                        listed(unassigned@, read_pos as int, len as int, x) || listed(unassigned@, 0, write_pos as int, x),
                    !progress ==> forall|w: int, y: int| 0 <= w < write_pos && 0 <= y < total
                        && adjacent4(n as int, y, #[trigger] unassigned@[w] as int) ==> #[trigger] regions@[y] == -1,
            {
                let idx = unassigned[read_pos] as usize;
                proof {
                    assert(unassigned@[read_pos as int] == start[read_pos as int]);
                    lemma_state_facts(n as int, trees@, regions@, sizes@);
                }
                let ghost u0 = unassigned@;
                let ghost r0 = regions@;
                let ghost sub = start.subrange(read_pos as int, len as int);
                let ghost sw0 = sweep(n as int, r0, elim_time@, sub);
                proof {
                    assert(sub.drop_first() =~= start.subrange(read_pos + 1, len as int));
                    assert(sub[0] == start[read_pos as int]);
                }
                if regions[idx] == -1 {
                    let chosen = straggler_label(n, idx, regions, elim_time[idx]);
                    if chosen != -1 {
                        proof {
                            let y = choose|y: int| 0 <= y < n * n && adjacent4(n as int, y, idx as int) && #[trigger] r0[y] == chosen;
                            lemma_assign(n as int, trees@, r0, sizes@, idx as int, chosen as int, y);
                        }
                        regions[idx] = chosen;
                        sizes[chosen as usize] = sizes[chosen as usize] + 1;
                        progress = true;
                        proof {
                            assert(regions@ == r0.update(idx as int, chosen));
                            assert(sw0.0 == sweep(n as int, regions@, elim_time@, start.subrange(read_pos + 1, len as int)).0);
                            assert forall|x: int| 0 <= x < total && #[trigger] regions@[x] == -1 implies
                                listed(unassigned@, read_pos + 1, len as int, x) || listed(unassigned@, 0, write_pos as int, x) by {
                                assert(x != idx);
                                assert(r0[x] == -1);
                                if listed(u0, read_pos as int, len as int, x) {
                                    let m = choose|m: int| read_pos <= m < len && #[trigger] u0[m] as int == x;
                                    assert(m != read_pos);
                                }
                            }
                        }
                    } else {
                        unassigned[write_pos] = idx as u16;
                        proof {
                            let u1 = unassigned@;
                            let rest = sweep(n as int, r0, elim_time@, start.subrange(read_pos + 1, len as int));
                            assert(sw0.1 == seq![start[read_pos as int]] + rest.1);
                            assert(u1.take(write_pos + 1) =~= u0.take(write_pos as int) + seq![start[read_pos as int]]);
                            assert(u1.take(write_pos + 1) + rest.1 =~= u0.take(write_pos as int) + sw0.1);
                            assert forall|m: int| read_pos + 1 <= m < len implies #[trigger] u1[m] == start[m] by {
                                assert(u1[m] == u0[m]);
                            }
                            assert forall|x: int| 0 <= x < total && #[trigger] regions@[x] == -1 implies
                                listed(u1, read_pos + 1, len as int, x) || listed(u1, 0, write_pos + 1, x) by {
                                if x == idx {
                                    assert(u1[write_pos as int] as int == x);
                                } else if listed(u0, read_pos as int, len as int, x) {
                                    let m = choose|m: int| read_pos <= m < len && #[trigger] u0[m] as int == x;
                                    assert(m != read_pos);
                                    assert(u1[m] == u0[m]);
                                } else {
                                    let m = choose|m: int| 0 <= m < write_pos && #[trigger] u0[m] as int == x;
                                    assert(u1[m] == u0[m]);
                                }
                            }
                            if !progress {
                                assert forall|w: int, y: int| 0 <= w < write_pos + 1 && 0 <= y < total
                                    && adjacent4(n as int, y, #[trigger] u1[w] as int) implies #[trigger] regions@[y] == -1 by {
                                    if w < write_pos {
                                        assert(u1[w] == u0[w]);
                                    }
                                }
                            }
                        }
                        write_pos = write_pos + 1;
                    }
                } else {
                    proof {
                        assert forall|x: int| 0 <= x < total && #[trigger] regions@[x] == -1 implies
                            listed(unassigned@, read_pos + 1, len as int, x) || listed(unassigned@, 0, write_pos as int, x) by {
                            if listed(u0, read_pos as int, len as int, x) {
                                let m = choose|m: int| read_pos <= m < len && #[trigger] u0[m] as int == x;
                                assert(m != read_pos);
                            }
                        }
                    }
                }
            }
            proof {
                let fin = sweep(n as int, regions@, elim_time@, start.subrange(len as int, len as int));
                assert(start.subrange(len as int, len as int).len() == 0);
                assert(unassigned@.take(write_pos as int) + fin.1 =~= unassigned@.take(write_pos as int));
                assert(start.take(len as int).len() > 0);
            }
            len = write_pos;
            if !progress || len == 0 {
                go = false;
            }
        }
    }
    proof {
        lemma_state_facts(n as int, trees@, regions@, sizes@);
        assert forall|j: int| 0 <= j < n * n implies #[trigger] regions@[j] != -1 by {
            if regions@[j] == -1 {
                let t = tree_index(n as int, trees@[0]);
                lemma_cell_index(n as int, trees@[0].0 as int, trees@[0].1 as int);
                assert(regions@[t] != -1);
                lemma_boundary(n as int, regions@, t, j);
                let (x, y) = choose|x: int, y: int| 0 <= x < n * n && 0 <= y < n * n && adjacent4(n as int, x, y)
                    && #[trigger] regions@[x] != -1 && #[trigger] regions@[y] == -1;
                assert(listed(unassigned@, 0, len as int, y));
                let w = choose|w: int| 0 <= w < len && #[trigger] unassigned@[w] as int == y;
                assert(regions@[x] == -1);
            }
        }
    }
}

/// Tree `t` rules out cell `j`: the cell shares its row or its column, or
/// touches it.
pub open spec fn shadows(n: int, t: (usize, usize), j: int) -> bool {
    ||| row_of(n, j) == t.0
    ||| col_of(n, j) == t.1
    ||| crate::grid::touching(row_of(n, j), col_of(n, j), t.0 as int, t.1 as int)
}

/// The first of the trees `2 .. hi` that rules out cell `j`, or `hi` when
/// none does.
pub open spec fn first_shadow(n: int, trees: Seq<(usize, usize)>, j: int, hi: int) -> int
    decreases hi,
{
    if hi <= 2 {
        hi
    } else {
        let p = first_shadow(n, trees, j, hi - 1);
        if p < hi - 1 {
            p
        } else if shadows(n, trees[hi - 1], j) {
            hi - 1
        } else {
            hi
        }
    }
}

/// The first ruling tree lies between `2` and `hi`.
proof fn lemma_first_shadow_bounds(n: int, trees: Seq<(usize, usize)>, j: int, hi: int)
    requires
        hi >= 2,
    ensures
        2 <= first_shadow(n, trees, j, hi) <= hi,
    decreases hi,
{
    if hi > 2 {
        lemma_first_shadow_bounds(n, trees, j, hi - 1);
    }
}

/// The elimination time of cell `j` once the trees `2 .. hi` have been
/// through: the index of the first of them that rules the cell out, when
/// that is below its time `e`.
pub open spec fn time_after(n: int, trees: Seq<(usize, usize)>, e: i16, j: int, hi: int) -> i16 {
    let f = first_shadow(n, trees, j, hi);
    if 0 <= j < n * n && f < hi && f < e {
        f as i16
    } else {
        e
    }
}

/// For every tree `k >= 2`, lowers to `k` the elimination time of the cells
/// of its row, its column and the cells touching it.
fn set_elimination_times(n: usize, trees: &[(usize, usize)], elim_time: &mut [i16; MAX_CELLS])
    requires
        2 <= n <= 32,
        trees_on_board(n as int, trees@),
    ensures
        final(elim_time)@ == final_times(n as int, trees@, old(elim_time)@),
{
    let ghost e0 = elim_time@;
    for step in 2..n
        invariant
            2 <= n <= 32,
            trees_on_board(n as int, trees@),
            forall|j: int| 0 <= j < MAX_CELLS ==>
                #[trigger] elim_time@[j] == time_after(n as int, trees@, e0[j], j, step as int),
    {
        let (tr, tc) = trees[step];
        proof {
            assert(trees@[step as int] == (tr, tc));
        }
        let s_i = step as i16;
        let ghost e1 = elim_time@;
        lower_box(n, tr, tr, 0, n - 1, s_i, elim_time);
        let ghost e2 = elim_time@;
        lower_box(n, 0, n - 1, tc, tc, s_i, elim_time);
        let ghost e3 = elim_time@;
        let r_min = if tr > 0 { tr - 1 } else { 0 };
        let r_max = if tr + 1 < n { tr + 1 } else { n - 1 };
        let c_min = if tc > 0 { tc - 1 } else { 0 };
        let c_max = if tc + 1 < n { tc + 1 } else { n - 1 };
        lower_box(n, r_min, r_max, c_min, c_max, s_i, elim_time);
        proof {
            assert forall|j: int| 0 <= j < MAX_CELLS implies
                #[trigger] elim_time@[j] == time_after(n as int, trees@, e0[j], j, step + 1) by {
                let f = first_shadow(n as int, trees@, j, step as int);
                assert(e1[j] == time_after(n as int, trees@, e0[j], j, step as int));
                assert(first_shadow(n as int, trees@, j, step + 1) == if f < step { f } else if shadows(n as int, trees@[step as int], j) { step as int } else { step + 1 });
                assert(elim_time@[j] == if in_box(n as int, r_min as int, r_max as int, c_min as int, c_max as int, j) && s_i < e3[j] { s_i } else { e3[j] });
                lemma_first_shadow_bounds(n as int, trees@, j, step as int);
                assert(e2[j] == if in_box(n as int, tr as int, tr as int, 0, n - 1, j) && s_i < e1[j] { s_i } else { e1[j] });
                assert(e3[j] == if in_box(n as int, 0, n - 1, tc as int, tc as int, j) && s_i < e2[j] { s_i } else { e2[j] });
                if 0 <= j < n * n {
                    lemma_index_cell(n as int, j);
                    let inside = in_box(n as int, tr as int, tr as int, 0, n - 1, j)
                        || in_box(n as int, 0, n - 1, tc as int, tc as int, j)
                        || in_box(n as int, r_min as int, r_max as int, c_min as int, c_max as int, j);
                    assert(inside == shadows(n as int, trees@[step as int], j));
                    if f < step {
                        assert(e1[j] <= f);
                        assert(elim_time@[j] == e1[j]);
                    } else if shadows(n as int, trees@[step as int], j) {
                        assert(e1[j] == e0[j]);
                        assert(elim_time@[j] == if s_i < e0[j] { s_i } else { e0[j] });
                    } else {
                        assert(e1[j] == e0[j]);
                        assert(elim_time@[j] == e0[j]);
                    }
                } else {
                    assert(elim_time@[j] == e1[j]);
                }
            }
        }
    }
    proof {
        assert(elim_time@ =~= final_times(n as int, trees@, e0));
    }
}


/// The regions built around trees on distinct cells: tree `k` stands in
/// region `k`, every region is connected, and `sizes[g]` counts the cells of
/// region `g`.
pub open spec fn gadget_regions_ok(n: int, trees: Seq<(usize, usize)>, reg: Seq<int>, sizes: Seq<usize>) -> bool {
    &&& forall|k: int| 0 <= k < n ==> reg[tree_index(n, #[trigger] trees[k])] == k
    &&& regions_all_connected(n, reg)
    &&& forall|g: int| 0 <= g < n ==> #[trigger] sizes[g] == region_size_below(reg, g, n * n)
}

/// The elimination times `e` once the cells of rows `r_lo ..= r_hi` and
/// columns `c_lo ..= c_hi` not labelled `label` are ruled out at time 0.
pub open spec fn box_marked(n: int, r_lo: int, r_hi: int, c_lo: int, c_hi: int, label: i16, regions: Seq<i16>, e: Seq<i16>) -> Seq<i16> {
    Seq::new(
        MAX_CELLS as nat,
        |j: int| if in_box(n, r_lo, r_hi, c_lo, c_hi, j) && regions[j] != label && e[j] > 0 { 0i16 } else { e[j] },
    )
}

/// The cells of region 0 and the generator state after them: the cell of
/// tree 0 alone on "Easy", otherwise a group grown (see `poly_tries`) on the
/// seeded board to a drawn size.
pub open spec fn group0_draw(n: int, trees: Seq<(usize, usize)>, difficulty: Seq<char>, state: u64) -> (Seq<(u8, u8)>, u64) {
    if is_easy(difficulty) {
        (seq![(trees[0].0 as u8, trees[0].1 as u8)], state)
    } else {
        let lo0: nat = if is_medium(difficulty) { 3 } else { 4 };
        let size = range_pick(state, lo0, lo0 + 2);
        poly_tries(n, seeded(n, trees, n), trees[0].0 as int, trees[0].1 as int, size as int,
            range_state(state, lo0, lo0 + 2), 0, Seq::empty())
    }
}

/// `base` with the unassigned cells of `group` labelled 0.
pub open spec fn claim0(n: int, base: Seq<i16>, group: Seq<(u8, u8)>) -> Seq<i16> {
    Seq::new(
        MAX_CELLS as nat,
        |j: int| if base[j] == -1 && group_covers(n, group, group.len() as int, j) { 0i16 } else { base[j] },
    )
}

/// The times after region 0: the cells around tree `t0`, then those of the
/// box of `group`, that are not in region 0 are ruled out at time 0.
pub open spec fn group0_times(n: int, t0: (usize, usize), regions: Seq<i16>, group: Seq<(u8, u8)>) -> Seq<i16> {
    let tr = t0.0 as int;
    let tc = t0.1 as int;
    let e0 = Seq::new(MAX_CELLS as nat, |j: int| 999i16);
    let b = bounds_of(group);
    let around = box_marked(n, if tr > 0 { tr - 1 } else { 0 }, if tr + 1 < n { tr + 1 } else { n - 1 },
        if tc > 0 { tc - 1 } else { 0 }, if tc + 1 < n { tc + 1 } else { n - 1 }, 0, regions, e0);
    box_marked(n, b.0, b.1, b.2, b.3, 0, regions, around)
}

/// Region 1 grown beside tree 1 (see `anchor_from`) to a target size drawn
/// from `state` (2 on "Easy"): the labels, its size and its cells.
pub open spec fn anchor1_result(n: int, trees: Seq<(usize, usize)>, difficulty: Seq<char>, state: u64, regions: Seq<i16>)
    -> (Seq<i16>, int, Seq<(u8, u8)>)
{
    let lo1: nat = if is_medium(difficulty) { 2 } else { 3 };
    let target = if is_easy(difficulty) { 2 } else { range_pick(state, lo1, lo1 + 2) as int };
    let start = seq![(trees[1].0 as u8, trees[1].1 as u8)];
    if target > 1 {
        anchor_from(n, regions, 1, trees[1].0 as int, trees[1].1 as int, target, trees[1].0 != trees[0].0, 0, start)
    } else {
        (regions, 1, start)
    }
}

/// The times after region 1: a group in one row (or a single cell) rules out
/// its row, one in one column its column, and a group within a 2 x 2 box
/// that box, for the cells not in region 1.
pub open spec fn anchor1_times(n: int, regions: Seq<i16>, cells: Seq<(u8, u8)>, e: Seq<i16>) -> Seq<i16> {
    let b = bounds_of(cells);
    let single = cells.len() == 1;
    let e1 = if single || b.0 == b.1 { box_marked(n, b.0, b.0, 0, n - 1, 1, regions, e) } else { e };
    let e2 = if single || b.2 == b.3 { box_marked(n, 0, n - 1, b.2, b.2, 1, regions, e1) } else { e1 };
    if b.1 - b.0 <= 1 && b.3 - b.2 <= 1 { box_marked(n, b.0, b.1, b.2, b.3, 1, regions, e2) } else { e2 }
}

/// The times `e` once the trees `2 .. n` have ruled out their cells.
pub open spec fn final_times(n: int, trees: Seq<(usize, usize)>, e: Seq<i16>) -> Seq<i16> {
    Seq::new(MAX_CELLS as nat, |j: int| time_after(n, trees, e[j], j, n))
}

/// The labels of the layout that `construct_gadget_regions_fast` builds for
/// the trees, the difficulty and the generator state `state`: the seeded
/// board, region 0, region 1, the flood of the other regions from their
/// trees, and the stragglers drained.
#[verifier::opaque]
pub open spec fn gadget_layout(n: int, trees: Seq<(usize, usize)>, difficulty: Seq<char>, state: u64) -> Seq<i16> {
    let g0 = group0_draw(n, trees, difficulty, state);
    let r1 = claim0(n, seeded(n, trees, n), g0.0);
    let e1 = group0_times(n, trees[0], r1, g0.0);
    let a1 = anchor1_result(n, trees, difficulty, g0.1, r1);
    let e3 = final_times(n, trees, anchor1_times(n, a1.0, a1.2, e1));
    let r3 = flood_run(n, e3, a1.0, Seq::new(MAX_N as nat, |g: int| 0usize), seed_queue(n, trees, a1.0, n), 0).0;
    drained(n, r3, e3)
}

/// The labels a flood ends with do not depend on the sizes it counts.
pub proof fn lemma_flood_labels(
    n: int,
    elim: Seq<i16>,
    regions: Seq<i16>,
    s1: Seq<usize>,
    s2: Seq<usize>,
    queue: Seq<(u16, u16)>,
    head: int,
)
    ensures
        flood_run(n, elim, regions, s1, queue, head).0 == flood_run(n, elim, regions, s2, queue, head).0,
    decreases MAX_CELLS - head,
{
    if !(head < 0 || head >= queue.len() || queue.len() > MAX_CELLS) {
        let idx = queue[head].0 as int;
        let g = queue[head].1 as int;
        if regions[idx] == -1 && elim[idx] < g {
            let r2 = regions.update(idx, g as i16);
            lemma_flood_labels(n, elim, r2, s1.update(g, (s1[g] + 1) as usize), s2.update(g, (s2[g] + 1) as usize),
                neighbours_offered(n, r2, queue, idx / n, idx % n, g), head + 1);
        } else {
            lemma_flood_labels(n, elim, regions, s1, s2, queue, head + 1);
        }
    }
}

/// Rules out at time 0 the cells around tree 0 and those of the box of
/// region 0's cells `cells[0 .. len]` that are not in region 0.
fn mark_group0(
    n: usize,
    t0: (usize, usize),
    cells: &[(u8, u8); 64],
    len: usize,
    regions: &[i16; MAX_CELLS],
    elim_time: &mut [i16; MAX_CELLS],
)
    requires
        2 <= n <= 32,
        t0.0 < n,
        t0.1 < n,
        1 <= len <= 64,
        forall|k: int| 0 <= k < len ==> (#[trigger] cells@[k]).0 < n && cells@[k].1 < n,
        forall|j: int| 0 <= j < MAX_CELLS ==> #[trigger] old(elim_time)@[j] == 999,
    ensures
        final(elim_time)@ == group0_times(n as int, t0, regions@, cells@.take(len as int)),
{
    let ghost e0 = elim_time@;
    let (tr0, tc0) = t0;
    let (min_r, max_r, min_c, max_c) = cell_bounds(vstd::array::array_as_slice(cells), len, Ghost(n as int));
    let r0_min = if tr0 > 0 { tr0 - 1 } else { 0 };
    let r0_max = if tr0 + 1 < n { tr0 + 1 } else { n - 1 };
    let c0_min = if tc0 > 0 { tc0 - 1 } else { 0 };
    let c0_max = if tc0 + 1 < n { tc0 + 1 } else { n - 1 };
    mark_box(n, r0_min, r0_max, c0_min, c0_max, 0, regions, elim_time);
    let ghost ea = elim_time@;
    mark_box(n, min_r, max_r, min_c, max_c, 0, regions, elim_time);
    proof {
        assert(e0 =~= Seq::new(MAX_CELLS as nat, |j: int| 999i16));
        assert(ea =~= box_marked(n as int, r0_min as int, r0_max as int, c0_min as int, c0_max as int, 0, regions@, e0));
        assert(elim_time@ =~= box_marked(n as int, min_r as int, max_r as int, min_c as int, max_c as int, 0, regions@, ea));
    }
}

/// Rules out, for the cells not in region 1, the row of region 1's cells
/// `cells[0 .. len]` when they lie in one row (or are one cell), their
/// column when they lie in one column, and their box when it spans at most
/// two rows and two columns.
fn mark_anchor1(
    n: usize,
    cells: &[(u8, u8); 16],
    len: usize,
    regions: &[i16; MAX_CELLS],
    elim_time: &mut [i16; MAX_CELLS],
)
    requires
        2 <= n <= 32,
        1 <= len <= 16,
        forall|k: int| 0 <= k < len ==> (#[trigger] cells@[k]).0 < n && cells@[k].1 < n,
    ensures
        final(elim_time)@ == anchor1_times(n as int, regions@, cells@.take(len as int), old(elim_time)@),
{
    let ghost eb = elim_time@;
    let (min_r, max_r, min_c, max_c) = cell_bounds(vstd::array::array_as_slice(cells), len, Ghost(n as int));
    if len == 1 || min_r == max_r {
        mark_box(n, min_r, min_r, 0, n - 1, 1, regions, elim_time);
    }
    let ghost ec = elim_time@;
    proof {
        assert(ec =~= (if len == 1 || min_r == max_r {
            box_marked(n as int, min_r as int, min_r as int, 0, n - 1, 1, regions@, eb)
        } else {
            eb
        }));
    }
    if len == 1 || min_c == max_c {
        mark_box(n, 0, n - 1, min_c, min_c, 1, regions, elim_time);
    }
    let ghost ed = elim_time@;
    proof {
        assert(ed =~= (if len == 1 || min_c == max_c {
            box_marked(n as int, 0, n - 1, min_c as int, min_c as int, 1, regions@, ec)
        } else {
            ec
        }));
    }
    if max_r - min_r <= 1 && max_c - min_c <= 1 {
        mark_box(n, min_r, max_r, min_c, max_c, 1, regions, elim_time);
    }
    proof {
        assert(elim_time@ =~= (if max_r - min_r <= 1 && max_c - min_c <= 1 {
            box_marked(n as int, min_r as int, max_r as int, min_c as int, max_c as int, 1, regions@, ed)
        } else {
            ed
        }));
    }
}

/// Divides the `n x n` board into `n` regions around the trees `trees`
/// (tree `k` seeds region `k`): region 0 is a small bent group (a single
/// cell on "Easy"), region 1 a few cells beside its tree, and the others are
/// flood-filled from their trees, cells leaving a region's reach once a tree
/// of a lower index rules them out; the cells left over join a neighbouring
/// region. Writes the regions and their sizes; returns the least region size
/// a puzzle of this difficulty accepts.
///
/// It takes exactly `n` trees, as its callers give it (`construct_gadget_regions`
/// passes the first `n`). A longer list is refused: its extra trees would seed
/// labels `n` and above that no later step reassigns, and a list of more than
/// 32 trees would overrun the table of sizes.
#[verifier::rlimit(100)]
#[verifier::spinoff_prover]
pub fn construct_gadget_regions_fast(
    n: usize,
    trees: &[(usize, usize)],
    difficulty: &str,
    rng: &mut SimpleRng,
    out_regions: &mut [u16; MAX_CELLS],
    out_reg_sizes: &mut [usize; MAX_N],
) -> (min_allowed: usize)
    requires
        2 <= n <= 32,
        trees_on_board(n as int, trees@),
    ensures
        min_allowed == (if is_easy(difficulty@) { 1usize } else { 3usize }),
        forall|j: int| 0 <= j < n * n ==> (#[trigger] final(out_regions)@[j]) < n,
        forall|j: int| n * n <= j < MAX_CELLS ==> #[trigger] final(out_regions)@[j] == old(out_regions)@[j],
        forall|g: int| n <= g < MAX_N ==> #[trigger] final(out_reg_sizes)@[g] == old(out_reg_sizes)@[g],
        trees_distinct(trees@) ==>
            gadget_regions_ok(n as int, trees@, flat_region_model(n as int, final(out_regions)@), final(out_reg_sizes)@),
        final(rng).0 == gadget_state(n as int, trees@, difficulty@, old(rng).0),
        forall|j: int| 0 <= j < n * n ==>
            #[trigger] final(out_regions)@[j] as int == gadget_layout(n as int, trees@, difficulty@, old(rng).0)[j] as int,
{
    proof {
        assert(n * n <= 1024) by (nonlinear_arith)
            requires n <= 32;
    }
    let ghost state0 = rng.0;
    let total = n * n;
    let mut regions = [-1i16; MAX_CELLS];
    let mut elim_time = [999i16; MAX_CELLS];
    seed_trees(n, trees, &mut regions, out_reg_sizes);
    let easy = str_equals(difficulty, "Easy");
    let medium = str_equals(difficulty, "Medium");
    let min_allowed: usize = if easy { 1 } else { 3 };

    // 1. Region 0: a bent group around tree 0 (a single cell on "Easy").
    let (tr0, tc0) = trees[0];
    proof {
        assert(trees@[0] == (tr0, tc0));
    }
    let g0_size = if easy { 1 } else if medium { rng.gen_range(3, 5) } else { rng.gen_range(4, 6) };
    let ghost state1 = rng.0;
    let ghost base = regions@;
    let mut g0_cells = [(0u8, 0u8); 64];
    let g0_len = if g0_size == 1 {
        g0_cells[0] = (tr0 as u8, tc0 as u8);
        proof {
            let group = g0_cells@.take(1);
            assert(group[0] == g0_cells@[0]);
            assert(grown_group(n as int, regions@, tr0 as int, tc0 as int, group));
        }
        1
    } else {
        generate_non_collinear_polyomino_fast(tr0, tc0, n, &regions, g0_size, rng, &mut g0_cells)
    };
    let ghost g0 = group0_draw(n as int, trees@, difficulty@, state0);
    proof {
        let group = g0_cells@.take(g0_len as int);
        if easy {
            assert(group =~= g0.0);
        } else {
            let lo0: nat = if medium { 3 } else { 4 };
            assert(g0_size as int == range_pick(state0, lo0, lo0 + 2));
            assert(g0_size != 1);
            assert((group, rng.0) == g0);
        }
        assert(g0.0 == group);
        assert(g0.1 == rng.0);
    }
    claim_group0(n, trees, &g0_cells, g0_len, &mut regions, out_reg_sizes);
    let ghost r1 = regions@;
    proof {
        assert(r1 =~= claim0(n as int, base, g0.0));
        assert(out_reg_sizes@[1] == 1);
    }
    proof {
        let group = g0_cells@.take(g0_len as int);
        assert forall|k: int| 0 <= k < g0_len implies (#[trigger] g0_cells@[k]).0 < n && g0_cells@[k].1 < n by {
            assert(g0_cells@[k] == group[k]);
        }
    }
    mark_group0(n, (tr0, tc0), &g0_cells, g0_len, &regions, &mut elim_time);
    let ghost e1 = elim_time@;

    // 2. Region 1: cells beside tree 1.
    let ghost state2 = rng.0;
    let (tr1, tc1) = trees[1];
    let a1_target = if easy { 2 } else if medium { rng.gen_range(2, 4) } else { rng.gen_range(3, 5) };
    proof {
        assert(base == seeded(n as int, trees@, n as int));
        if !easy {
            let lo0: nat = if medium { 3 } else { 4 };
            assert(g0_size as int == range_pick(state0, lo0, lo0 + 2));
            assert(state1 == range_state(state0, lo0, lo0 + 2));
            assert(g0_size != 1);
            assert(state2 == poly_tries(n as int, base, tr0 as int, tc0 as int, g0_size as int, state1, 0, Seq::empty()).1);
        } else {
            assert(state2 == state0);
        }
        reveal(gadget_state);
        assert(rng.0 == gadget_state(n as int, trees@, difficulty@, state0));
    }
    let ghost a1 = anchor1_result(n as int, trees@, difficulty@, g0.1, r1);
    proof {
        assert(g0.1 == state2);
        assert(trees@[1] == (tr1, tc1));
        if !easy {
            let lo1: nat = if medium { 2 } else { 3 };
            assert(a1_target as int == range_pick(state2, lo1, lo1 + 2));
        }
    }
    let mut a1_cells = [(0u8, 0u8); 16];
    let a1_len = claim_anchor1(n, trees, a1_target, tr1 != tr0, &mut regions, out_reg_sizes, &mut a1_cells);
    let ghost r2 = regions@;
    proof {
        assert(r2 == a1.0);
        assert(a1_cells@.take(a1_len as int) == a1.2);
    }
    mark_anchor1(n, &a1_cells, a1_len, &regions, &mut elim_time);
    let ghost e2 = elim_time@;

    // 3. Elimination times of the cells ruled out by the other trees.
    set_elimination_times(n, trees, &mut elim_time);
    let ghost e3 = elim_time@;
    let ghost sizes2 = out_reg_sizes@;

    // 4. Flood fill of the other regions.
    flood_fill(n, trees, &elim_time, &mut regions, out_reg_sizes);
    let ghost r3 = regions@;
    proof {
        let q = seed_queue(n as int, trees@, r2, n as int);
        let zero = Seq::new(MAX_N as nat, |g: int| 0usize);
        lemma_flood_labels(n as int, e3, r2, sizes2, zero, q, 0);
        assert(r3 == flood_run(n as int, e3, r2, zero, q, 0).0);
    }

    // 5. The cells left over join a neighbouring region.
    drain_stragglers(n, trees, &elim_time, &mut regions, out_reg_sizes);
    proof {
        assert(regions@ == drained(n as int, r3, e3));
        assert(e2 == anchor1_times(n as int, a1.0, a1.2, e1));
        reveal(gadget_layout);
        assert(regions@ == gadget_layout(n as int, trees@, difficulty@, state0));
    }

    proof {
        lemma_state_facts(n as int, trees@, regions@, out_reg_sizes@);
    }
    for idx in 0..total
        invariant
            total == n * n,
            total <= 1024,
            labels_ok(n as int, regions@),
            forall|j: int| 0 <= j < n * n ==> #[trigger] regions@[j] != -1,
            forall|j: int| 0 <= j < idx ==> #[trigger] out_regions@[j] as int == regions@[j] as int,
            forall|j: int| n * n <= j < MAX_CELLS ==> #[trigger] out_regions@[j] == old(out_regions)@[j],
    {
        let v = regions[idx];
        out_regions[idx] = (if v > 0 { v } else { 0 }) as u16;
    }
    proof {
        let reg = flat_region_model(n as int, out_regions@);
        let lm = label_model(n as int, regions@);
        assert(reg =~= lm);
        if trees_distinct(trees@) {
            reveal(build_state);
            assert forall|k: int| 0 <= k < n implies reg[tree_index(n as int, #[trigger] trees@[k])] == k by {
                lemma_cell_index(n as int, trees@[k].0 as int, trees@[k].1 as int);
            }
            assert forall|g: int| #[trigger] crate::connectivity::region_connected(n as int, reg, g) by {
                assert forall|a: int, b: int| #[trigger] crate::connectivity::in_region(n as int, reg, g, a)
                    && #[trigger] crate::connectivity::in_region(n as int, reg, g, b)
                    implies linked_in_region(n as int, reg, g, a, b) by {
                    assert(regions@[a] >= 0 && regions@[b] >= 0);
                    let t = tree_index(n as int, trees@[g]);
                    assert(linked_in_region(n as int, reg, g, t, a));
                    assert(linked_in_region(n as int, reg, g, t, b));
                    lemma_link_reverse(n as int, reg, g, t, a);
                    lemma_link_join(n as int, reg, g, a, t, b);
                }
            }
        }
    }
    min_allowed
}

/// The trees given, completed with `(0, 0)` up to `n` trees.
pub open spec fn padded_trees(trees: Seq<(usize, usize)>, n: int) -> Seq<(usize, usize)> {
    Seq::new(n as nat, |k: int| if k < trees.len() { trees[k] } else { (0usize, 0usize) })
}

/// Divides the `n x n` board into regions around the trees (tree `k` seeds
/// region `k`; missing trees count as `(0, 0)`), as
/// `construct_gadget_regions_fast` does; returns the regions by rows, the
/// sizes of the regions and the least region size the difficulty accepts.
pub fn construct_gadget_regions(
    n: usize,
    trees: &[(usize, usize)],
    difficulty: &str,
    rng: &mut SimpleRng,
) -> (res: (Vec<Vec<usize>>, Vec<usize>, usize))
    requires
        2 <= n <= 32,
        trees@.len() <= MAX_N,
        forall|k: int| 0 <= k < trees@.len() && k < n ==> (#[trigger] trees@[k]).0 < n && trees@[k].1 < n,
    ensures
        res.0@.len() == n,
        forall|r: int| 0 <= r < n ==> (#[trigger] res.0@[r])@.len() == n,
        forall|r: int, c: int| 0 <= r < n && 0 <= c < n ==> (#[trigger] res.0@[r]@[c]) < n,
        res.1@.len() == n,
        res.2 == (if is_easy(difficulty@) { 1usize } else { 3usize }),
        trees_distinct(padded_trees(trees@, n as int)) ==>
            gadget_regions_ok(n as int, padded_trees(trees@, n as int), grid_region_model(n as int, res.0@), res.1@),
        final(rng).0 == gadget_state(n as int, padded_trees(trees@, n as int), difficulty@, old(rng).0),
        forall|r: int, c: int| 0 <= r < n && 0 <= c < n ==> #[trigger] res.0@[r]@[c] as int
            == gadget_layout(n as int, padded_trees(trees@, n as int), difficulty@, old(rng).0)[r * n + c] as int,
{
    let ghost padded = padded_trees(trees@, n as int);
    let ghost state0 = rng.0;
    let mut tree_list: Vec<(usize, usize)> = Vec::new();
    for i in 0..n
        invariant
            2 <= n <= 32,
            trees@.len() <= MAX_N,
            padded == padded_trees(trees@, n as int),
            tree_list@ == padded.take(i as int),
    {
        if i < trees.len() {
            tree_list.push(trees[i]);
        } else {
            tree_list.push((0, 0));
        }
        proof {
            assert(tree_list@ =~= padded.take(i + 1));
        }
    }
    proof {
        assert(tree_list@ =~= padded);
        assert forall|k: int| 0 <= k < n implies (#[trigger] padded[k]).0 < n && padded[k].1 < n by {}
    }
    let mut flat_regions = [0u16; MAX_CELLS];
    let mut reg_sizes_arr = [0usize; MAX_N];
    let min_allowed = construct_gadget_regions_fast(n, tree_list.as_slice(), difficulty, rng, &mut flat_regions, &mut reg_sizes_arr);
    let regions = crate::solver::rows_from_flat(n, &flat_regions);
    let mut reg_sizes: Vec<usize> = Vec::new();
    for g in 0..n
        invariant
            n <= 32,
            reg_sizes@ == reg_sizes_arr@.take(g as int),
    {
        reg_sizes.push(reg_sizes_arr[g]);
        proof {
            assert(reg_sizes@ =~= reg_sizes_arr@.take(g + 1));
        }
    }
    proof {
        let grid = grid_region_model(n as int, regions@);
        assert forall|r: int, c: int| 0 <= r < n && 0 <= c < n implies (#[trigger] regions@[r]@[c]) < n by {
            lemma_cell_index(n as int, r, c);
            assert(grid[r * n + c] == regions@[r]@[c] as int);
        }
        let layout = gadget_layout(n as int, padded, difficulty@, state0);
        assert forall|r: int, c: int| 0 <= r < n && 0 <= c < n implies
            #[trigger] regions@[r]@[c] as int == layout[r * n + c] as int by {
            lemma_cell_index(n as int, r, c);
            assert(grid[r * n + c] == regions@[r]@[c] as int);
            assert(flat_regions@[r * n + c] as int == layout[r * n + c] as int);
        }
        if trees_distinct(padded) {
            assert forall|g: int| 0 <= g < n implies #[trigger] reg_sizes@[g] == region_size_below(grid, g, n * n) by {
                assert(reg_sizes@[g] == reg_sizes_arr@[g]);
            }
        }
    }
    (regions, reg_sizes, min_allowed)
}

} // verus!
