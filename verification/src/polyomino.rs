//! Random growth of a connected group of cells from a start cell.

use vstd::prelude::*;
use crate::MAX_CELLS;
use crate::grid::{cell_index, lemma_cell_index};
use crate::rng::{range_pick, range_state, SimpleRng};

verus! {

/// Cells `a` and `b` (row, column) are orthogonal neighbours.
pub open spec fn cells_adjacent(a: (u8, u8), b: (u8, u8)) -> bool {
    (a.0 == b.0 && (a.1 + 1 == b.1 || b.1 + 1 == a.1)) || (a.1 == b.1 && (a.0 + 1 == b.0 || b.0 + 1 == a.0))
}

/// Some cell of `cells[0 .. k]` is a neighbour of `c`.
pub open spec fn touches_earlier(cells: Seq<(u8, u8)>, k: int, c: (u8, u8)) -> bool {
    exists|m: int| 0 <= m < k && cells_adjacent(#[trigger] cells[m], c)
}

/// `cells` is a group grown from `(tr, tc)`: it starts there, its cells are
/// distinct cells of the board, every later cell is still unassigned
/// (`-1`) in `regions`, and every later cell is a neighbour of an earlier one.
pub open spec fn grown_group(n: int, regions: Seq<i16>, tr: int, tc: int, cells: Seq<(u8, u8)>) -> bool {
    &&& cells.len() >= 1
    &&& cells[0].0 == tr && cells[0].1 == tc
    &&& forall|k: int| 0 <= k < cells.len() ==> (#[trigger] cells[k]).0 < n && cells[k].1 < n
    &&& forall|k: int, l: int| 0 <= k < l < cells.len() ==> #[trigger] cells[k] != #[trigger] cells[l]
    &&& forall|k: int| 1 <= k < cells.len() ==> regions[cell_index(n, (#[trigger] cells[k]).0 as int, cells[k].1 as int)] == -1
    &&& forall|k: int| 1 <= k < cells.len() ==> touches_earlier(cells, k, #[trigger] cells[k])
}

/// Whether `cell` is among `list[0 .. count]`.
fn list_contains(list: &[(u8, u8); 64], count: usize, cell: (u8, u8)) -> (found: bool)
    requires
        count <= 64,
    ensures
        found == list@.take(count as int).contains(cell),
{
    let mut i: usize = 0;
    while i < count
        invariant
            count <= 64,
            i <= count,
            !list@.take(i as int).contains(cell),
        decreases count - i,
    {
        if list[i].0 == cell.0 && list[i].1 == cell.1 {
            proof {
                assert(list@.take(count as int)[i as int] == cell);
            }
            return true;
        }
        proof {
            assert forall|x: (u8, u8)| #[trigger] list@.take(i + 1).contains(x) implies x != cell by {
                let t = list@.take(i + 1);
                let k = choose|k: int| 0 <= k < t.len() && #[trigger] t[k] == x;
                if k < i {
                    assert(list@.take(i as int)[k] == x);
                }
            }
        }
        i = i + 1;
    }
    proof {
        assert(list@.take(i as int) =~= list@.take(count as int));
    }
    false
}

/// Every frontier cell is on the board and next to a cell of the group.
pub open spec fn frontier_ok(n: int, cells: Seq<(u8, u8)>, count: int, frontier: Seq<(u8, u8)>, len: int) -> bool {
    forall|f: int| 0 <= f < len ==> (#[trigger] frontier[f]).0 < n && frontier[f].1 < n && touches_earlier(cells, count, frontier[f])
}

/// `frontier` with `cand` added, unless it is already in the group `cells`
/// or the frontier holds 64 cells.
pub open spec fn offer_spec(cells: Seq<(u8, u8)>, frontier: Seq<(u8, u8)>, cand: (u8, u8)) -> Seq<(u8, u8)> {
    if !cells.contains(cand) && frontier.len() < 64 {
        frontier.push(cand)
    } else {
        frontier
    }
}

/// `frontier` after the unassigned neighbours of `(r, c)` on the `n x n`
/// board are offered, in the order above, below, left, right.
pub open spec fn offer_neighbours(
    n: int,
    regions: Seq<i16>,
    cells: Seq<(u8, u8)>,
    frontier: Seq<(u8, u8)>,
    r: int,
    c: int,
) -> Seq<(u8, u8)> {
    let f1 = if r > 0 && regions[(r - 1) * n + c] == -1 { offer_spec(cells, frontier, ((r - 1) as u8, c as u8)) } else { frontier };
    let f2 = if r + 1 < n && regions[(r + 1) * n + c] == -1 { offer_spec(cells, f1, ((r + 1) as u8, c as u8)) } else { f1 };
    let f3 = if c > 0 && regions[r * n + c - 1] == -1 { offer_spec(cells, f2, (r as u8, (c - 1) as u8)) } else { f2 };
    if c + 1 < n && regions[r * n + c + 1] == -1 { offer_spec(cells, f3, (r as u8, (c + 1) as u8)) } else { f3 }
}

/// Offering the neighbours of a cell adds at most four cells to the frontier.
pub proof fn lemma_offer_neighbours_len(n: int, regions: Seq<i16>, cells: Seq<(u8, u8)>, frontier: Seq<(u8, u8)>, r: int, c: int)
    ensures
        frontier.len() <= offer_neighbours(n, regions, cells, frontier, r, c).len() <= frontier.len() + 4,
{
}

/// The growth from the group `cells` and the `frontier`, drawing from
/// generator state `state`: while the group is below `target` cells and the
/// frontier is not empty, a frontier cell picked by `gen_range` leaves the
/// frontier (the last one takes its place) and, if unassigned and new, joins
/// the group and offers its neighbours. The group and the state at the end.
pub open spec fn grow_steps(
    n: int,
    regions: Seq<i16>,
    target: int,
    cells: Seq<(u8, u8)>,
    frontier: Seq<(u8, u8)>,
    state: u64,
) -> (Seq<(u8, u8)>, u64)
    decreases (65 - cells.len()) * 5 + frontier.len(),
{
    if cells.len() >= target || frontier.len() == 0 || cells.len() > 64 || frontier.len() > 64 {
        (cells, state)
    } else {
        let idx = range_pick(state, 0, frontier.len()) as int;
        let state2 = range_state(state, 0, frontier.len());
        let cand = frontier[idx];
        let rest = frontier.update(idx, frontier.last()).drop_last();
        proof {
            crate::rng::lemma_scale_below(crate::rng::draw(state), frontier.len());
            assert(rest.len() == frontier.len() - 1);
        }
        let r = cand.0 as int;
        let c = cand.1 as int;
        if regions[r * n + c] == -1 && !cells.contains(cand) {
            let cells2 = cells.push(cand);
            proof {
                lemma_offer_neighbours_len(n, regions, cells2, rest, r, c);
            }
            grow_steps(n, regions, target, cells2, offer_neighbours(n, regions, cells2, rest, r, c), state2)
        } else {
            grow_steps(n, regions, target, cells, rest, state2)
        }
    }
}

/// One growth from `(tr, tc)` up to `target` cells (see `grow_steps`).
#[verifier::opaque]
pub open spec fn grow_spec(n: int, regions: Seq<i16>, tr: int, tc: int, target: int, state: u64) -> (Seq<(u8, u8)>, u64) {
    let start = seq![(tr as u8, tc as u8)];
    grow_steps(n, regions, target, start, offer_neighbours(n, regions, start, Seq::empty(), tr, tc), state)
}

/// The group spans at least two rows and two columns and has three cells or more.
#[verifier::opaque]
pub open spec fn not_collinear(cells: Seq<(u8, u8)>) -> bool {
    &&& cells.len() >= 3
    &&& exists|k: int, l: int| 0 <= k < cells.len() && 0 <= l < cells.len() && (#[trigger] cells[k]).0 != (#[trigger] cells[l]).0
    &&& exists|k: int, l: int| 0 <= k < cells.len() && 0 <= l < cells.len() && (#[trigger] cells[k]).1 != (#[trigger] cells[l]).1
}

/// Tries `k ..` of up to 40 growths: the first group that is not collinear,
/// or the group of the last try (`last` before any try), with the state after it.
pub open spec fn poly_tries(n: int, regions: Seq<i16>, tr: int, tc: int, target: int, state: u64, k: int, last: Seq<(u8, u8)>)
    -> (Seq<(u8, u8)>, u64)
    decreases 40 - k,
{
    if k >= 40 {
        (last, state)
    } else {
        let g = grow_spec(n, regions, tr, tc, target, state);
        if not_collinear(g.0) {
            g
        } else {
            poly_tries(n, regions, tr, tc, target, g.1, k + 1, g.0)
        }
    }
}

/// One try of `poly_tries`: its group if not collinear, else the tries after it.
proof fn lemma_poly_step(n: int, regions: Seq<i16>, tr: int, tc: int, target: int, state: u64, k: int, last: Seq<(u8, u8)>)
    requires
        0 <= k < 40,
    ensures
        ({
            let g = grow_spec(n, regions, tr, tc, target, state);
            poly_tries(n, regions, tr, tc, target, state, k, last)
                == if not_collinear(g.0) { g } else { poly_tries(n, regions, tr, tc, target, g.1, k + 1, g.0) }
        }),
{
}

/// A group is accepted as not collinear exactly when it has three cells or
/// more, two of them in different rows and two of them in different columns.
pub proof fn lemma_not_collinear_meaning(cells: Seq<(u8, u8)>)
    ensures
        not_collinear(cells) <==> {
            &&& cells.len() >= 3
            &&& exists|k: int, l: int| 0 <= k < cells.len() && 0 <= l < cells.len() && cells[k].0 != cells[l].0
            &&& exists|k: int, l: int| 0 <= k < cells.len() && 0 <= l < cells.len() && cells[k].1 != cells[l].1
        },
{
    reveal(not_collinear);
}

/// A group in a single row or a single column is never accepted.
pub proof fn lemma_straight_group_rejected(cells: Seq<(u8, u8)>)
    requires
        (forall|k: int| 0 <= k < cells.len() ==> (#[trigger] cells[k]).0 == cells[0].0)
        || (forall|k: int| 0 <= k < cells.len() ==> (#[trigger] cells[k]).1 == cells[0].1),
    ensures
        !not_collinear(cells),
{
    reveal(not_collinear);
    if not_collinear(cells) {
        let (k, l) = choose|k: int, l: int| 0 <= k < cells.len() && 0 <= l < cells.len() && (#[trigger] cells[k]).0 != (#[trigger] cells[l]).0;
        let (k2, l2) = choose|k: int, l: int| 0 <= k < cells.len() && 0 <= l < cells.len() && (#[trigger] cells[k]).1 != (#[trigger] cells[l]).1;
        assert(cells[k].0 == cells[0].0 && cells[l].0 == cells[0].0 || cells[k2].1 == cells[0].1 && cells[l2].1 == cells[0].1);
    }
}

/// Each try of the growth: a group of three cells or more that spans two
/// rows and two columns is returned at once; any other group (a smaller
/// one, or one in a single row or column) is grown again from the next
/// generator state, and is kept only when the 40 tries run out.
pub proof fn lemma_poly_try(n: int, regions: Seq<i16>, tr: int, tc: int, target: int, state: u64, k: int, last: Seq<(u8, u8)>)
    requires
        0 <= k < 40,
    ensures
        ({
            let g = grow_spec(n, regions, tr, tc, target, state);
            let spans = g.0.len() >= 3
                && (exists|a: int, b: int| 0 <= a < g.0.len() && 0 <= b < g.0.len() && g.0[a].0 != g.0[b].0)
                && (exists|a: int, b: int| 0 <= a < g.0.len() && 0 <= b < g.0.len() && g.0[a].1 != g.0[b].1);
            poly_tries(n, regions, tr, tc, target, state, k, last)
                == if spans { g } else { poly_tries(n, regions, tr, tc, target, g.1, k + 1, g.0) }
        }),
        poly_tries(n, regions, tr, tc, target, state, 40, last) == (last, state),
{
    let g = grow_spec(n, regions, tr, tc, target, state);
    lemma_poly_step(n, regions, tr, tc, target, state, k, last);
    lemma_not_collinear_meaning(g.0);
}

/// Adds `cand` to the frontier unless it is already in the group or the
/// frontier is full.
fn offer(
    cand: (u8, u8),
    cell_list: &[(u8, u8); 64],
    cell_count: usize,
    frontier: &mut [(u8, u8); 64],
    frontier_len: &mut usize,
    Ghost(n): Ghost<int>,
)
    requires
        cell_count <= 64,
        *old(frontier_len) <= 64,
        cand.0 < n && cand.1 < n,
        touches_earlier(cell_list@, cell_count as int, cand),
        frontier_ok(n, cell_list@, cell_count as int, old(frontier)@, *old(frontier_len) as int),
    ensures
        if !cell_list@.take(cell_count as int).contains(cand) && *old(frontier_len) < 64 {
            &&& final(frontier)@ == old(frontier)@.update(*old(frontier_len) as int, cand)
            &&& *final(frontier_len) == *old(frontier_len) + 1
        } else {
            &&& final(frontier)@ == old(frontier)@
            &&& *final(frontier_len) == *old(frontier_len)
        },
        *final(frontier_len) <= 64,
        *old(frontier_len) <= *final(frontier_len) <= *old(frontier_len) + 1,
        final(frontier)@.take(*final(frontier_len) as int)
            == offer_spec(cell_list@.take(cell_count as int), old(frontier)@.take(*old(frontier_len) as int), cand),
        frontier_ok(n, cell_list@, cell_count as int, final(frontier)@, *final(frontier_len) as int),
{
    let ghost live = frontier@.take(*frontier_len as int);
    if !list_contains(cell_list, cell_count, cand) && *frontier_len < 64 {
        frontier[*frontier_len] = cand;
        *frontier_len = *frontier_len + 1;
        proof {
            assert(frontier@.take(*frontier_len as int) =~= live.push(cand));
        }
    }
}

/// A group of distinct cells of the `n x n` board, with one more cell of
/// the board not in it, has fewer than `n * n` cells.
proof fn lemma_group_fits(n: int, cells: Seq<(u8, u8)>, cand: (u8, u8))
    requires
        0 < n,
        forall|k: int| 0 <= k < cells.len() ==> (#[trigger] cells[k]).0 < n && cells[k].1 < n,
        forall|k: int, l: int| 0 <= k < l < cells.len() ==> #[trigger] cells[k] != #[trigger] cells[l],
        cand.0 < n && cand.1 < n,
        !cells.contains(cand),
    ensures
        cells.len() + 1 <= n * n,
{
    let all = cells.push(cand);
    let ints = Seq::new(all.len(), |k: int| cell_index(n, all[k].0 as int, all[k].1 as int));
    assert forall|k: int| 0 <= k < ints.len() implies 0 <= #[trigger] ints[k] < n * n by {
        lemma_cell_index(n, all[k].0 as int, all[k].1 as int);
    }
    assert forall|a: int, b: int| 0 <= a < ints.len() && 0 <= b < ints.len() && a != b implies ints[a] != ints[b] by {
        lemma_cell_index(n, all[a].0 as int, all[a].1 as int);
        lemma_cell_index(n, all[b].0 as int, all[b].1 as int);
        if ints[a] == ints[b] {
            assert(all[a].0 == all[b].0 && all[a].1 == all[b].1);
            if a < b {
                if b == cells.len() {
                    assert(cells[a] == cand);
                    assert(cells.contains(cand));
                }
            } else {
                if a == cells.len() {
                    assert(cells[b] == cand);
                    assert(cells.contains(cand));
                }
            }
        }
    }
    crate::counting::lemma_distinct_in_range(ints, n * n);
}

/// One random growth from `(tr, tc)` over unassigned cells, up to
/// `target_size` cells; the group is left in `cell_list[0 .. count]`.
fn grow_once(
    tr: usize,
    tc: usize,
    n: usize,
    regions: &[i16; MAX_CELLS],
    target_size: usize,
    rng: &mut SimpleRng,
    cell_list: &mut [(u8, u8); 64],
) -> (count: usize)
    requires
        n <= 32,
        tr < n,
        tc < n,
        target_size <= 64 || n * n <= 64,
    ensures
        1 <= count <= 64,
        count == 1 || count <= target_size,
        grown_group(n as int, regions@, tr as int, tc as int, final(cell_list)@.take(count as int)),
        (final(cell_list)@.take(count as int), final(rng).0) == grow_spec(n as int, regions@, tr as int, tc as int, target_size as int, old(rng).0),
{
    proof {
        assert(n * n <= 1024) by (nonlinear_arith)
            requires n <= 32;
    }
    let ghost start = seq![(tr as u8, tc as u8)];
    let mut cell_count: usize = 0;
    cell_list[cell_count] = (tr as u8, tc as u8);
    cell_count = cell_count + 1;
    let mut frontier = [(0u8, 0u8); 64];
    let mut frontier_len: usize = 0;
    proof {
        lemma_cell_index(n as int, tr as int, tc as int);
        assert(frontier_ok(n as int, cell_list@, cell_count as int, frontier@, frontier_len as int));
        assert(cell_list@.take(1) =~= start);
        assert(frontier@.take(0) =~= Seq::<(u8, u8)>::empty());
    }
    if tr > 0 {
        proof { lemma_cell_index(n as int, tr - 1, tc as int); assert((tr - 1) * n == tr * n - n) by (nonlinear_arith); }
        if regions[(tr - 1) * n + tc] == -1 {
            proof { assert(cells_adjacent(cell_list@[0], ((tr - 1) as u8, tc as u8))); }
            offer(((tr - 1) as u8, tc as u8), cell_list, cell_count, &mut frontier, &mut frontier_len, Ghost(n as int));
        }
    }
    if tr + 1 < n {
        proof { lemma_cell_index(n as int, tr + 1, tc as int); assert((tr + 1) * n == tr * n + n) by (nonlinear_arith); }
        if regions[(tr + 1) * n + tc] == -1 {
            proof { assert(cells_adjacent(cell_list@[0], ((tr + 1) as u8, tc as u8))); }
            offer(((tr + 1) as u8, tc as u8), cell_list, cell_count, &mut frontier, &mut frontier_len, Ghost(n as int));
        }
    }
    if tc > 0 {
        proof { lemma_cell_index(n as int, tr as int, tc - 1); }
        if regions[tr * n + (tc - 1)] == -1 {
            proof { assert(cells_adjacent(cell_list@[0], (tr as u8, (tc - 1) as u8))); }
            offer((tr as u8, (tc - 1) as u8), cell_list, cell_count, &mut frontier, &mut frontier_len, Ghost(n as int));
        }
    }
    if tc + 1 < n {
        proof { lemma_cell_index(n as int, tr as int, tc + 1); }
        if regions[tr * n + (tc + 1)] == -1 {
            proof { assert(cells_adjacent(cell_list@[0], (tr as u8, (tc + 1) as u8))); }
            offer((tr as u8, (tc + 1) as u8), cell_list, cell_count, &mut frontier, &mut frontier_len, Ghost(n as int));
        }
    }
    proof {
        let t = cell_list@.take(1);
        assert(t[0] == cell_list@[0]);
        assert(t =~= start);
        let e = Seq::<(u8, u8)>::empty();
        let f1 = if tr > 0 && regions@[(tr - 1) * n + tc] == -1 { offer_spec(start, e, ((tr - 1) as u8, tc as u8)) } else { e };
        let f2 = if tr + 1 < n && regions@[(tr + 1) * n + tc] == -1 { offer_spec(start, f1, ((tr + 1) as u8, tc as u8)) } else { f1 };
        let f3 = if tc > 0 && regions@[tr * n + tc - 1] == -1 { offer_spec(start, f2, (tr as u8, (tc - 1) as u8)) } else { f2 };
        assert(frontier@.take(frontier_len as int) == offer_neighbours(n as int, regions@, start, e, tr as int, tc as int));
    }
    let ghost goal = grow_spec(n as int, regions@, tr as int, tc as int, target_size as int, old(rng).0);
    proof {
        reveal(grow_spec);
    }
    while cell_count < target_size && frontier_len > 0
        invariant
            n <= 32,
            n * n <= 1024,
            tr < n,
            tc < n,
            target_size <= 64 || n * n <= 64,
            1 <= cell_count <= 64,
            cell_count == 1 || cell_count <= target_size,
            frontier_len <= 64,
            grown_group(n as int, regions@, tr as int, tc as int, cell_list@.take(cell_count as int)),
            frontier_ok(n as int, cell_list@, cell_count as int, frontier@, frontier_len as int),
            grow_steps(n as int, regions@, target_size as int, cell_list@.take(cell_count as int), frontier@.take(frontier_len as int), rng.0) == goal,
        decreases (64 - cell_count) * 5 + frontier_len,
    {
        let ghost live = frontier@.take(frontier_len as int);
        let ghost cells0 = cell_list@.take(cell_count as int);
        let ghost st0 = rng.0;
        let idx = rng.gen_range(0, frontier_len);
        let cand = frontier[idx];
        frontier[idx] = frontier[frontier_len - 1];
        frontier_len = frontier_len - 1;
        proof {
            assert(cand == live[idx as int]);
            assert(frontier@.take(frontier_len as int) =~= live.update(idx as int, live.last()).drop_last());
        }
        proof {
            assert(cand.0 < n && cand.1 < n && touches_earlier(cell_list@, cell_count as int, cand));
            assert forall|f: int| 0 <= f < frontier_len implies (#[trigger] frontier@[f]).0 < n && frontier@[f].1 < n
                && touches_earlier(cell_list@, cell_count as int, frontier@[f]) by {
            }
        }
        let r = cand.0 as usize;
        let c = cand.1 as usize;
        proof {
            lemma_cell_index(n as int, r as int, c as int);
        }
        let c_idx = r * n + c;
        if regions[c_idx] == -1 && !list_contains(cell_list, cell_count, cand) {
            let ghost old_list = cell_list@;
            let ghost old_count = cell_count;
            proof {
                if target_size > 64 {
                    assert(cells0.len() == cell_count);
                    lemma_group_fits(n as int, cells0, cand);
                }
            }
            cell_list[cell_count] = cand;
            cell_count = cell_count + 1;
            proof {
                let g0 = old_list.take(old_count as int);
                let g1 = cell_list@.take(cell_count as int);
                assert(g1 =~= g0.push(cand));
                assert forall|k: int, l: int| 0 <= k < l < g1.len() implies #[trigger] g1[k] != #[trigger] g1[l] by {
                    if l == old_count {
                        assert(g0.contains(g1[k]));
                    }
                }
                assert forall|k: int| 1 <= k < g1.len() implies touches_earlier(g1, k, #[trigger] g1[k]) by {
                    if k == old_count {
                        let m = choose|m: int| 0 <= m < old_count && cells_adjacent(#[trigger] old_list[m], cand);
                        assert(g1[m] == old_list[m]);
                    } else {
                        assert(touches_earlier(g0, k, g0[k]));
                        let m = choose|m: int| 0 <= m < k && cells_adjacent(#[trigger] g0[m], g0[k]);
                        assert(g1[m] == g0[m]);
                    }
                }
                assert forall|f: int| 0 <= f < frontier_len implies (#[trigger] frontier@[f]).0 < n && frontier@[f].1 < n
                    && touches_earlier(cell_list@, cell_count as int, frontier@[f]) by {
                    assert(touches_earlier(old_list, old_count as int, frontier@[f]));
                    let m = choose|m: int| 0 <= m < old_count && cells_adjacent(#[trigger] old_list[m], frontier@[f]);
                    assert(cell_list@[m] == old_list[m]);
                }
                assert(cell_list@[old_count as int] == cand);
            }
            let last = cell_count - 1;
            let ghost cells2 = cell_list@.take(cell_count as int);
            let ghost rest = frontier@.take(frontier_len as int);
            proof {
                assert(cells2 =~= cells0.push(cand));
            }
            if r > 0 {
                proof { lemma_cell_index(n as int, r - 1, c as int); assert((r - 1) * n == r * n - n) by (nonlinear_arith); }
                if regions[c_idx - n] == -1 {
                    proof { assert(cells_adjacent(cell_list@[last as int], ((r - 1) as u8, c as u8))); }
                    offer(((r - 1) as u8, c as u8), cell_list, cell_count, &mut frontier, &mut frontier_len, Ghost(n as int));
                }
            }
            if r + 1 < n {
                proof { lemma_cell_index(n as int, r + 1, c as int); assert((r + 1) * n == r * n + n) by (nonlinear_arith); }
                if regions[c_idx + n] == -1 {
                    proof { assert(cells_adjacent(cell_list@[last as int], ((r + 1) as u8, c as u8))); }
                    offer(((r + 1) as u8, c as u8), cell_list, cell_count, &mut frontier, &mut frontier_len, Ghost(n as int));
                }
            }
            if c > 0 {
                proof { lemma_cell_index(n as int, r as int, c - 1); }
                if regions[c_idx - 1] == -1 {
                    proof { assert(cells_adjacent(cell_list@[last as int], (r as u8, (c - 1) as u8))); }
                    offer((r as u8, (c - 1) as u8), cell_list, cell_count, &mut frontier, &mut frontier_len, Ghost(n as int));
                }
            }
            if c + 1 < n {
                proof { lemma_cell_index(n as int, r as int, c + 1); }
                if regions[c_idx + 1] == -1 {
                    proof { assert(cells_adjacent(cell_list@[last as int], (r as u8, (c + 1) as u8))); }
                    offer((r as u8, (c + 1) as u8), cell_list, cell_count, &mut frontier, &mut frontier_len, Ghost(n as int));
                }
            }
        }
    }
    cell_count
}

/// Grows a random group of at most `target_size` cells from `(tr, tc)` over
/// unassigned cells, retrying up to 40 times until the group spans two rows
/// and two columns with three cells or more; the group is written to
/// `out_cells[0 .. count]` (the last try when none qualifies).
#[verifier::rlimit(60)]
pub fn generate_non_collinear_polyomino_fast(
    tr: usize,
    tc: usize,
    n: usize,
    regions: &[i16; MAX_CELLS],
    target_size: usize,
    rng: &mut SimpleRng,
    out_cells: &mut [(u8, u8); 64],
) -> (count: usize)
    requires
        n <= 32,
        tr < n,
        tc < n,
        target_size <= 64 || n * n <= 64,
    ensures
        1 <= count <= 64,
        count == 1 || count <= target_size,
        grown_group(n as int, regions@, tr as int, tc as int, final(out_cells)@.take(count as int)),
        forall|k: int| count <= k < 64 ==> #[trigger] final(out_cells)@[k] == old(out_cells)@[k],
        (final(out_cells)@.take(count as int), final(rng).0)
            == poly_tries(n as int, regions@, tr as int, tc as int, target_size as int, old(rng).0, 0, Seq::empty()),
{
    let mut last_len: usize = 0;
    let mut last_cells = [(0u8, 0u8); 64];
    let ghost goal = poly_tries(n as int, regions@, tr as int, tc as int, target_size as int, old(rng).0, 0, Seq::empty());
    proof {
        assert(last_cells@.take(0) =~= Seq::<(u8, u8)>::empty());
    }
    let mut attempt: usize = 0;
    while attempt < 40
        invariant
            n <= 32,
            tr < n,
            tc < n,
            target_size <= 64 || n * n <= 64,
            attempt <= 40,
            last_len <= 64,
            attempt > 0 ==> 1 <= last_len <= 64 && (last_len == 1 || last_len <= target_size)
                && grown_group(n as int, regions@, tr as int, tc as int, last_cells@.take(last_len as int)),
            out_cells@ == old(out_cells)@,
            poly_tries(n as int, regions@, tr as int, tc as int, target_size as int, rng.0, attempt as int, last_cells@.take(last_len as int)) == goal,
            goal == poly_tries(n as int, regions@, tr as int, tc as int, target_size as int, old(rng).0, 0, Seq::empty()),
        decreases 40 - attempt,
    {
        let mut cell_list = [(0u8, 0u8); 64];
        let ghost st0 = rng.0;
        let ghost last0 = last_cells@.take(last_len as int);
        let cell_count = grow_once(tr, tc, n, regions, target_size, rng, &mut cell_list);
        let qualifies = spans_two_ways(&cell_list, cell_count);
        proof {
            let g = grow_spec(n as int, regions@, tr as int, tc as int, target_size as int, st0);
            assert((cell_list@.take(cell_count as int), rng.0) == g);
            lemma_poly_step(n as int, regions@, tr as int, tc as int, target_size as int, st0, attempt as int, last0);
        }
        if qualifies {
            copy_cells(&cell_list, out_cells, cell_count);
            proof {
                let g = grow_spec(n as int, regions@, tr as int, tc as int, target_size as int, st0);
                assert(g.0 == cell_list@.take(cell_count as int));
                assert(not_collinear(g.0));
                assert(goal == g);
                assert(out_cells@.take(cell_count as int) == g.0);
                assert(rng.0 == g.1);
                assert((out_cells@.take(cell_count as int), rng.0) == goal);
            }
            return cell_count;
        }
        last_len = cell_count;
        copy_cells(&cell_list, &mut last_cells, cell_count);
        attempt = attempt + 1;
    }
    copy_cells(&last_cells, out_cells, last_len);
    proof {
        assert(last_len >= 1);
    }
    last_len
}

/// Whether the group `cell_list[0 .. cell_count]` spans two rows and two
/// columns with three cells or more.
fn spans_two_ways(cell_list: &[(u8, u8); 64], cell_count: usize) -> (q: bool)
    requires
        1 <= cell_count <= 64,
    ensures
        q == not_collinear(cell_list@.take(cell_count as int)),
{
    let ghost cells = cell_list@.take(cell_count as int);
    proof {
        reveal(not_collinear);
    }
    let mut min_r = usize::MAX;
    let mut max_r: usize = 0;
    let mut min_c = usize::MAX;
    let mut max_c: usize = 0;
    let mut i: usize = 0;
    while i < cell_count
        invariant
            1 <= cell_count <= 64,
            i <= cell_count,
            cells == cell_list@.take(cell_count as int),
            forall|k: int| 0 <= k < i ==> min_r <= (#[trigger] cells[k]).0 <= max_r && min_c <= cells[k].1 <= max_c,
            i > 0 ==> exists|k: int| 0 <= k < i && (#[trigger] cells[k]).0 == min_r,
            i > 0 ==> exists|k: int| 0 <= k < i && (#[trigger] cells[k]).0 == max_r,
            i > 0 ==> exists|k: int| 0 <= k < i && (#[trigger] cells[k]).1 == min_c,
            i > 0 ==> exists|k: int| 0 <= k < i && (#[trigger] cells[k]).1 == max_c,
            i == 0 ==> min_r == usize::MAX && max_r == 0 && min_c == usize::MAX && max_c == 0,
        decreases cell_count - i,
    {
        let r = cell_list[i].0 as usize;
        let c = cell_list[i].1 as usize;
        proof {
            assert(cells[i as int] == cell_list@[i as int]);
        }
        if r < min_r {
            min_r = r;
        }
        if r > max_r {
            max_r = r;
        }
        if c < min_c {
            min_c = c;
        }
        if c > max_c {
            max_c = c;
        }
        proof {
            assert(cells[i as int].0 == r && cells[i as int].1 == c);
        }
        i = i + 1;
    }
    let qualifies = cell_count >= 3 && max_r > min_r && max_c > min_c;
    proof {
        if qualifies {
            let a = choose|k: int| 0 <= k < i && (#[trigger] cells[k]).0 == min_r;
            let b = choose|k: int| 0 <= k < i && (#[trigger] cells[k]).0 == max_r;
            let a2 = choose|k: int| 0 <= k < i && (#[trigger] cells[k]).1 == min_c;
            let b2 = choose|k: int| 0 <= k < i && (#[trigger] cells[k]).1 == max_c;
            assert(cells[a].0 != cells[b].0);
            assert(cells[a2].1 != cells[b2].1);
        }
        if not_collinear(cells) {
            let (k, l) = choose|k: int, l: int| 0 <= k < cells.len() && 0 <= l < cells.len() && (#[trigger] cells[k]).0 != (#[trigger] cells[l]).0;
            let (k2, l2) = choose|k: int, l: int| 0 <= k < cells.len() && 0 <= l < cells.len() && (#[trigger] cells[k]).1 != (#[trigger] cells[l]).1;
            assert(min_r <= cells[k].0 <= max_r && min_r <= cells[l].0 <= max_r);
            assert(min_c <= cells[k2].1 <= max_c && min_c <= cells[l2].1 <= max_c);
        }
        assert(qualifies == not_collinear(cells));
    }
    qualifies
}

/// Copies `src[0 .. count]` over the start of `dst`.
fn copy_cells(src: &[(u8, u8); 64], dst: &mut [(u8, u8); 64], count: usize)
    requires
        count <= 64,
    ensures
        final(dst)@.take(count as int) == src@.take(count as int),
        forall|k: int| count <= k < 64 ==> #[trigger] final(dst)@[k] == old(dst)@[k],
{
    for i in 0..count
        invariant
            count <= 64,
            forall|k: int| 0 <= k < i ==> #[trigger] dst@[k] == src@[k],
            forall|k: int| i <= k < 64 ==> #[trigger] dst@[k] == old(dst)@[k],
    {
        dst[i] = src[i];
    }
    proof {
        assert(dst@.take(count as int) =~= src@.take(count as int));
    }
}

/// The board `regions[r][c]` with each entry taken as a 16-bit number.
pub open spec fn grid_model_i16(n: int, regions: Seq<Vec<i32>>) -> Seq<i16> {
    Seq::new(MAX_CELLS as nat, |j: int|
        if 0 <= j < n * n { regions[crate::grid::row_of(n, j)]@[crate::grid::col_of(n, j)] as i16 } else { 0i16 })
}

/// Grows a random group of cells from `(tr, tc)` over the cells of
/// `regions` that are `-1` (see `generate_non_collinear_polyomino_fast`).
pub fn generate_non_collinear_polyomino(
    tr: usize,
    tc: usize,
    n: usize,
    regions: &[Vec<i32>],
    target_size: usize,
    rng: &mut SimpleRng,
) -> (cells: Vec<(usize, usize)>)
    requires
        n <= 32,
        tr < n,
        tc < n,
        target_size <= 64 || n * n <= 64,
        regions@.len() >= n,
        forall|r: int| 0 <= r < n ==> (#[trigger] regions@[r])@.len() >= n,
    ensures
        1 <= cells@.len() <= 64,
        cells@.len() == 1 || cells@.len() <= target_size,
        exists|group: Seq<(u8, u8)>| #[trigger] grown_group(n as int, grid_model_i16(n as int, regions@), tr as int, tc as int, group)
            && group.len() == cells@.len()
            && forall|k: int| 0 <= k < group.len() ==> (#[trigger] cells@[k]).0 == group[k].0 && cells@[k].1 == group[k].1,
        ({
            let pt = poly_tries(n as int, grid_model_i16(n as int, regions@), tr as int, tc as int, target_size as int, old(rng).0, 0, Seq::empty());
            &&& cells@.len() == pt.0.len()
            &&& forall|k: int| 0 <= k < pt.0.len() ==> (#[trigger] cells@[k]) == (pt.0[k].0 as usize, pt.0[k].1 as usize)
            &&& final(rng).0 == pt.1
        }),
{
    let ghost model = grid_model_i16(n as int, regions@);
    let mut flat_regions = [0i16; MAX_CELLS];
    proof {
        assert(n * n <= 1024) by (nonlinear_arith)
            requires n <= 32;
        assert(0 * n == 0);
        assert forall|j: int| n * n <= j < MAX_CELLS implies #[trigger] flat_regions@[j] == model[j] by {}
    }
    for r in 0..n
        invariant
            n <= 32,
            n * n <= 1024,
            regions@.len() >= n,
            forall|x: int| 0 <= x < n ==> (#[trigger] regions@[x])@.len() >= n,
            model == grid_model_i16(n as int, regions@),
            forall|j: int| 0 <= j < r * n ==> #[trigger] flat_regions@[j] == model[j],
            forall|j: int| n * n <= j < MAX_CELLS ==> #[trigger] flat_regions@[j] == model[j],
    {
        for c in 0..n
            invariant
                n <= 32,
                n * n <= 1024,
                r < n,
                regions@.len() >= n,
                forall|x: int| 0 <= x < n ==> (#[trigger] regions@[x])@.len() >= n,
                model == grid_model_i16(n as int, regions@),
                forall|j: int| 0 <= j < r * n + c ==> #[trigger] flat_regions@[j] == model[j],
                forall|j: int| n * n <= j < MAX_CELLS ==> #[trigger] flat_regions@[j] == model[j],
        {
            proof {
                lemma_cell_index(n as int, r as int, c as int);
                assert(regions@[r as int]@.len() >= n);
            }
            let v = regions[r][c];
            flat_regions[r * n + c] = v as i16;
        }
        proof {
            assert((r + 1) * n == r * n + n) by (nonlinear_arith);
        }
    }
    proof {
        assert(flat_regions@ =~= model);
    }
    let mut out_cells = [(0u8, 0u8); 64];
    let count = generate_non_collinear_polyomino_fast(tr, tc, n, &flat_regions, target_size, rng, &mut out_cells);
    let mut cells: Vec<(usize, usize)> = Vec::new();
    for i in 0..count
        invariant
            count <= 64,
            cells@.len() == i,
            forall|k: int| 0 <= k < i ==> (#[trigger] cells@[k]).0 == out_cells@[k].0 && cells@[k].1 == out_cells@[k].1,
    {
        cells.push((out_cells[i].0 as usize, out_cells[i].1 as usize));
    }
    proof {
        let group = out_cells@.take(count as int);
        assert(grown_group(n as int, model, tr as int, tc as int, group));
        assert forall|k: int| 0 <= k < group.len() implies (#[trigger] cells@[k]).0 == group[k].0 && cells@[k].1 == group[k].1 by {}
        assert forall|k: int| 0 <= k < group.len() implies (#[trigger] cells@[k]) == (group[k].0 as usize, group[k].1 as usize) by {}
    }
    cells
}

} // verus!
