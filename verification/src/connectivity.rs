//! Whether the cells of a region form one orthogonally connected piece.

use vstd::prelude::*;
use crate::{MAX_CELLS, MAX_N};
use crate::unionfind::{lemma_class_finite, uf_class, uf_find, uf_inv, uf_union};
use crate::grid::{adjacent4, col_of, lemma_index_cell, row_of};
use crate::solver::{flat_region_model, grid_region_model, grid_shape};

verus! {

/// `path` steps between orthogonal neighbours, every cell in region `g`.
pub open spec fn region_path(n: int, reg: Seq<int>, g: int, path: Seq<int>) -> bool {
    &&& path.len() >= 1
    &&& forall|k: int| 0 <= k < path.len() ==> 0 <= #[trigger] path[k] < n * n && reg[path[k]] == g
    &&& forall|k: int| 0 <= k < path.len() - 1 ==> adjacent4(n, #[trigger] path[k], path[k + 1])
}

/// Cells `a` and `b` are joined by a path inside region `g`.
pub open spec fn linked_in_region(n: int, reg: Seq<int>, g: int, a: int, b: int) -> bool {
    exists|path: Seq<int>| #[trigger] region_path(n, reg, g, path) && path[0] == a && path.last() == b
}

/// Cell `idx` is a cell of the board in region `g`.
pub open spec fn in_region(n: int, reg: Seq<int>, g: int, idx: int) -> bool {
    0 <= idx < n * n && reg[idx] == g
}

/// Every two cells of region `g` are joined by a path inside region `g`
/// (true of a region with no cells).
pub open spec fn region_connected(n: int, reg: Seq<int>, g: int) -> bool {
    forall|a: int, b: int| #[trigger] in_region(n, reg, g, a) && #[trigger] in_region(n, reg, g, b)
        ==> linked_in_region(n, reg, g, a, b)
}

/// Every region of the board is connected.
pub open spec fn regions_all_connected(n: int, reg: Seq<int>) -> bool {
    forall|g: int| #[trigger] region_connected(n, reg, g)
}

/// On a board whose labels are all below `n`, every region is connected
/// exactly when each of the regions `0 .. n` is.
pub proof fn lemma_all_connected_per_region(n: int, reg: Seq<int>)
    requires
        forall|j: int| 0 <= j < n * n ==> 0 <= #[trigger] reg[j] < n,
    ensures
        regions_all_connected(n, reg) <==> (forall|k: int| 0 <= k < n ==> #[trigger] region_connected(n, reg, k)),
{
    if forall|k: int| 0 <= k < n ==> #[trigger] region_connected(n, reg, k) {
        assert forall|g: int| #[trigger] region_connected(n, reg, g) by {
            if !(0 <= g < n) {
                assert forall|a: int, b: int| #[trigger] in_region(n, reg, g, a) && #[trigger] in_region(n, reg, g, b)
                    implies linked_in_region(n, reg, g, a, b) by {
                    assert(0 <= reg[a] < n);
                }
            }
        }
    }
}

pub proof fn lemma_adjacent_symmetric(n: int, a: int, b: int)
    requires
        adjacent4(n, a, b),
    ensures
        adjacent4(n, b, a),
{
}

/// A single cell of the region is a path.
pub proof fn lemma_link_self(n: int, reg: Seq<int>, g: int, a: int)
    requires
        in_region(n, reg, g, a),
    ensures
        linked_in_region(n, reg, g, a, a),
{
    let path = seq![a];
    assert(region_path(n, reg, g, path));
}

/// A path read backwards is a path.
pub proof fn lemma_link_reverse(n: int, reg: Seq<int>, g: int, a: int, b: int)
    requires
        linked_in_region(n, reg, g, a, b),
    ensures
        linked_in_region(n, reg, g, b, a),
{
    let path = choose|path: Seq<int>| #[trigger] region_path(n, reg, g, path) && path[0] == a && path.last() == b;
    let rev = path.reverse();
    assert forall|k: int| 0 <= k < rev.len() - 1 implies adjacent4(n, #[trigger] rev[k], rev[k + 1]) by {
        let i = path.len() - 2 - k;
        assert(adjacent4(n, path[i], path[i + 1]));
        assert(rev[k] == path[i + 1]);
        assert(rev[k + 1] == path[i]);
    }
    assert forall|k: int| 0 <= k < rev.len() implies 0 <= #[trigger] rev[k] < n * n && reg[rev[k]] == g by {
        assert(rev[k] == path[path.len() - 1 - k]);
    }
    assert(region_path(n, reg, g, rev));
}

/// Paths from `a` to `b` and from `b` to `c` join into one from `a` to `c`.
pub proof fn lemma_link_join(n: int, reg: Seq<int>, g: int, a: int, b: int, c: int)
    requires
        linked_in_region(n, reg, g, a, b),
        linked_in_region(n, reg, g, b, c),
    ensures
        linked_in_region(n, reg, g, a, c),
{
    let p1 = choose|path: Seq<int>| #[trigger] region_path(n, reg, g, path) && path[0] == a && path.last() == b;
    let p2 = choose|path: Seq<int>| #[trigger] region_path(n, reg, g, path) && path[0] == b && path.last() == c;
    let joined = p1 + p2.drop_first();
    assert forall|k: int| 0 <= k < joined.len() implies 0 <= #[trigger] joined[k] < n * n && reg[joined[k]] == g by {
        if k >= p1.len() {
            assert(joined[k] == p2[k - p1.len() + 1]);
        }
    }
    assert forall|k: int| 0 <= k < joined.len() - 1 implies adjacent4(n, #[trigger] joined[k], joined[k + 1]) by {
        if k < p1.len() - 1 {
            assert(adjacent4(n, p1[k], p1[k + 1]));
        } else if k == p1.len() - 1 {
            assert(joined[k] == b);
            assert(joined[k + 1] == p2[1]);
            assert(adjacent4(n, p2[0], p2[1]));
        } else {
            let i = k - p1.len() + 1;
            assert(joined[k] == p2[i]);
            assert(joined[k + 1] == p2[i + 1]);
            assert(adjacent4(n, p2[i], p2[i + 1]));
        }
    }
    assert(region_path(n, reg, g, joined));
    if p2.len() == 1 {
        assert(joined.last() == p1.last());
    } else {
        assert(joined.last() == p2.last());
    }
}

/// One step to a neighbour of the same region extends a path.
pub proof fn lemma_link_step(n: int, reg: Seq<int>, g: int, a: int, b: int, c: int)
    requires
        linked_in_region(n, reg, g, a, b),
        adjacent4(n, b, c),
        reg[c] == g,
    ensures
        linked_in_region(n, reg, g, a, c),
{
    let step = seq![b, c];
    assert(adjacent4(n, step[0], step[1]));
    assert(region_path(n, reg, g, step));
    lemma_link_join(n, reg, g, a, b, c);
}

/// The orthogonal neighbours of a cell are the four cells around it.
pub proof fn lemma_adjacent_cases(n: int, a: int, b: int)
    requires
        0 < n,
        adjacent4(n, a, b),
    ensures
        (row_of(n, a) > 0 && b == a - n) || (row_of(n, a) + 1 < n && b == a + n)
            || (col_of(n, a) > 0 && b == a - 1) || (col_of(n, a) + 1 < n && b == a + 1),
{
    lemma_index_cell(n, a);
    lemma_index_cell(n, b);
    assert((row_of(n, a) - 1) * n == row_of(n, a) * n - n) by (nonlinear_arith);
    assert((row_of(n, a) + 1) * n == row_of(n, a) * n + n) by (nonlinear_arith);
}

/// The cells of region `g` among the first `k` cells.
pub open spec fn region_cells_below(reg: Seq<int>, g: int, k: int) -> Set<int> {
    Set::new(|j: int| 0 <= j < k && reg[j] == g)
}

/// How many cells among the first `k` are in region `g`.
pub open spec fn region_size_below(reg: Seq<int>, g: int, k: int) -> int
    decreases k,
{
    if k <= 0 {
        0
    } else {
        region_size_below(reg, g, k - 1) + (if reg[k - 1] == g { 1int } else { 0int })
    }
}

/// The count is the size of the set of counted cells.
pub proof fn lemma_region_size_is_len(reg: Seq<int>, g: int, k: int)
    requires
        0 <= k,
    ensures
        region_cells_below(reg, g, k).finite(),
        region_cells_below(reg, g, k).len() == region_size_below(reg, g, k),
    decreases k,
{
    if k == 0 {
        assert(region_cells_below(reg, g, 0) =~= Set::<int>::empty());
    } else {
        lemma_region_size_is_len(reg, g, k - 1);
        lemma_region_cells_step(reg, g, k - 1);
    }
}

pub proof fn lemma_region_size_step(reg: Seq<int>, g: int, k: int)
    requires
        0 <= k,
    ensures
        region_size_below(reg, g, k + 1) == region_size_below(reg, g, k) + (if reg[k] == g { 1int } else { 0int }),
{
}

/// Counting the cells of a region one cell at a time.
pub proof fn lemma_region_cells_step(reg: Seq<int>, g: int, k: int)
    requires
        0 <= k,
        region_cells_below(reg, g, k).finite(),
    ensures
        region_cells_below(reg, g, k + 1).finite(),
        region_cells_below(reg, g, k + 1).len() == region_cells_below(reg, g, k).len() + (if reg[k] == g { 1int } else { 0int }),
{
    let s0 = region_cells_below(reg, g, k);
    let s1 = region_cells_below(reg, g, k + 1);
    if reg[k] == g {
        assert(s1 =~= s0.insert(k));
    } else {
        assert(s1 =~= s0);
    }
}

/// A set of cells closed under steps inside region `g` holds every cell
/// reachable inside the region from a cell it holds.
proof fn lemma_closed_holds_path(n: int, reg: Seq<int>, g: int, seen: Set<int>, path: Seq<int>, k: int)
    requires
        region_path(n, reg, g, path),
        seen.contains(path[0]),
        forall|x: int, y: int| #[trigger] seen.contains(x) && adjacent4(n, x, y) && reg[y] == g ==> #[trigger] seen.contains(y),
        0 <= k < path.len(),
    ensures
        seen.contains(path[k]),
    decreases k,
{
    if k > 0 {
        lemma_closed_holds_path(n, reg, g, seen, path, k - 1);
        assert(adjacent4(n, path[k - 1], path[k]));
        assert(reg[path[k]] == g);
    }
}

/// The walk's queue holds distinct cells of region `g`, each reachable from
/// `start`, and `visited` marks exactly the queued cells.
pub open spec fn walk_state(n: int, reg: Seq<int>, g: int, start: int, visited: Seq<bool>, queue: Seq<usize>) -> bool {
    &&& visited.len() == MAX_CELLS
    &&& queue.no_duplicates()
    &&& forall|k: int| 0 <= k < queue.len() ==> in_region(n, reg, g, #[trigger] queue[k] as int)
    &&& forall|k: int| 0 <= k < queue.len() ==> linked_in_region(n, reg, g, start, #[trigger] queue[k] as int)
    &&& forall|i: int| 0 <= i < n * n ==> (#[trigger] visited[i] <==> queue.contains(i as usize))
}

/// Queues neighbour `nb` of `curr` when it is in the region and not yet visited.
fn visit_neighbor(
    n: usize,
    curr: usize,
    nb: usize,
    regions: &[u16; MAX_CELLS],
    reg_id: u16,
    visited: &mut [bool; MAX_CELLS],
    queue: &mut Vec<usize>,
    Ghost(start): Ghost<int>,
)
    requires
        0 < n <= 32,
        n * n <= 1024,
        adjacent4(n as int, curr as int, nb as int),
        linked_in_region(n as int, flat_region_model(n as int, regions@), reg_id as int, start, curr as int),
        walk_state(n as int, flat_region_model(n as int, regions@), reg_id as int, start, old(visited)@, old(queue)@),
    ensures
        walk_state(n as int, flat_region_model(n as int, regions@), reg_id as int, start, final(visited)@, final(queue)@),
        final(queue)@.len() >= old(queue)@.len(),
        final(queue)@.take(old(queue)@.len() as int) == old(queue)@,
        forall|i: int| 0 <= i < n * n && #[trigger] old(visited)@[i] ==> final(visited)@[i],
        flat_region_model(n as int, regions@)[nb as int] == reg_id as int ==> final(visited)@[nb as int],
{
    let ghost reg = flat_region_model(n as int, regions@);
    if regions[nb] == reg_id && !visited[nb] {
        let ghost q0 = queue@;
        visited[nb] = true;
        queue.push(nb);
        proof {
            let q1 = queue@;
            assert(!q0.contains(nb));
            assert forall|k: int, l: int| 0 <= k < l < q1.len() implies q1[k] != q1[l] by {
                if l == q0.len() {
                    assert(q0.contains(q1[k]));
                }
            }
            lemma_link_step(n as int, reg, reg_id as int, start, curr as int, nb as int);
            assert forall|i: int| 0 <= i < n * n implies (#[trigger] visited@[i] <==> q1.contains(i as usize)) by {
                if i == nb {
                    assert(q1[q0.len() as int] == nb);
                } else {
                    if q1.contains(i as usize) {
                        let k = choose|k: int| 0 <= k < q1.len() && q1[k] == i as usize;
                        assert(q0[k] == i as usize);
                    }
                    if q0.contains(i as usize) {
                        let k = choose|k: int| 0 <= k < q0.len() && q0[k] == i as usize;
                        assert(q1[k] == i as usize);
                    }
                }
            }
            assert(q1.take(q0.len() as int) =~= q0);
        }
    } else {
        proof {
            assert(queue@.take(queue@.len() as int) =~= queue@);
        }
    }
}

/// The region map of a board given as rows, each region number cut to 16 bits.
pub open spec fn grid_region_model16(n: int, regions: Seq<Vec<usize>>) -> Seq<int> {
    Seq::new((n * n) as nat, |j: int| (regions[row_of(n, j)]@[col_of(n, j)] as u16) as int)
}

/// Copies the rows of a board into a flat array, each region number cut to 16 bits.
pub fn flatten_regions(n: usize, regions: &[Vec<usize>]) -> (flat: [u16; MAX_CELLS])
    requires
        n <= 32,
        grid_shape(n as int, regions@),
    ensures
        flat_region_model(n as int, flat@) == grid_region_model16(n as int, regions@),
{
    let ghost model = grid_region_model16(n as int, regions@);
    let mut flat = [0u16; MAX_CELLS];
    proof {
        assert(n * n <= 1024) by (nonlinear_arith)
            requires n <= 32;
        assert(0 * n == 0);
    }
    for r in 0..n
        invariant
            n <= 32,
            n * n <= 1024,
            grid_shape(n as int, regions@),
            model == grid_region_model16(n as int, regions@),
            forall|j: int| 0 <= j < r * n ==> flat@[j] as int == #[trigger] model[j],
    {
        for c in 0..n
            invariant
                n <= 32,
                n * n <= 1024,
                r < n,
                grid_shape(n as int, regions@),
                model == grid_region_model16(n as int, regions@),
                forall|j: int| 0 <= j < r * n + c ==> flat@[j] as int == #[trigger] model[j],
        {
            proof {
                crate::grid::lemma_cell_index(n as int, r as int, c as int);
                assert(regions@[r as int]@.len() >= n);
            }
            let v = regions[r][c];
            flat[r * n + c] = v as u16;
        }
        proof {
            assert((r + 1) * n == r * n + n) by (nonlinear_arith);
        }
    }
    proof {
        assert(flat_region_model(n as int, flat@) =~= model);
    }
    flat
}

/// Where every region number fits in 16 bits, cutting them changes nothing.
pub proof fn lemma_model16_exact(n: int, regions: Seq<Vec<usize>>)
    requires
        0 <= n <= 32,
        grid_shape(n, regions),
        forall|j: int| 0 <= j < n * n ==> #[trigger] grid_region_model(n, regions)[j] <= u16::MAX,
    ensures
        grid_region_model16(n, regions) == grid_region_model(n, regions),
{
    assert forall|j: int| 0 <= j < n * n implies #[trigger] grid_region_model16(n, regions)[j] == grid_region_model(n, regions)[j] by {
        assert(grid_region_model(n, regions)[j] <= u16::MAX);
    }
    assert(grid_region_model16(n, regions) =~= grid_region_model(n, regions));
}

/// Whether the cells of region `reg_id` of the board `regions[r][c]` form one
/// orthogonally connected piece (region numbers are compared in 16 bits).
pub fn is_region_connected(n: usize, regions: &[Vec<usize>], reg_id: usize) -> (connected: bool)
    requires
        n <= 32,
        grid_shape(n as int, regions@),
    ensures
        connected == region_connected(n as int, grid_region_model16(n as int, regions@), (reg_id as u16) as int),
{
    let flat = flatten_regions(n, regions);
    is_region_connected_fast(n, &flat, reg_id as u16)
}

/// The links of cell `a` to its right and lower neighbours of the same
/// region are in the union-find classes `rt`.
pub open spec fn edges_joined(n: int, reg: Seq<int>, rt: Seq<int>, a: int) -> bool {
    &&& (col_of(n, a) + 1 < n && reg[a] == reg[a + 1]) ==> rt[a] == rt[a + 1]
    &&& (row_of(n, a) + 1 < n && reg[a] == reg[a + n]) ==> rt[a] == rt[a + n]
}

/// Cells of one union-find class are of one region and joined inside it.
pub open spec fn classes_sound(n: int, reg: Seq<int>, rt: Seq<int>) -> bool {
    forall|x: int, y: int| 0 <= x < n * n && 0 <= y < n * n && #[trigger] rt[x] == #[trigger] rt[y]
        ==> reg[x] == reg[y] && linked_in_region(n, reg, reg[x], x, y)
}

/// With every link joined, cells along a path inside a region share a class.
proof fn lemma_path_one_class(n: int, reg: Seq<int>, rt: Seq<int>, g: int, path: Seq<int>, k: int)
    requires
        0 < n,
        region_path(n, reg, g, path),
        forall|a: int| 0 <= a < n * n ==> #[trigger] edges_joined(n, reg, rt, a),
        0 <= k < path.len(),
    ensures
        rt[path[0]] == rt[path[k]],
    decreases k,
{
    if k > 0 {
        lemma_path_one_class(n, reg, rt, g, path, k - 1);
        let x = path[k - 1];
        let y = path[k];
        assert(adjacent4(n, x, y));
        assert(reg[x] == g && reg[y] == g);
        lemma_adjacent_cases(n, x, y);
        lemma_index_cell(n, x);
        lemma_index_cell(n, y);
        assert(edges_joined(n, reg, rt, x));
        assert(edges_joined(n, reg, rt, y));
        if y == x - n {
            crate::grid::lemma_cell_index(n, row_of(n, x) - 1, col_of(n, x));
            assert((row_of(n, x) - 1) * n == row_of(n, x) * n - n) by (nonlinear_arith);
        } else if y == x - 1 {
            crate::grid::lemma_cell_index(n, row_of(n, x), col_of(n, x) - 1);
        }
    }
}

/// With every link joined and classes sound, a region is connected exactly
/// when the class of one of its cells has as many cells as the region.
proof fn lemma_connected_iff_sizes(n: int, reg: Seq<int>, rt: Seq<int>, i: int)
    requires
        0 < n,
        reg.len() == n * n,
        rt.len() == n * n,
        0 <= i < n * n,
        classes_sound(n, reg, rt),
        forall|a: int| 0 <= a < n * n ==> #[trigger] edges_joined(n, reg, rt, a),
    ensures
        region_connected(n, reg, reg[i]) <==>
            uf_class(rt, rt[i], n * n).len() == region_cells_below(reg, reg[i], n * n).len(),
{
    let g = reg[i];
    let total = n * n;
    let cls = uf_class(rt, rt[i], total);
    let rs = region_cells_below(reg, g, total);
    lemma_class_finite(rt, rt[i], total);
    lemma_class_finite(reg, g, total);
    assert(rs =~= uf_class(reg, g, total));
    assert(cls.subset_of(rs)) by {
        assert forall|x: int| cls.contains(x) implies rs.contains(x) by {
            assert(rt[x] == rt[i]);
        }
    }
    if cls.len() == rs.len() {
        vstd::set_lib::lemma_subset_equality(cls, rs);
        assert forall|a: int, b: int| #[trigger] in_region(n, reg, g, a) && #[trigger] in_region(n, reg, g, b)
            implies linked_in_region(n, reg, g, a, b) by {
            assert(rs.contains(a) && rs.contains(b));
            assert(rt[a] == rt[b]);
        }
    }
    if region_connected(n, reg, g) {
        assert forall|x: int| rs.contains(x) implies cls.contains(x) by {
            assert(in_region(n, reg, g, i) && in_region(n, reg, g, x));
            assert(linked_in_region(n, reg, g, i, x));
            let path = choose|path: Seq<int>| #[trigger] region_path(n, reg, g, path) && path[0] == i && path.last() == x;
            lemma_path_one_class(n, reg, rt, g, path, path.len() - 1);
        }
        vstd::set_lib::lemma_len_subset(rs, cls);
        vstd::set_lib::lemma_len_subset(cls, rs);
    }
}

/// Merging the classes of two neighbouring cells of one region keeps the
/// classes sound and every link already joined.
proof fn lemma_union_keeps(n: int, reg: Seq<int>, rt: Seq<int>, rt2: Seq<int>, i: int, j: int)
    requires
        0 < n,
        reg.len() == n * n,
        classes_sound(n, reg, rt),
        adjacent4(n, i, j),
        reg[i] == reg[j],
        forall|x: int, y: int| 0 <= x < n * n && 0 <= y < n * n ==>
            (#[trigger] rt2[x] == #[trigger] rt2[y] <==> (rt[x] == rt[y]
                || (rt[x] == rt[i] && rt[y] == rt[j]) || (rt[x] == rt[j] && rt[y] == rt[i]))),
    ensures
        classes_sound(n, reg, rt2),
        rt2[i] == rt2[j],
        forall|a: int| 0 <= a < n * n && #[trigger] edges_joined(n, reg, rt, a) ==> edges_joined(n, reg, rt2, a),
{
    let g = reg[i];
    assert forall|x: int, y: int| 0 <= x < n * n && 0 <= y < n * n && #[trigger] rt2[x] == #[trigger] rt2[y]
        implies reg[x] == reg[y] && linked_in_region(n, reg, reg[x], x, y) by {
        if rt[x] == rt[y] {
            assert(reg[x] == reg[y] && linked_in_region(n, reg, reg[x], x, y));
        } else if rt[x] == rt[i] && rt[y] == rt[j] {
            assert(reg[x] == reg[i] && linked_in_region(n, reg, reg[x], x, i));
            assert(reg[j] == reg[y] && linked_in_region(n, reg, reg[j], j, y));
            lemma_link_step(n, reg, g, x, i, j);
            lemma_link_join(n, reg, g, x, j, y);
        } else {
            assert(rt[x] == rt[j] && rt[y] == rt[i]);
            assert(reg[x] == reg[j] && linked_in_region(n, reg, reg[x], x, j));
            assert(reg[i] == reg[y] && linked_in_region(n, reg, reg[i], i, y));
            lemma_adjacent_symmetric(n, i, j);
            lemma_link_step(n, reg, g, x, j, i);
            lemma_link_join(n, reg, g, x, i, y);
        }
    }
    assert(rt2[i] == rt2[j]);
    assert forall|a: int| 0 <= a < n * n && #[trigger] edges_joined(n, reg, rt, a) implies edges_joined(n, reg, rt2, a) by {
        lemma_index_cell(n, a);
        if col_of(n, a) + 1 < n && reg[a] == reg[a + 1] {
            crate::grid::lemma_cell_index(n, row_of(n, a), col_of(n, a) + 1);
            assert(rt2[a] == rt2[a + 1]);
        }
        if row_of(n, a) + 1 < n && reg[a] == reg[a + n] {
            crate::grid::lemma_cell_index(n, row_of(n, a) + 1, col_of(n, a));
            assert((row_of(n, a) + 1) * n == row_of(n, a) * n + n) by (nonlinear_arith);
            assert(rt2[a] == rt2[a + n]);
        }
    }
}

/// Merges, cell by cell in row-major order, every cell with its right and
/// lower neighbours of the same region.
fn join_neighbours(
    n: usize,
    regions: &[u16; MAX_CELLS],
    parent: &mut [u16; MAX_CELLS],
    rank: &mut [u8; MAX_CELLS],
    Ghost(rt0): Ghost<Seq<int>>,
    Ghost(dist0): Ghost<Seq<nat>>,
) -> (res: Ghost<(Seq<int>, Seq<nat>)>)
    requires
        0 < n <= 32,
        uf_inv((n * n) as int, old(parent)@, old(rank)@, rt0, dist0),
        classes_sound(n as int, flat_region_model(n as int, regions@), rt0),
    ensures
        uf_inv((n * n) as int, final(parent)@, final(rank)@, res@.0, res@.1),
        classes_sound(n as int, flat_region_model(n as int, regions@), res@.0),
        forall|a: int| 0 <= a < n * n ==> #[trigger] edges_joined(n as int, flat_region_model(n as int, regions@), res@.0, a),
{
    let ghost reg = flat_region_model(n as int, regions@);
    let ghost mut rt = rt0;
    let ghost mut dist = dist0;
    proof {
        assert(n * n <= 1024) by (nonlinear_arith)
            requires n <= 32;
        assert(0 * n == 0);
    }
    let total = n * n;
    for r in 0..n
        invariant
            0 < n <= 32,
            total == n * n,
            total <= 1024,
            reg == flat_region_model(n as int, regions@),
            uf_inv(total as int, parent@, rank@, rt, dist),
            classes_sound(n as int, reg, rt),
            forall|a: int| 0 <= a < r * n ==> #[trigger] edges_joined(n as int, reg, rt, a),
    {
        proof {
            assert(r * n < n * n) by (nonlinear_arith)
                requires r < n;
        }
        let row_offset = r * n;
        for c in 0..n
            invariant
                0 < n <= 32,
                r < n,
                row_offset == r * n,
                total == n * n,
                total <= 1024,
                reg == flat_region_model(n as int, regions@),
                uf_inv(total as int, parent@, rank@, rt, dist),
                classes_sound(n as int, reg, rt),
                forall|a: int| 0 <= a < r * n + c ==> #[trigger] edges_joined(n as int, reg, rt, a),
        {
            proof {
                crate::grid::lemma_cell_index(n as int, r as int, c as int);
            }
            let idx = row_offset + c;
            let ghost rt_start = rt;
            if c + 1 < n {
                proof {
                    crate::grid::lemma_cell_index(n as int, r as int, c + 1);
                }
                let res = join_if_same(n, idx, idx + 1, regions, parent, rank, Ghost(total as int), Ghost(rt), Ghost(dist));
                proof {
                    rt = res@.0;
                    dist = res@.1;
                }
            }
            let ghost rt_mid = rt;
            if r + 1 < n {
                proof {
                    crate::grid::lemma_cell_index(n as int, r + 1, c as int);
                    assert((r + 1) * n == r * n + n) by (nonlinear_arith);
                }
                let res = join_if_same(n, idx, idx + n, regions, parent, rank, Ghost(total as int), Ghost(rt), Ghost(dist));
                proof {
                    rt = res@.0;
                    dist = res@.1;
                }
            }
            proof {
                assert(edges_joined(n as int, reg, rt, idx as int)) by {
                    assert((r + 1) * n == r * n + n) by (nonlinear_arith);
                    if c + 1 < n && reg[idx as int] == reg[idx + 1] {
                        assert(rt_mid[idx as int] == rt_mid[idx + 1]);
                        assert(rt[idx as int] == rt[idx + 1]);
                    }
                }
                assert forall|a: int| 0 <= a < r * n + c + 1 implies #[trigger] edges_joined(n as int, reg, rt, a) by {
                    if a < idx {
                        assert(edges_joined(n as int, reg, rt_start, a));
                        assert(edges_joined(n as int, reg, rt_mid, a));
                    }
                }
            }
        }
        proof {
            assert((r + 1) * n == r * n + n) by (nonlinear_arith);
        }
    }
    Ghost((rt, dist))
}

/// Merges the classes of neighbouring cells `a` and `b` when they are in one region.
fn join_if_same(
    n: usize,
    a: usize,
    b: usize,
    regions: &[u16; MAX_CELLS],
    parent: &mut [u16; MAX_CELLS],
    rank: &mut [u8; MAX_CELLS],
    Ghost(total): Ghost<int>,
    Ghost(rt): Ghost<Seq<int>>,
    Ghost(dist): Ghost<Seq<nat>>,
) -> (res: Ghost<(Seq<int>, Seq<nat>)>)
    requires
        0 < n <= 32,
        total == n * n,
        adjacent4(n as int, a as int, b as int),
        uf_inv(total, old(parent)@, old(rank)@, rt, dist),
        classes_sound(n as int, flat_region_model(n as int, regions@), rt),
    ensures
        uf_inv(total, final(parent)@, final(rank)@, res@.0, res@.1),
        classes_sound(n as int, flat_region_model(n as int, regions@), res@.0),
        regions@[a as int] == regions@[b as int] ==> res@.0[a as int] == res@.0[b as int],
        forall|x: int, y: int| 0 <= x < n * n && 0 <= y < n * n && #[trigger] rt[x] == #[trigger] rt[y] ==> res@.0[x] == res@.0[y],
        forall|x: int| 0 <= x < n * n && #[trigger] edges_joined(n as int, flat_region_model(n as int, regions@), rt, x)
            ==> edges_joined(n as int, flat_region_model(n as int, regions@), res@.0, x),
{
    let ghost reg = flat_region_model(n as int, regions@);
    proof {
        assert(n * n <= 1024) by (nonlinear_arith)
            requires n <= 32;
    }
    if regions[a] == regions[b] {
        let res = uf_union(a, b, parent, rank, Ghost(total), Ghost(rt), Ghost(dist));
        proof {
            lemma_union_keeps(n as int, reg, rt, res@.0, a as int, b as int);
        }
        res
    } else {
        Ghost((rt, dist))
    }
}

/// Whether every region of the board is connected, by merging neighbouring
/// cells of one region in a union-find forest and comparing, for each
/// region, the size of the class of its first cell with the region's size.
pub fn all_regions_connected_fast(n: usize, regions: &[u16; MAX_CELLS]) -> (connected: bool)
    requires
        n <= 32,
        forall|j: int| 0 <= j < n * n ==> (#[trigger] regions@[j]) < MAX_N,
    ensures
        connected == regions_all_connected(n as int, flat_region_model(n as int, regions@)),
{
    let ghost reg = flat_region_model(n as int, regions@);
    proof {
        assert(n * n <= 1024) by (nonlinear_arith)
            requires n <= 32;
    }
    let total = n * n;
    if n == 0 {
        proof {
            assert forall|g: int| #[trigger] region_connected(n as int, reg, g) by {
                assert forall|a: int, b: int| #[trigger] in_region(n as int, reg, g, a) && #[trigger] in_region(n as int, reg, g, b)
                    implies linked_in_region(n as int, reg, g, a, b) by {
                }
            }
        }
        return true;
    }
    let mut parent = [0u16; MAX_CELLS];
    let mut rank = [0u8; MAX_CELLS];
    let mut reg_sizes = [0u16; MAX_N];
    for i in 0..total
        invariant
            0 < n <= 32,
            total == n * n,
            total <= 1024,
            reg == flat_region_model(n as int, regions@),
            forall|j: int| 0 <= j < n * n ==> (#[trigger] regions@[j]) < MAX_N,
            rank@ == Seq::new(MAX_CELLS as nat, |x: int| 0u8),
            forall|x: int| 0 <= x < i ==> #[trigger] parent@[x] == x,
            forall|g: int| 0 <= g < MAX_N ==> #[trigger] reg_sizes@[g] == region_size_below(reg, g, i as int),
            forall|g: int| 0 <= g < MAX_N ==> #[trigger] reg_sizes@[g] <= i,
    {
        parent[i] = i as u16;
        rank[i] = 0;
        let g = regions[i] as usize;
        proof {
            assert forall|h: int| 0 <= h < MAX_N implies #[trigger] region_size_below(reg, h, i + 1)
                == region_size_below(reg, h, i as int) + (if h == g { 1int } else { 0int }) by {
                lemma_region_size_step(reg, h, i as int);
            }
        }
        reg_sizes[g] = reg_sizes[g] + 1;
        proof {
            assert(rank@ =~= Seq::new(MAX_CELLS as nat, |x: int| 0u8));
        }
    }
    let ghost mut rt: Seq<int> = Seq::new(total as nat, |x: int| x);
    let ghost mut dist: Seq<nat> = Seq::new(total as nat, |x: int| 0nat);
    proof {
        crate::unionfind::lemma_uf_init(total as int, parent@, rank@);
        assert forall|x: int, y: int| 0 <= x < n * n && 0 <= y < n * n && #[trigger] rt[x] == #[trigger] rt[y]
            implies reg[x] == reg[y] && linked_in_region(n as int, reg, reg[x], x, y) by {
            lemma_link_self(n as int, reg, reg[x], x);
        }
    }
    proof {
        assert(0 * n == 0);
    }
    let joined = join_neighbours(n, regions, &mut parent, &mut rank, Ghost(rt), Ghost(dist));
    proof {
        rt = joined@.0;
        dist = joined@.1;
    }
    // Count the cells of every class.
    let mut comp_sizes = [0u16; MAX_CELLS];
    proof {
        assert forall|x: int| 0 <= x < total implies #[trigger] comp_sizes@[x] == region_size_below(rt, x, 0) by {}
    }
    for i in 0..total
        invariant
            0 < n <= 32,
            total == n * n,
            total <= 1024,
            reg == flat_region_model(n as int, regions@),
            forall|j: int| 0 <= j < n * n ==> (#[trigger] regions@[j]) < MAX_N,
            forall|g: int| 0 <= g < MAX_N ==> #[trigger] reg_sizes@[g] == region_size_below(reg, g, total as int),
            uf_inv(total as int, parent@, rank@, rt, dist),
            classes_sound(n as int, reg, rt),
            forall|a: int| 0 <= a < n * n ==> #[trigger] edges_joined(n as int, reg, rt, a),
            forall|x: int| 0 <= x < total ==> #[trigger] comp_sizes@[x] == region_size_below(rt, x, i as int),
            forall|x: int| 0 <= x < total ==> #[trigger] comp_sizes@[x] <= i,
    {
        let root = uf_find(i, &mut parent, Ghost(total as int), Ghost(rank@), Ghost(rt), Ghost(dist));
        proof {
            crate::unionfind::lemma_uf_shape(total as int, parent@, rank@, rt, dist);
            assert forall|x: int| 0 <= x < total implies #[trigger] region_size_below(rt, x, i + 1)
                == region_size_below(rt, x, i as int) + (if x == root { 1int } else { 0int }) by {
                lemma_region_size_step(rt, x, i as int);
            }
        }
        comp_sizes[root] = comp_sizes[root] + 1;
    }
    // Compare, for the first cell of each region, its class size with the region size.
    let mut checked = [false; MAX_N];
    for i in 0..total
        invariant
            0 < n <= 32,
            total == n * n,
            total <= 1024,
            reg == flat_region_model(n as int, regions@),
            forall|j: int| 0 <= j < n * n ==> (#[trigger] regions@[j]) < MAX_N,
            uf_inv(total as int, parent@, rank@, rt, dist),
            classes_sound(n as int, reg, rt),
            forall|a: int| 0 <= a < n * n ==> #[trigger] edges_joined(n as int, reg, rt, a),
            forall|x: int| 0 <= x < total ==> #[trigger] comp_sizes@[x] == region_size_below(rt, x, total as int),
            forall|g: int| 0 <= g < MAX_N ==> #[trigger] reg_sizes@[g] == region_size_below(reg, g, total as int),
            forall|g: int| 0 <= g < MAX_N ==> (#[trigger] checked@[g] <==> exists|y: int| 0 <= y < i && reg[y] == g),
            forall|g: int| 0 <= g < MAX_N && #[trigger] checked@[g] ==> region_connected(n as int, reg, g),
    {
        let g = regions[i] as usize;
        if !checked[g] {
            checked[g] = true;
            let root = uf_find(i, &mut parent, Ghost(total as int), Ghost(rank@), Ghost(rt), Ghost(dist));
            proof {
                crate::unionfind::lemma_uf_shape(total as int, parent@, rank@, rt, dist);
                lemma_connected_iff_sizes(n as int, reg, rt, i as int);
                assert(uf_class(rt, rt[i as int], total as int) =~= region_cells_below(rt, root as int, total as int));
                lemma_region_size_is_len(rt, root as int, total as int);
                lemma_region_size_is_len(reg, g as int, total as int);
            }
            if comp_sizes[root] != reg_sizes[g] {
                return false;
            }
        }
        proof {
            assert forall|h: int| 0 <= h < MAX_N implies (#[trigger] checked@[h] <==> exists|y: int| 0 <= y < i + 1 && reg[y] == h) by {
                if h == g {
                    assert(reg[i as int] == h);
                }
            }
        }
    }
    proof {
        assert forall|h: int| #[trigger] region_connected(n as int, reg, h) by {
            if !(0 <= h < MAX_N && checked@[h]) {
                assert forall|a: int, b: int| #[trigger] in_region(n as int, reg, h, a) && #[trigger] in_region(n as int, reg, h, b)
                    implies linked_in_region(n as int, reg, h, a, b) by {
                    assert(reg[a] == h);
                    assert(regions@[a] < MAX_N);
                }
            }
        }
    }
    true
}

/// Whether every region of the board `regions[r][c]` is connected (region
/// numbers are taken in 16 bits, and must then be below `MAX_N`).
pub fn all_regions_connected(n: usize, regions: &[Vec<usize>]) -> (connected: bool)
    requires
        n <= 32,
        grid_shape(n as int, regions@),
        forall|j: int| 0 <= j < n * n ==> #[trigger] grid_region_model16(n as int, regions@)[j] < MAX_N,
    ensures
        connected == regions_all_connected(n as int, grid_region_model16(n as int, regions@)),
{
    let flat = flatten_regions(n, regions);
    proof {
        assert forall|j: int| 0 <= j < n * n implies (#[trigger] flat@[j]) < MAX_N by {
            assert(flat_region_model(n as int, flat@)[j] == grid_region_model16(n as int, regions@)[j]);
        }
    }
    all_regions_connected_fast(n, &flat)
}

/// The cells of a duplicate-free queue, as integers, are as many as its entries.
proof fn lemma_queue_set_len(q: Seq<usize>)
    requires
        q.no_duplicates(),
    ensures
        q.to_set().map(|x: usize| x as int).finite(),
        q.to_set().map(|x: usize| x as int).len() == q.len(),
{
    broadcast use vstd::seq_lib::seq_to_set_is_finite;
    q.unique_seq_to_set();
    let f = |x: usize| x as int;
    let g = |y: int| y as usize;
    vstd::set_lib::lemma_map_size(q.to_set(), q.to_set().map(f), f);
}

/// Whether the cells of region `reg_id` form one orthogonally connected
/// piece, by a breadth-first walk from its first cell.
pub fn is_region_connected_fast(n: usize, regions: &[u16; MAX_CELLS], reg_id: u16) -> (connected: bool)
    requires
        n <= 32,
    ensures
        connected == region_connected(n as int, flat_region_model(n as int, regions@), reg_id as int),
{
    let ghost reg = flat_region_model(n as int, regions@);
    let ghost g = reg_id as int;
    proof {
        assert(n * n <= 1024) by (nonlinear_arith)
            requires n <= 32;
        assert(region_cells_below(reg, g, 0) =~= Set::<int>::empty());
    }
    let total = n * n;
    let mut start_idx = usize::MAX;
    let mut target_count: usize = 0;
    for idx in 0..total
        invariant
            total == n * n,
            total <= 1024,
            reg == flat_region_model(n as int, regions@),
            g == reg_id as int,
            region_cells_below(reg, g, idx as int).finite(),
            target_count == region_cells_below(reg, g, idx as int).len(),
            target_count <= idx,
            start_idx == usize::MAX ==> forall|j: int| 0 <= j < idx ==> reg[j] != g,
            start_idx != usize::MAX ==> start_idx < idx && reg[start_idx as int] == g,
    {
        proof {
            lemma_region_cells_step(reg, g, idx as int);
        }
        if regions[idx] == reg_id {
            if start_idx == usize::MAX {
                start_idx = idx;
            }
            target_count = target_count + 1;
        }
    }
    if start_idx == usize::MAX {
        proof {
            assert forall|a: int, b: int| #[trigger] in_region(n as int, reg, g, a) && #[trigger] in_region(n as int, reg, g, b)
                implies linked_in_region(n as int, reg, g, a, b) by {
                assert(reg[a] != g);
            }
        }
        return true;
    }
    let ghost start = start_idx as int;
    let mut visited = [false; MAX_CELLS];
    let mut queue: Vec<usize> = Vec::new();
    visited[start_idx] = true;
    queue.push(start_idx);
    proof {
        lemma_link_self(n as int, reg, g, start);
        assert(n > 0) by (nonlinear_arith)
            requires start_idx < n * n;
        let q = queue@;
        assert(q =~= seq![start_idx]);
        assert forall|i: int| 0 <= i < n * n implies (#[trigger] visited@[i] <==> q.contains(i as usize)) by {
            if i == start {
                assert(q[0] == start_idx);
            } else {
                if q.contains(i as usize) {
                    let k = choose|k: int| 0 <= k < q.len() && q[k] == i as usize;
                }
            }
        }
    }
    let mut head: usize = 0;
    let mut seen: usize = 0;
    while head < queue.len()
        invariant
            0 < n <= 32,
            total == n * n,
            total <= 1024,
            reg == flat_region_model(n as int, regions@),
            g == reg_id as int,
            in_region(n as int, reg, g, start),
            head <= queue@.len() <= total,
            seen == head,
            start == start_idx as int,
            queue@.len() >= 1 && queue@[0] == start_idx,
            walk_state(n as int, reg, g, start, visited@, queue@),
            forall|k: int, y: int| 0 <= k < head && adjacent4(n as int, #[trigger] queue@[k] as int, y) && reg[y] == g
                ==> #[trigger] visited@[y],
        decreases total - head,
    {
        let curr = queue[head];
        head = head + 1;
        seen = seen + 1;
        let r = curr / n;
        let c = curr % n;
        let ghost q0 = queue@;
        let ghost v0 = visited@;
        proof {
            lemma_index_cell(n as int, curr as int);
            assert((r - 1) * n == r * n - n) by (nonlinear_arith);
            assert((r + 1) * n == r * n + n) by (nonlinear_arith);
            assert(q0.contains(curr));
        }
        let ghost qa = queue@;
        if r > 0 {
            proof { crate::grid::lemma_cell_index(n as int, r - 1, c as int); }
            visit_neighbor(n, curr, curr - n, regions, reg_id, &mut visited, &mut queue, Ghost(start));
        }
        let ghost qb = queue@;
        if r + 1 < n {
            proof { crate::grid::lemma_cell_index(n as int, r + 1, c as int); }
            visit_neighbor(n, curr, curr + n, regions, reg_id, &mut visited, &mut queue, Ghost(start));
        }
        let ghost qc = queue@;
        if c > 0 {
            proof { crate::grid::lemma_cell_index(n as int, r as int, c - 1); }
            visit_neighbor(n, curr, curr - 1, regions, reg_id, &mut visited, &mut queue, Ghost(start));
        }
        let ghost qd = queue@;
        if c + 1 < n {
            proof { crate::grid::lemma_cell_index(n as int, r as int, c + 1); }
            visit_neighbor(n, curr, curr + 1, regions, reg_id, &mut visited, &mut queue, Ghost(start));
        }
        proof {
            let q = queue@;
            assert(qb.take(qa.len() as int) == qa);
            assert(qc.take(qb.len() as int) == qb);
            assert(qd.take(qc.len() as int) == qc);
            assert(q.take(qd.len() as int) == qd);
            assert forall|k: int| 0 <= k < q0.len() implies #[trigger] q[k] == q0[k] by {
                assert(qb[k] == qb.take(qa.len() as int)[k]);
                assert(qc[k] == qc.take(qb.len() as int)[k]);
                assert(qd[k] == qd.take(qc.len() as int)[k]);
                assert(q[k] == q.take(qd.len() as int)[k]);
            }
            assert forall|k: int, y: int| 0 <= k < head && adjacent4(n as int, #[trigger] q[k] as int, y) && reg[y] == g
                implies #[trigger] visited@[y] by {
                if k < head - 1 {
                    assert(q[k] == q0[k]);
                    assert(v0[y]);
                } else {
                    assert(q[k] == curr);
                    lemma_adjacent_cases(n as int, curr as int, y);
                }
            }
            let ints = Seq::new(q.len(), |k: int| q[k] as int);
            assert forall|k: int, l: int| 0 <= k < l < ints.len() implies ints[k] != ints[l] by {
                assert(q[k] != q[l]);
            }
            assert forall|k: int| 0 <= k < ints.len() implies 0 <= #[trigger] ints[k] < total by {
                assert(in_region(n as int, reg, g, q[k] as int));
            }
            crate::counting::lemma_distinct_in_range(ints, total as int);
        }
    }
    proof {
        let q = queue@;
        let vs = q.to_set().map(|x: usize| x as int);
        let rs = region_cells_below(reg, g, total as int);
        assert forall|x: int| #[trigger] rs.contains(x) == in_region(n as int, reg, g, x) by {}
        // the visited cells are the queued ones, a closed subset of the region
        assert forall|x: int, y: int| #[trigger] vs.contains(x) && adjacent4(n as int, x, y) && reg[y] == g
            implies #[trigger] vs.contains(y) by {
            let u = choose|u: usize| q.to_set().contains(u) && u as int == x;
            let k = choose|k: int| 0 <= k < q.len() && q[k] == u;
            assert(visited@[y]);
            assert(q.contains(y as usize));
            assert(q.to_set().contains(y as usize));
        }
        assert(vs.subset_of(rs)) by {
            assert forall|x: int| vs.contains(x) implies rs.contains(x) by {
                let u = choose|u: usize| q.to_set().contains(u) && u as int == x;
                let k = choose|k: int| 0 <= k < q.len() && q[k] == u;
            }
        }
        lemma_queue_set_len(q);
        if seen == target_count {
            vstd::set_lib::lemma_subset_equality(vs, rs);
            assert forall|a: int, b: int| #[trigger] in_region(n as int, reg, g, a) && #[trigger] in_region(n as int, reg, g, b)
                implies linked_in_region(n as int, reg, g, a, b) by {
                assert(vs.contains(a));
                assert(vs.contains(b));
                let ua = choose|u: usize| q.to_set().contains(u) && u as int == a;
                let ka = choose|k: int| 0 <= k < q.len() && q[k] == ua;
                let ub = choose|u: usize| q.to_set().contains(u) && u as int == b;
                let kb = choose|k: int| 0 <= k < q.len() && q[k] == ub;
                assert(linked_in_region(n as int, reg, g, start, a));
                assert(linked_in_region(n as int, reg, g, start, b));
                lemma_link_reverse(n as int, reg, g, start, a);
                lemma_link_join(n as int, reg, g, a, start, b);
            }
        } else {
            if region_connected(n as int, reg, g) {
                assert(q[0] == start_idx);
                assert(q.contains(start as usize));
                assert(q.to_set().contains(start_idx));
                assert(vs.contains(start_idx as int));
                assert(vs.contains(start));
                assert forall|x: int| rs.contains(x) implies vs.contains(x) by {
                    assert(in_region(n as int, reg, g, start));
                    assert(linked_in_region(n as int, reg, g, start, x));
                    let path = choose|path: Seq<int>| #[trigger] region_path(n as int, reg, g, path) && path[0] == start && path.last() == x;
                    lemma_closed_holds_path(n as int, reg, g, vs, path, path.len() - 1);
                }
                vstd::set_lib::lemma_len_subset(rs, vs);
                vstd::set_lib::lemma_len_subset(vs, rs);
            }
        }
    }
    seen == target_count
}

} // verus!
