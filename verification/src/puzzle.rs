//! The rules of the puzzle: what a solution is.

use vstd::prelude::*;
use crate::counting::lemma_distinct_in_range;
use crate::grid::{cell_index, col_of, lemma_cell_index, lemma_index_cell, row_of, touching};

verus! {

/// Flat index of the cell holding tree `t` (row, column).
pub open spec fn tree_cell(n: int, t: (usize, usize)) -> int {
    cell_index(n, t.0 as int, t.1 as int)
}

/// The tree standing on flat cell `idx`.
pub open spec fn tree_at(n: int, idx: int) -> (usize, usize) {
    (row_of(n, idx) as usize, col_of(n, idx) as usize)
}

/// Every cell of the `n x n` board belongs to one of the regions `0 .. n`.
pub open spec fn well_formed_regions(n: int, reg: Seq<int>) -> bool {
    &&& reg.len() == n * n
    &&& forall|j: int| 0 <= j < n * n ==> 0 <= #[trigger] reg[j] < n
}

/// Trees `a` and `b` may stand together: different rows, columns and
/// regions, and not touching.
pub open spec fn trees_compatible(n: int, reg: Seq<int>, a: (usize, usize), b: (usize, usize)) -> bool {
    &&& a.0 != b.0
    &&& a.1 != b.1
    &&& reg[tree_cell(n, a)] != reg[tree_cell(n, b)]
    &&& !touching(a.0 as int, a.1 as int, b.0 as int, b.1 as int)
}

/// The trees `p` are on the board and pairwise compatible.
pub open spec fn valid_partial(n: int, reg: Seq<int>, p: Seq<(usize, usize)>) -> bool {
    &&& forall|k: int| 0 <= k < p.len() ==> (#[trigger] p[k]).0 < n && p[k].1 < n
    &&& forall|k: int, l: int|
        0 <= k < p.len() && 0 <= l < p.len() && k != l ==> trees_compatible(n, reg, #[trigger] p[k], #[trigger] p[l])
}

/// `p` solves the puzzle: `n` compatible trees, so one in every row, every
/// column and every region.
pub open spec fn is_solution(n: int, reg: Seq<int>, p: Seq<(usize, usize)>) -> bool {
    p.len() == n && valid_partial(n, reg, p)
}

/// The trees of `p` all stand in `q`.
pub open spec fn trees_within(p: Seq<(usize, usize)>, q: Seq<(usize, usize)>) -> bool {
    forall|k: int| 0 <= k < p.len() ==> q.contains(#[trigger] p[k])
}

/// Cell `idx` can take one more tree beside the trees `placed`.
pub open spec fn cell_free(n: int, reg: Seq<int>, placed: Seq<(usize, usize)>, idx: int) -> bool {
    &&& 0 <= idx < n * n
    &&& forall|k: int| 0 <= k < placed.len() ==> trees_compatible(n, reg, #[trigger] placed[k], tree_at(n, idx))
}

/// `sols` are solutions with pairwise different sets of trees.
pub open spec fn distinct_solutions(n: int, reg: Seq<int>, sols: Seq<Seq<(usize, usize)>>) -> bool {
    &&& forall|i: int| 0 <= i < sols.len() ==> is_solution(n, reg, #[trigger] sols[i])
    &&& forall|i: int, j: int| 0 <= i < j < sols.len() ==> (#[trigger] sols[i]).to_set() != (#[trigger] sols[j]).to_set()
}

/// Every solution of the puzzle has the trees of one of `sols`.
pub open spec fn all_solutions_among(n: int, reg: Seq<int>, sols: Seq<Seq<(usize, usize)>>) -> bool {
    forall|q: Seq<(usize, usize)>| #[trigger] is_solution(n, reg, q) ==>
        exists|i: int| 0 <= i < sols.len() && (#[trigger] sols[i]).to_set() == q.to_set()
}

/// The puzzle has exactly one solution, up to the order of its trees.
pub open spec fn has_unique_solution(n: int, reg: Seq<int>) -> bool {
    exists|s: Seq<(usize, usize)>| #[trigger] is_solution(n, reg, s) &&
        forall|q: Seq<(usize, usize)>| #[trigger] is_solution(n, reg, q) ==> q.to_set() == s.to_set()
}

pub proof fn lemma_compatible_symmetric(n: int, reg: Seq<int>, a: (usize, usize), b: (usize, usize))
    requires
        trees_compatible(n, reg, a, b),
    ensures
        trees_compatible(n, reg, b, a),
{
}

pub proof fn lemma_tree_at_cell(n: int, t: (usize, usize))
    requires
        t.0 < n,
        t.1 < n,
    ensures
        tree_at(n, tree_cell(n, t)) == t,
        row_of(n, tree_cell(n, t)) == t.0,
        col_of(n, tree_cell(n, t)) == t.1,
        0 <= tree_cell(n, t) < n * n,
{
    lemma_cell_index(n, t.0 as int, t.1 as int);
}

pub proof fn lemma_cell_tree_at(n: int, idx: int)
    requires
        0 < n <= 32,
        0 <= idx < n * n,
    ensures
        tree_cell(n, tree_at(n, idx)) == idx,
        tree_at(n, idx).0 < n,
        tree_at(n, idx).1 < n,
{
    lemma_index_cell(n, idx);
}

/// The rows of the trees `p`.
pub open spec fn rows_of(p: Seq<(usize, usize)>) -> Seq<int> {
    Seq::new(p.len(), |k: int| p[k].0 as int)
}

/// Some tree of `p` stands in row `r`.
pub open spec fn row_has_tree(p: Seq<(usize, usize)>, r: int) -> bool {
    exists|k: int| 0 <= k < p.len() && (#[trigger] p[k]).0 == r
}

/// A valid placement has no repeated tree and at most `n` trees; it has `n`
/// exactly when every row holds a tree.
pub proof fn lemma_partial_counts(n: int, reg: Seq<int>, p: Seq<(usize, usize)>)
    requires
        0 <= n,
        valid_partial(n, reg, p),
    ensures
        p.no_duplicates(),
        p.len() <= n,
        p.len() == n <==> (forall|r: int| 0 <= r < n ==> #[trigger] row_has_tree(p, r)),
{
    let rows = rows_of(p);
    assert forall|k: int, l: int| 0 <= k < l < rows.len() implies rows[k] != rows[l] by {
        assert(trees_compatible(n, reg, p[k], p[l]));
    }
    assert forall|k: int, l: int| 0 <= k < l < p.len() implies p[k] != p[l] by {
        assert(trees_compatible(n, reg, p[k], p[l]));
    }
    lemma_distinct_in_range(rows, n);
    if p.len() == n {
        assert forall|r: int| 0 <= r < n implies #[trigger] row_has_tree(p, r) by {
            assert(rows.contains(r));
            let k = choose|k: int| 0 <= k < rows.len() && rows[k] == r;
            assert(p[k].0 == r);
        }
    }
    if forall|r: int| 0 <= r < n ==> #[trigger] row_has_tree(p, r) {
        assert forall|v: int| 0 <= v < n implies rows.contains(v) by {
            assert(row_has_tree(p, v));
            let k = choose|k: int| 0 <= k < p.len() && (#[trigger] p[k]).0 == v;
            assert(rows[k] == v);
        }
    }
}

/// Every region `0 .. n` holds a tree of a solution.
pub proof fn lemma_solution_regions(n: int, reg: Seq<int>, q: Seq<(usize, usize)>, g: int)
    requires
        0 < n,
        well_formed_regions(n, reg),
        is_solution(n, reg, q),
        0 <= g < n,
    ensures
        exists|k: int| 0 <= k < q.len() && reg[tree_cell(n, #[trigger] q[k])] == g,
{
    let regs = Seq::new(q.len(), |k: int| reg[tree_cell(n, q[k])]);
    assert forall|k: int| 0 <= k < regs.len() implies 0 <= #[trigger] regs[k] < n by {
        lemma_tree_at_cell(n, q[k]);
    }
    assert forall|k: int, l: int| 0 <= k < l < regs.len() implies regs[k] != regs[l] by {
        assert(trees_compatible(n, reg, q[k], q[l]));
    }
    lemma_distinct_in_range(regs, n);
    assert(regs.contains(g));
    let k = choose|k: int| 0 <= k < regs.len() && regs[k] == g;
    assert(reg[tree_cell(n, q[k])] == g);
}

/// A tree of a solution `q` that contains `placed`, in a row that `placed`
/// leaves empty, stands on a free cell.
pub proof fn lemma_solution_tree_free(n: int, reg: Seq<int>, placed: Seq<(usize, usize)>, q: Seq<(usize, usize)>, k: int)
    requires
        0 < n,
        is_solution(n, reg, q),
        trees_within(placed, q),
        0 <= k < q.len(),
        forall|i: int| 0 <= i < placed.len() ==> (#[trigger] placed[i]).0 != q[k].0,
    ensures
        cell_free(n, reg, placed, tree_cell(n, q[k])),
        tree_at(n, tree_cell(n, q[k])) == q[k],
{
    lemma_tree_at_cell(n, q[k]);
    assert forall|i: int| 0 <= i < placed.len() implies trees_compatible(n, reg, #[trigger] placed[i], tree_at(n, tree_cell(n, q[k]))) by {
        assert(q.contains(placed[i]));
        let l = choose|l: int| 0 <= l < q.len() && q[l] == placed[i];
        assert(l != k);
        assert(trees_compatible(n, reg, q[l], q[k]));
    }
}

/// Two solutions holding two different trees of one row, or of one region,
/// have different sets of trees.
pub proof fn lemma_solutions_differ(
    n: int,
    reg: Seq<int>,
    s1: Seq<(usize, usize)>,
    s2: Seq<(usize, usize)>,
    a: (usize, usize),
    b: (usize, usize),
)
    requires
        is_solution(n, reg, s1),
        is_solution(n, reg, s2),
        s1.contains(a),
        s2.contains(b),
        a != b,
        a.0 == b.0 || reg[tree_cell(n, a)] == reg[tree_cell(n, b)],
    ensures
        s1.to_set() != s2.to_set(),
{
    if s1.to_set() == s2.to_set() {
        assert(s2.to_set().contains(b));
        assert(s1.to_set().contains(b));
        let k = choose|k: int| 0 <= k < s1.len() && s1[k] == a;
        let l = choose|l: int| 0 <= l < s1.len() && s1[l] == b;
        assert(k != l);
        assert(trees_compatible(n, reg, s1[k], s1[l]));
    }
}

} // verus!
