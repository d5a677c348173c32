//! Masks of the cells that touch each cell of a board.

use vstd::prelude::*;
use crate::bitset::BitSet1024;
use crate::grid::{cell_index, col_of, lemma_cell_index, lemma_index_cell, lemma_index_unique, row_of, touching};

verus! {

/// The cells of an `n x n` board that touch cell `idx`, the cell itself included.
pub open spec fn neighbor_cells(n: int, idx: int) -> Set<int> {
    Set::new(|j: int| 0 <= j < n * n && touching(row_of(n, idx), col_of(n, idx), row_of(n, j), col_of(n, j)))
}

/// `masks[idx]` holds exactly the cells that touch `idx`, for every cell of the board.
pub open spec fn are_neighbor_masks(n: int, masks: Seq<BitSet1024>) -> bool {
    &&& masks.len() == n * n
    &&& forall|idx: int| 0 <= idx < n * n ==> #[trigger] masks[idx]@ == neighbor_cells(n, idx)
}

/// The cells touching `(r, c)` whose offset `(dr, dc)` (each in `0..3`, the
/// cell itself at `(1, 1)`) comes before `k` in row-major order.
spec fn neighbor_prefix(n: int, r: int, c: int, k: int) -> Set<int> {
    Set::new(|j: int|
        0 <= j < n * n && touching(r, c, row_of(n, j), col_of(n, j))
            && (row_of(n, j) - r + 1) * 3 + (col_of(n, j) - c + 1) < k)
}

proof fn lemma_prefix_step(n: int, r: int, c: int, dr: int, dc: int)
    requires
        0 < n,
        0 <= r < n,
        0 <= c < n,
        0 <= dr < 3,
        0 <= dc < 3,
    ensures
        ({
            let nr = r + dr - 1;
            let nc = c + dc - 1;
            let next = neighbor_prefix(n, r, c, dr * 3 + dc + 1);
            let cur = neighbor_prefix(n, r, c, dr * 3 + dc);
            if 0 <= nr < n && 0 <= nc < n {
                &&& 0 <= cell_index(n, nr, nc) < n * n
                &&& next == cur.insert(cell_index(n, nr, nc))
            } else {
                next == cur
            }
        }),
{
    let nr = r + dr - 1;
    let nc = c + dc - 1;
    let next = neighbor_prefix(n, r, c, dr * 3 + dc + 1);
    let cur = neighbor_prefix(n, r, c, dr * 3 + dc);
    if 0 <= nr < n && 0 <= nc < n {
        lemma_cell_index(n, nr, nc);
        let t = cell_index(n, nr, nc);
        assert forall|j: int| #[trigger] next.contains(j) == cur.insert(t).contains(j) by {
            if 0 <= j < n * n {
                lemma_index_cell(n, j);
                if j == t {
                } else if next.contains(j) && !cur.contains(j) {
                    assert(row_of(n, j) == nr && col_of(n, j) == nc);
                    lemma_index_unique(n, j, t);
                }
            }
        }
        assert(next =~= cur.insert(t));
    } else {
        assert forall|j: int| #[trigger] next.contains(j) == cur.contains(j) by {
            if 0 <= j < n * n {
                lemma_index_cell(n, j);
            }
        }
        assert(next =~= cur);
    }
}

/// For every cell of an `n x n` board, the set of cells that touch it
/// (itself included), indexed by flat cell index.
pub fn build_neighbor_masks(n: usize) -> (masks: Vec<BitSet1024>)
    requires
        n <= 32,
    ensures
        are_neighbor_masks(n as int, masks@),
{
    let mut masks: Vec<BitSet1024> = Vec::new();
    proof {
        assert(n * n <= 1024) by (nonlinear_arith)
            requires n <= 32;
    }
    for r in 0..n
        invariant
            n <= 32,
            n * n <= 1024,
            masks@.len() == r * n,
            forall|idx: int| 0 <= idx < masks@.len() ==> #[trigger] masks@[idx]@ == neighbor_cells(n as int, idx),
    {
        for c in 0..n
            invariant
                n <= 32,
                n * n <= 1024,
                r < n,
                masks@.len() == r * n + c,
                forall|idx: int| 0 <= idx < masks@.len() ==> #[trigger] masks@[idx]@ == neighbor_cells(n as int, idx),
        {
            let mut mask = BitSet1024::default();
            proof {
                assert(mask@ =~= neighbor_prefix(n as int, r as int, c as int, 0));
            }
            for dr in 0..3usize
                invariant
                    n <= 32,
                    n * n <= 1024,
                    r < n,
                    c < n,
                    mask@ == neighbor_prefix(n as int, r as int, c as int, dr * 3),
            {
                for dc in 0..3usize
                    invariant
                        n <= 32,
                        n * n <= 1024,
                        r < n,
                        c < n,
                        dr < 3,
                        mask@ == neighbor_prefix(n as int, r as int, c as int, dr * 3 + dc),
                {
                    proof {
                        lemma_prefix_step(n as int, r as int, c as int, dr as int, dc as int);
                    }
                    if r + dr >= 1 && r + dr - 1 < n && c + dc >= 1 && c + dc - 1 < n {
                        let nr = r + dr - 1;
                        let nc = c + dc - 1;
                        proof {
                            lemma_cell_index(n as int, nr as int, nc as int);
                        }
                        mask.set_bit(nr * n + nc);
                    }
                }
            }
            proof {
                lemma_cell_index(n as int, r as int, c as int);
                assert forall|j: int| #[trigger] mask@.contains(j) == neighbor_cells(n as int, (r * n + c) as int).contains(j) by {
                    if 0 <= j < n * n {
                        lemma_index_cell(n as int, j);
                    }
                }
                assert(mask@ =~= neighbor_cells(n as int, (r * n + c) as int));
            }
            masks.push(mask);
        }
        proof {
            assert((r + 1) * n == r * n + n) by (nonlinear_arith);
        }
    }
    masks
}

} // verus!
