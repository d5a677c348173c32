//! Random placement of one tree per row and column with no two trees touching.

use vstd::prelude::*;
use crate::MAX_N;
use crate::bits::{bit64, lemma_bit_or_single, lemma_bit_test_single, lemma_bit_zero};
use crate::grid::within_one;
use crate::rng::{lemma_shuffled_permutes, shuffled, SimpleRng};

verus! {

/// `cols[r]` are the columns of trees in rows `0 .. cols.len()` of an
/// `n`-wide board: all on the board, pairwise distinct, and no two trees of
/// consecutive rows touching.
pub open spec fn valid_column_prefix(n: int, cols: Seq<usize>) -> bool {
    &&& forall|k: int| 0 <= k < cols.len() ==> #[trigger] cols[k] < n
    &&& forall|k: int, l: int| 0 <= k < l < cols.len() ==> cols[k] != cols[l]
    &&& forall|k: int| 0 <= k < cols.len() - 1 ==> !within_one(#[trigger] cols[k] as int, cols[k + 1] as int)
}

/// A complete tree placement for an `n x n` board: the tree of row `r` is in
/// column `cols[r]`.
pub open spec fn valid_tree_columns(n: int, cols: Seq<usize>) -> bool {
    cols.len() == n && valid_column_prefix(n, cols)
}

/// The randomized search for the trees of rows `r ..` (`prev` the column of
/// row `r - 1`, or `usize::MAX` for none): the column order is shuffled,
/// then each column in turn that is free and not next to `prev` is tried for
/// row `r`, going on with row `r + 1`, until one attempt succeeds. The
/// deeper rows shuffle the same column order, which the loop of row `r` then
/// goes on reading. The outcome: success, the columns, the column order and
/// the generator state.
pub open spec fn search_rows(n: int, r: int, prev: usize, cols: Seq<usize>, order: Seq<usize>, state: u64)
    -> (bool, Seq<usize>, Seq<usize>, u64)
    decreases n - r, n + 1,
{
    if r < 0 || r >= n {
        (true, cols, order, state)
    } else {
        let sh = shuffled(order, state);
        search_cols(n, r, prev, cols, sh.0, sh.1, 0)
    }
}

/// The search of row `r` from entry `i` of the column order on (see `search_rows`).
pub open spec fn search_cols(n: int, r: int, prev: usize, cols: Seq<usize>, order: Seq<usize>, state: u64, i: int)
    -> (bool, Seq<usize>, Seq<usize>, u64)
    decreases n - r, n - i,
{
    if r >= n || i < 0 || i >= n {
        (false, cols, order, state)
    } else {
        let c = order[i];
        let free = !cols.take(r).contains(c);
        let apart = prev == usize::MAX || !within_one(c as int, prev as int);
        if free && apart {
            let res = search_rows(n, r + 1, c, cols.update(r, c), order, state);
            if res.0 {
                res
            } else {
                search_cols(n, r, prev, res.1, res.2, res.3, i + 1)
            }
        } else {
            search_cols(n, r, prev, cols, order, state, i + 1)
        }
    }
}

/// The search of a whole board from the columns `cols` and the generator
/// state `state`, with the columns first in order `0 .. n`: success, the
/// columns and the generator state after it.
pub open spec fn tree_search(n: int, cols: Seq<usize>, state: u64) -> (bool, Seq<usize>, u64) {
    let res = search_rows(n, 0, usize::MAX, cols, Seq::new(n as nat, |k: int| k as usize), state);
    (res.0, res.1, res.3)
}

/// Places trees in rows `r ..` below the placement `out_cols[0 .. r]`,
/// trying the columns in a freshly shuffled order at every row.
fn backtrack(
    r: usize,
    n: usize,
    cols_used: u64,
    prev_col: usize,
    out_cols: &mut [usize; MAX_N],
    col_order: &mut Vec<usize>,
    rng: &mut SimpleRng,
) -> (ok: bool)
    requires
        r <= n <= 32,
        old(col_order)@.len() == n,
        forall|k: int| 0 <= k < n ==> #[trigger] old(col_order)@[k] < n,
        valid_column_prefix(n as int, old(out_cols)@.take(r as int)),
        forall|c: u64| c < 64 ==> #[trigger] bit64(cols_used, c) == old(out_cols)@.take(r as int).contains(c as usize),
        r == 0 ==> prev_col == usize::MAX,
        r > 0 ==> prev_col == old(out_cols)@[r - 1],
    ensures
        final(col_order)@.len() == n,
        forall|k: int| 0 <= k < n ==> #[trigger] final(col_order)@[k] < n,
        final(out_cols)@.take(r as int) == old(out_cols)@.take(r as int),
        forall|k: int| n <= k < MAX_N ==> #[trigger] final(out_cols)@[k] == old(out_cols)@[k],
        forall|k: int| r <= k < n ==> #[trigger] final(out_cols)@[k] < n || final(out_cols)@[k] == old(out_cols)@[k],
        ok ==> valid_tree_columns(n as int, final(out_cols)@.take(n as int)),
        (ok, final(out_cols)@, final(col_order)@, final(rng).0)
            == search_rows(n as int, r as int, prev_col, old(out_cols)@, old(col_order)@, old(rng).0),
    decreases n - r,
{
    if r == n {
        return true;
    }
    proof {
        lemma_shuffled_permutes(col_order@, rng.0);
    }
    let ghost before = col_order@;
    let ghost state0 = rng.0;
    rng.shuffle(col_order.as_mut_slice());
    proof {
        broadcast use vstd::seq_lib::group_to_multiset_ensures;
        assert(col_order@ == crate::rng::shuffled(before, state0).0);
        assert(col_order@.to_multiset() == before.to_multiset());
        assert forall|k: int| 0 <= k < n implies #[trigger] col_order@[k] < n by {
            let x = col_order@[k];
            assert(col_order@.contains(x));
            assert(col_order@.to_multiset().count(x) > 0);
            assert(before.to_multiset().count(x) > 0);
            assert(before.contains(x));
        }
    }
    let ghost entry = *out_cols;
    let ghost goal = search_rows(n as int, r as int, prev_col, old(out_cols)@, old(col_order)@, old(rng).0);
    proof {
        assert(col_order@ == shuffled(old(col_order)@, old(rng).0).0);
        assert(goal == search_cols(n as int, r as int, prev_col, out_cols@, col_order@, rng.0, 0));
    }
    let mut i: usize = 0;
    while i < n
        invariant
            i <= n,
            goal == search_rows(n as int, r as int, prev_col, old(out_cols)@, old(col_order)@, old(rng).0),
            goal == search_cols(n as int, r as int, prev_col, out_cols@, col_order@, rng.0, i as int),
            r < n <= 32,
            col_order@.len() == n,
            forall|k: int| 0 <= k < n ==> #[trigger] col_order@[k] < n,
            out_cols@.take(r as int) == entry@.take(r as int),
            entry@.take(r as int) == old(out_cols)@.take(r as int),
            forall|k: int| n <= k < MAX_N ==> #[trigger] out_cols@[k] == old(out_cols)@[k],
            forall|k: int| r <= k < n ==> #[trigger] out_cols@[k] < n || out_cols@[k] == old(out_cols)@[k],
            valid_column_prefix(n as int, old(out_cols)@.take(r as int)),
            forall|c: u64| c < 64 ==> #[trigger] bit64(cols_used, c) == old(out_cols)@.take(r as int).contains(c as usize),
            r == 0 ==> prev_col == usize::MAX,
            r > 0 ==> prev_col == old(out_cols)@[r - 1],
        decreases n - i,
    {
        let ghost cols_i = out_cols@;
        let ghost order_i = col_order@;
        let ghost state_i = rng.0;
        let c = col_order[i];
        proof {
            lemma_bit_test_single(cols_used, c as u64);
        }
        let used = (cols_used & (1u64 << (c as u64))) != 0;
        let touches = if prev_col != usize::MAX {
            let diff = if c >= prev_col { c - prev_col } else { prev_col - c };
            diff <= 1
        } else {
            false
        };
        if !used && !touches {
            out_cols[r] = c;
            let next_used = cols_used | (1u64 << (c as u64));
            proof {
                let p = old(out_cols)@.take(r as int);
                let q = out_cols@.take(r as int + 1);
                assert(q =~= p.push(c));
                assert(!p.contains(c)) by {
                    assert(!bit64(cols_used, c as u64));
                }
                assert forall|k: int, l: int| 0 <= k < l < q.len() implies q[k] != q[l] by {
                    if l == r {
                        assert(p.contains(q[k]));
                    }
                }
                assert forall|k: int| 0 <= k < q.len() - 1 implies !within_one(#[trigger] q[k] as int, q[k + 1] as int) by {
                    if k + 1 == r {
                        assert(q[k] == p[r - 1]);
                        assert(p[r - 1] < n);
                        assert(prev_col != usize::MAX);
                    }
                }
                assert forall|x: usize| #[trigger] q.contains(x) == (x == c || p.contains(x)) by {
                    if q.contains(x) {
                        let k = choose|k: int| 0 <= k < q.len() && q[k] == x;
                        if k < r {
                            assert(p[k] == x);
                        }
                    }
                    if p.contains(x) {
                        let k = choose|k: int| 0 <= k < p.len() && p[k] == x;
                        assert(q[k] == x);
                    }
                    if x == c {
                        assert(q[r as int] == x);
                    }
                }
                assert forall|d: u64| d < 64 implies #[trigger] bit64(next_used, d) == q.contains(d as usize) by {
                    lemma_bit_or_single(cols_used, c as u64, d);
                    assert(bit64(cols_used, d) == p.contains(d as usize));
                    assert(q.contains(d as usize) == (d as usize == c || p.contains(d as usize)));
                    assert((d == c as u64) == (d as usize == c));
                }
            }
            let ghost before_call = *out_cols;
            let found = backtrack(r + 1, n, next_used, c, out_cols, col_order, rng);
            proof {
                assert(out_cols@.take(r as int) =~= before_call@.take(r as int + 1).take(r as int));
                assert(before_call@.take(r as int) =~= entry@.take(r as int));
                assert(out_cols@[r as int] == out_cols@.take(r as int + 1)[r as int]);
                assert(before_call@[r as int] == before_call@.take(r as int + 1)[r as int]);
                assert(out_cols@[r as int] == c);
            }
            proof {
                assert(out_cols@.take(r as int) =~= entry@.take(r as int));
                assert(before_call@ == cols_i.update(r as int, c));
            }
            if found {
                return true;
            }
        } else {
            proof {
                assert(!(!cols_i.take(r as int).contains(c) && (prev_col == usize::MAX || !within_one(c as int, prev_col as int))));
            }
        }
        i = i + 1;
    }
    false
}

/// Fills `out_cols[0 .. n]` with a random tree placement by randomized
/// backtracking; `true` when the search found one.
pub fn generate_tree_solution_fast(n: usize, rng: &mut SimpleRng, out_cols: &mut [usize; MAX_N]) -> (ok: bool)
    requires
        n <= 32,
    ensures
        ok ==> valid_tree_columns(n as int, final(out_cols)@.take(n as int)),
        forall|k: int| 0 <= k < n ==> #[trigger] final(out_cols)@[k] < n || final(out_cols)@[k] == old(out_cols)@[k],
        forall|k: int| n <= k < MAX_N ==> #[trigger] final(out_cols)@[k] == old(out_cols)@[k],
        (ok, final(out_cols)@, final(rng).0) == tree_search(n as int, old(out_cols)@, old(rng).0),
{
    let mut col_order: Vec<usize> = Vec::new();
    for i in 0..n
        invariant
            col_order@.len() == i,
            forall|k: int| 0 <= k < i ==> #[trigger] col_order@[k] < n,
            col_order@ == Seq::new(i as nat, |k: int| k as usize),
    {
        col_order.push(i);
        proof {
            assert(col_order@ =~= Seq::new((i + 1) as nat, |k: int| k as usize));
        }
    }
    proof {
        assert forall|c: u64| c < 64 implies #[trigger] bit64(0u64, c) == out_cols@.take(0).contains(c as usize) by {
            lemma_bit_zero(c);
        }
        assert(out_cols@.take(0) =~= Seq::<usize>::empty());
    }
    backtrack(0, n, 0, usize::MAX, out_cols, &mut col_order, rng)
}

/// One tree per row, `trees[r] == (r, column of row r)`, with the columns
/// the randomized search `tree_search` leaves. They form a valid placement
/// when the search succeeds; it fails on boards of 2 or 3 rows, where no
/// placement exists, and for some generator states on larger boards, and
/// the trees are then not a placement.
pub fn generate_tree_solution(n: usize, rng: &mut SimpleRng) -> (trees: Vec<(usize, usize)>)
    requires
        n <= 32,
    ensures
        trees@.len() == n,
        forall|r: int| 0 <= r < n ==> (#[trigger] trees@[r]).0 == r && trees@[r].1 < n,
        forall|r: int| 0 <= r < n ==>
            (#[trigger] trees@[r]).1 == tree_search(n as int, Seq::new(MAX_N as nat, |k: int| 0usize), old(rng).0).1[r],
        final(rng).0 == tree_search(n as int, Seq::new(MAX_N as nat, |k: int| 0usize), old(rng).0).2,
        tree_search(n as int, Seq::new(MAX_N as nat, |k: int| 0usize), old(rng).0).0 ==>
            valid_tree_columns(n as int, Seq::new(n as nat, |r: int| trees@[r].1)),
{
    let mut tree_cols = [0usize; MAX_N];
    proof {
        assert(tree_cols@ =~= Seq::new(MAX_N as nat, |k: int| 0usize));
    }
    let ok = generate_tree_solution_fast(n, rng, &mut tree_cols);
    let ghost search = tree_search(n as int, Seq::new(MAX_N as nat, |k: int| 0usize), old(rng).0);
    let mut trees: Vec<(usize, usize)> = Vec::new();
    for r in 0..n
        invariant
            n <= 32,
            trees@.len() == r,
            forall|k: int| 0 <= k < n ==> #[trigger] tree_cols@[k] < n || tree_cols@[k] == 0,
            forall|k: int| 0 <= k < r ==> (#[trigger] trees@[k]).0 == k && trees@[k].1 == tree_cols@[k],
            tree_cols@ == search.1,
            rng.0 == search.2,
            ok == search.0,
    {
        trees.push((r, tree_cols[r]));
    }
    proof {
        if ok {
            assert(Seq::new(n as nat, |r: int| trees@[r].1) =~= tree_cols@.take(n as int));
        }
    }
    trees
}

} // verus!
