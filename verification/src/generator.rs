//! The steps of the puzzle generator that decide: the order in which the
//! trees seed their regions, and whether a board built around them makes an
//! acceptable puzzle.

use vstd::prelude::*;
use crate::{MAX_CELLS, MAX_N};
use std::time::Duration;
use crate::bitset::BitSet1024;
use crate::connectivity::{all_regions_connected_fast, regions_all_connected};
use crate::difficulty::{is_easy, is_medium, str_equals};
use crate::gadget::{construct_gadget_regions_fast, gadget_regions_ok, trees_distinct, trees_on_board};
use crate::neighbors::are_neighbor_masks;
use crate::puzzle::{all_solutions_among, distinct_solutions, has_unique_solution, is_solution, well_formed_regions};
use crate::rng::{advance, draw, SimpleRng};
use crate::solver::{count_solutions_fast, flat_region_model, grid_region_model, lemma_count_one_unique, rows_from_flat};
use crate::trees::{generate_tree_solution_fast, tree_search, valid_tree_columns};
use crate::grid::{touching, within_one};
use crate::puzzle::tree_cell;

verus! {

/// The trees of a placement by rows: tree `r` stands in row `r`, and the
/// columns form a valid placement.
pub open spec fn placement_by_rows(n: int, trees: Seq<(usize, usize)>) -> bool {
    &&& trees.len() == n
    &&& forall|r: int| 0 <= r < n ==> (#[trigger] trees[r]).0 == r
    &&& valid_tree_columns(n, Seq::new(n as nat, |r: int| trees[r].1))
}

/// Keys within distance `d - 1` of `center`, on the board.
pub open spec fn near_keys(n: int, center: int, d: int) -> Set<int> {
    Set::new(|k: int| 0 <= k < n && center - d < k < center + d)
}

/// The keys taken at distances `0 .. d` from `center` on an `n`-wide board,
/// in order: `center`, then `center + 1`, `center - 1`, `center + 2`,
/// `center - 2` and so on, skipping keys off the board.
pub open spec fn outward_keys(n: int, center: int, d: int) -> Seq<int>
    decreases d,
{
    if d <= 1 {
        seq![center]
    } else {
        let k = d - 1;
        outward_keys(n, center, k)
            + (if center + k < n { seq![center + k] } else { Seq::empty() })
            + (if center >= k { seq![center - k] } else { Seq::empty() })
    }
}

/// Once every key of the board is taken, further distances add none.
proof fn lemma_outward_saturates(n: int, center: int, d: int, e: int)
    requires
        1 <= d <= e,
        0 <= center < n,
        center + d >= n,
        center - d < 0,
    ensures
        outward_keys(n, center, e) == outward_keys(n, center, d),
    decreases e - d,
{
    if e > d {
        lemma_outward_saturates(n, center, d, e - 1);
        let k = e - 1;
        assert(outward_keys(n, center, e) =~= outward_keys(n, center, k));
    }
}

/// The key a tree is sorted by: its row or its column.
pub open spec fn tree_key(t: (usize, usize), by_row: bool) -> int {
    if by_row { t.0 as int } else { t.1 as int }
}

/// For a placement by rows, the trees indexed by their key: `table[k]` has key `k`.
pub open spec fn keyed_table(n: int, trees: Seq<(usize, usize)>, table: Seq<(usize, usize)>, by_row: bool) -> bool {
    &&& table.len() >= n
    &&& forall|k: int| 0 <= k < n ==> trees.contains(#[trigger] table[k]) && tree_key(table[k], by_row) == k
}

/// Among the first `i` trees, the last one whose key (row when `by_row`,
/// else column) is `k`, or `(0, 0)` when there is none.
pub open spec fn last_keyed(trees: Seq<(usize, usize)>, i: int, by_row: bool, k: int) -> (usize, usize)
    decreases i,
{
    if i <= 0 {
        (0usize, 0usize)
    } else if tree_key(trees[i - 1], by_row) == k {
        trees[i - 1]
    } else {
        last_keyed(trees, i - 1, by_row, k)
    }
}

/// Orders the first `n` trees outward from a central row (`sweep_by_row`) or
/// column: the tree of the centre key, then those of keys centre + 1,
/// centre - 1, centre + 2, centre - 2, and so on, skipping keys off the
/// board. The centre is `n / 2` clamped to `1 ..= n - 2`.
pub fn order_trees_from_center(n: usize, trees: &[(usize, usize)], sweep_by_row: bool) -> (ordered: Vec<(usize, usize)>)
    requires
        3 <= n <= 32,
        trees@.len() >= n,
        forall|i: int| 0 <= i < n ==> (#[trigger] trees@[i]).0 < n && trees@[i].1 < n,
    ensures
        ordered@.len() == n,
        forall|i: int| 0 <= i < n ==> (#[trigger] ordered@[i]).0 < n && ordered@[i].1 < n,
        forall|i: int| 0 <= i < n ==> #[trigger] ordered@[i] == last_keyed(trees@, n as int, sweep_by_row,
            outward_keys(n as int, (if (n / 2) as int > n - 2 { n - 2 } else { (n / 2) as int }), n as int)[i]),
        placement_by_rows(n as int, trees@.take(n as int)) ==> {
            &&& ordered@.no_duplicates()
            &&& ordered@.to_set() == trees@.take(n as int).to_set()
            &&& forall|i: int| 0 <= i < n ==> tree_key(#[trigger] ordered@[i], sweep_by_row)
                == outward_keys(n as int, (if (n / 2) as int > n - 2 { n - 2 } else { (n / 2) as int }), n as int)[i]
            &&& is_placement(n as int, ordered@)
        },
{
    let ghost tr = trees@.take(n as int);
    let mut tree_by_row = [(0usize, 0usize); MAX_N];
    let mut tree_by_col = [(0usize, 0usize); MAX_N];
    for i in 0..n
        invariant
            3 <= n <= 32,
            trees@.len() >= n,
            tr == trees@.take(n as int),
            forall|j: int| 0 <= j < n ==> (#[trigger] trees@[j]).0 < n && trees@[j].1 < n,
            forall|k: int| 0 <= k < MAX_N ==> (#[trigger] tree_by_row@[k]).0 < n && tree_by_row@[k].1 < n,
            forall|k: int| 0 <= k < MAX_N ==> (#[trigger] tree_by_col@[k]).0 < n && tree_by_col@[k].1 < n,
            forall|k: int| 0 <= k < MAX_N ==> #[trigger] tree_by_row@[k] == last_keyed(trees@, i as int, true, k),
            forall|k: int| 0 <= k < MAX_N ==> #[trigger] tree_by_col@[k] == last_keyed(trees@, i as int, false, k),
            placement_by_rows(n as int, tr) ==> forall|j: int| 0 <= j < i ==> tree_by_row@[j] == #[trigger] tr[j],
            placement_by_rows(n as int, tr) ==> forall|j: int| 0 <= j < i ==> tree_by_col@[(#[trigger] tr[j]).1 as int] == tr[j],
    {
        let (r, c) = trees[i];
        tree_by_row[r] = (r, c);
        tree_by_col[c] = (r, c);
        proof {
            assert(tr[i as int] == (r, c));
            if placement_by_rows(n as int, tr) {
                let cols = Seq::new(n as nat, |x: int| tr[x].1);
                assert forall|j: int| 0 <= j < i + 1 implies tree_by_col@[(#[trigger] tr[j]).1 as int] == tr[j] by {
                    if j < i {
                        assert(cols[j] != cols[i as int]);
                    }
                }
            }
        }
    }
    let table = if sweep_by_row { tree_by_row } else { tree_by_col };
    proof {
        assert forall|k: int| 0 <= k < MAX_N implies #[trigger] table@[k] == last_keyed(trees@, n as int, sweep_by_row, k) by {}
    }
    proof {
        if placement_by_rows(n as int, tr) {
            let cols = Seq::new(n as nat, |x: int| tr[x].1);
            assert forall|k: int| 0 <= k < n implies tr.contains(#[trigger] table@[k]) && tree_key(table@[k], sweep_by_row) == k by {
                if sweep_by_row {
                    assert(table@[k] == tr[k]);
                } else {
                    // the columns of a placement take every value of 0 .. n
                    let ints = Seq::new(n as nat, |x: int| cols[x] as int);
                    assert forall|a: int, b: int| 0 <= a < b < ints.len() implies ints[a] != ints[b] by {}
                    crate::counting::lemma_distinct_in_range(ints, n as int);
                    assert(ints.contains(k));
                    let j = choose|j: int| 0 <= j < ints.len() && ints[j] == k;
                    assert(tr[j].1 == k);
                    assert(table@[k] == tr[j]);
                }
            }
            assert(keyed_table(n as int, tr, table@, sweep_by_row));
        }
    }
    let center = if n / 2 < 1 { 1 } else if n / 2 > n - 2 { n - 2 } else { n / 2 };
    let mut ordered: Vec<(usize, usize)> = Vec::new();
    ordered.push(table[center]);
    let ghost mut keys: Seq<int> = seq![center as int];
    let mut d: usize = 1;
    proof {
        assert forall|x: int| #[trigger] keys.to_set().contains(x) == near_keys(n as int, center as int, 1).contains(x) by {
            if keys.to_set().contains(x) {
                assert(keys[0] == x);
            }
            if near_keys(n as int, center as int, 1).contains(x) {
                assert(x == center);
                assert(keys[0] == x);
            }
        }
        assert(keys.to_set() =~= near_keys(n as int, center as int, 1));
    }
    while ordered.len() < n
        invariant
            3 <= n <= 32,
            1 <= center <= n - 2,
            1 <= d,
            ordered@.len() == keys.len(),
            1 <= ordered@.len() <= n,
            forall|i: int| 0 <= i < keys.len() ==> ordered@[i] == table@[#[trigger] keys[i]],
            keys.no_duplicates(),
            keys.to_set() == near_keys(n as int, center as int, d as int),
            forall|i: int| 0 <= i < keys.len() ==> 0 <= #[trigger] keys[i] < n,
            ordered@[0] == table@[center as int],
            keys == outward_keys(n as int, center as int, d as int),
            d <= n,
            forall|k: int| 0 <= k < MAX_N ==> (#[trigger] table@[k]).0 < n && table@[k].1 < n,
            forall|i: int| 0 <= i < ordered@.len() ==> (#[trigger] ordered@[i]).0 < n && ordered@[i].1 < n,
        decreases n - d,
    {
        proof {
            crate::counting::lemma_distinct_in_range(keys, n as int);
            // some key is still missing, and it lies at distance d or more
            let k = choose|k: int| 0 <= k < n && !keys.contains(k);
            assert(!keys.to_set().contains(k));
            assert(!near_keys(n as int, center as int, d as int).contains(k));
            assert(d < n);
        }
        let ghost k0 = keys;
        if center + d < n {
            ordered.push(table[center + d]);
            proof {
                keys = keys.push((center + d) as int);
            }
        }
        let ghost k1 = keys;
        proof {
            assert forall|a: int, b: int| 0 <= a < b < k1.len() implies k1[a] != k1[b] by {
                if b >= k0.len() {
                    assert(!k0.to_set().contains(k1[b]));
                    assert(k0.to_set().contains(k1[a]));
                }
            }
            assert forall|i: int| 0 <= i < k1.len() implies 0 <= #[trigger] k1[i] < n by {
                if i >= k0.len() {
                }
            }
            if center >= d && k1.len() >= n {
                crate::counting::lemma_distinct_in_range(k1, n as int);
                let x = center - d;
                assert(k1.contains(x as int));
                let i = choose|i: int| 0 <= i < k1.len() && k1[i] == x;
                if i < k0.len() {
                    assert(k0.to_set().contains(x as int));
                }
                assert(false);
            }
        }
        if ordered.len() < n && center >= d {
            ordered.push(table[center - d]);
            proof {
                keys = keys.push((center - d) as int);
            }
        }
        proof {
            assert forall|a: int, b: int| 0 <= a < b < keys.len() implies keys[a] != keys[b] by {
                if b >= k0.len() {
                    assert(!k0.to_set().contains(keys[b]));
                    if a < k0.len() {
                        assert(k0.to_set().contains(keys[a]));
                    }
                }
            }
            assert forall|x: int| #[trigger] keys.to_set().contains(x) == near_keys(n as int, center as int, d + 1).contains(x) by {
                if near_keys(n as int, center as int, d + 1).contains(x) && !near_keys(n as int, center as int, d as int).contains(x) {
                    if x == center + d {
                        assert(keys[k0.len() as int] == x);
                    } else {
                        assert(x == center - d);
                        assert(keys[keys.len() - 1] == x);
                    }
                }
                if keys.to_set().contains(x) {
                    let i = choose|i: int| 0 <= i < keys.len() && keys[i] == x;
                    if i < k0.len() {
                        assert(k0.to_set().contains(x));
                    }
                }
                if near_keys(n as int, center as int, d as int).contains(x) {
                    assert(k0.to_set().contains(x));
                    let i = choose|i: int| 0 <= i < k0.len() && k0[i] == x;
                    assert(keys[i] == x);
                }
            }
            assert(keys.to_set() =~= near_keys(n as int, center as int, d + 1));
            assert(keys =~= outward_keys(n as int, center as int, d + 1));
        }
        d = d + 1;
    }
    proof {
        crate::counting::lemma_distinct_in_range(keys, n as int);
        assert(keys.to_set().contains(0int));
        assert(keys.to_set().contains(n - 1));
        assert(near_keys(n as int, center as int, d as int).contains(0int));
        assert(near_keys(n as int, center as int, d as int).contains(n - 1));
        lemma_outward_saturates(n as int, center as int, d as int, n as int);
        assert(keys == outward_keys(n as int, center as int, n as int));
        assert(center as int == (if (n / 2) as int > n - 2 { n - 2 } else { (n / 2) as int }));
        if placement_by_rows(n as int, tr) {
            crate::counting::lemma_distinct_in_range(keys, n as int);
            assert forall|a: int, b: int| 0 <= a < b < ordered@.len() implies ordered@[a] != ordered@[b] by {
                assert(tree_key(table@[keys[a]], sweep_by_row) == keys[a]);
                assert(tree_key(table@[keys[b]], sweep_by_row) == keys[b]);
            }
            assert forall|t: (usize, usize)| #[trigger] ordered@.to_set().contains(t) == tr.to_set().contains(t) by {
                if ordered@.to_set().contains(t) {
                    let i = choose|i: int| 0 <= i < ordered@.len() && ordered@[i] == t;
                    assert(tr.contains(table@[keys[i]]));
                }
                if tr.to_set().contains(t) {
                    let j = choose|j: int| 0 <= j < tr.len() && tr[j] == t;
                    let key = tree_key(t, sweep_by_row);
                    assert(0 <= key < n);
                    assert(keys.contains(key));
                    let i = choose|i: int| 0 <= i < keys.len() && keys[i] == key;
                    // the table holds the one tree with this key
                    let u = table@[key];
                    assert(tr.contains(u));
                    let l = choose|l: int| 0 <= l < tr.len() && tr[l] == u;
                    if l != j {
                        let cols = Seq::new(n as nat, |x: int| tr[x].1);
                        if sweep_by_row {
                            assert(tr[l].0 == l && tr[j].0 == j);
                        } else {
                            assert(cols[l] != cols[j]);
                        }
                    }
                    assert(ordered@[i] == t);
                }
            }
            assert(ordered@.to_set() =~= tr.to_set());
            lemma_rows_placement(n as int, tr);
            lemma_placement_reordered(n as int, tr, ordered@);
        }
    }
    ordered
}

/// A generated puzzle: the board side, the difficulty it was made for, the
/// trees of its solution, the region of every cell by rows, the size of
/// every region, and how many attempts and how long its making took.
pub struct ParksLevel {
    pub size: usize,
    pub difficulty: String,
    pub solution_trees: Vec<(usize, usize)>,
    pub regions: Vec<Vec<usize>>,
    pub region_sizes: Vec<usize>,
    pub attempts: usize,
    pub elapsed: Duration,
}

/// Half of the range of a 64-bit draw: a draw below it is the "heads" of a
/// fair coin (a uniform number in `0 .. 1` below one half).
pub const COIN_HALF: u64 = 0x8000_0000_0000_0000;

/// The trees of the placement with columns `cols`, the tree of row `r` first.
pub open spec fn trees_by_rows(n: int, cols: Seq<usize>) -> Seq<(usize, usize)> {
    Seq::new(n as nat, |r: int| (r as usize, cols[r]))
}

/// What `choose_center_sweep` returns for `difficulty` from generator state
/// `state`, and the state after it.
pub open spec fn sweep_choice(difficulty: Seq<char>, state: u64) -> (Option<bool>, u64) {
    if is_easy(difficulty) {
        (None, state)
    } else if is_medium(difficulty) {
        if draw(state) < COIN_HALF {
            (Some(draw(advance(state)) % 2 == 0), advance(advance(state)))
        } else {
            (None, advance(state))
        }
    } else {
        (Some(draw(state) % 2 == 0), advance(state))
    }
}

/// Decides how the trees of one attempt are ordered. `Some(by_row)`: outward
/// from a central row (`by_row`) or column; `None`: from a tree near a random
/// edge. "Easy" always takes the edge; "Medium" tosses a coin for the centre;
/// every other difficulty takes the centre. The row-or-column choice is the
/// parity of a further draw.
pub fn choose_center_sweep(difficulty: &str, rng: &mut SimpleRng) -> (sweep: Option<bool>)
    ensures
        (sweep, final(rng).0) == sweep_choice(difficulty@, old(rng).0),
        is_easy(difficulty@) ==> sweep is None && final(rng).0 == old(rng).0,
        is_medium(difficulty@) ==> if draw(old(rng).0) < COIN_HALF {
            &&& sweep == Some(draw(advance(old(rng).0)) % 2 == 0)
            &&& final(rng).0 == advance(advance(old(rng).0))
        } else {
            &&& sweep is None
            &&& final(rng).0 == advance(old(rng).0)
        },
        !is_easy(difficulty@) && !is_medium(difficulty@) ==> {
            &&& sweep == Some(draw(old(rng).0) % 2 == 0)
            &&& final(rng).0 == advance(old(rng).0)
        },
{
    proof {
        reveal_strlit("Easy");
        reveal_strlit("Medium");
        assert("Medium"@.len() != "Easy"@.len());
    }
    let use_center = if str_equals(difficulty, "Easy") {
        false
    } else if str_equals(difficulty, "Medium") {
        rng.next_u64() < COIN_HALF
    } else {
        true
    };
    if use_center {
        Some(rng.next_u64() % 2 == 0)
    } else {
        None
    }
}

/// The first draws of an attempt: a tree placement into `tree_cols` (kept
/// from attempt to attempt), its trees by rows, and how to order them (see
/// `choose_center_sweep`).
pub fn plan_attempt(
    n: usize,
    difficulty: &str,
    rng: &mut SimpleRng,
    tree_cols: &mut [usize; MAX_N],
) -> (res: (Vec<(usize, usize)>, Option<bool>))
    requires
        n <= 32,
        forall|k: int| 0 <= k < n ==> #[trigger] old(tree_cols)@[k] < n,
    ensures
        forall|k: int| 0 <= k < n ==> #[trigger] final(tree_cols)@[k] < n,
        res.0@ == trees_by_rows(n as int, final(tree_cols)@),
        trees_on_board(n as int, res.0@),
        is_easy(difficulty@) ==> res.1 is None,
        !is_easy(difficulty@) && !is_medium(difficulty@) ==> res.1 is Some,
        final(tree_cols)@ == tree_search(n as int, old(tree_cols)@, old(rng).0).1,
        (res.1, final(rng).0) == sweep_choice(difficulty@, tree_search(n as int, old(tree_cols)@, old(rng).0).2),
        tree_search(n as int, old(tree_cols)@, old(rng).0).0 ==> placement_by_rows(n as int, res.0@),
{
    let ok = generate_tree_solution_fast(n, rng, tree_cols);
    let mut trees: Vec<(usize, usize)> = Vec::new();
    for r in 0..n
        invariant
            n <= 32,
            forall|k: int| 0 <= k < n ==> #[trigger] tree_cols@[k] < n,
            trees@ == trees_by_rows(r as int, tree_cols@),
    {
        trees.push((r, tree_cols[r]));
        proof {
            assert(trees@ =~= trees_by_rows(r + 1, tree_cols@));
        }
    }
    proof {
        if ok {
            assert(Seq::new(n as nat, |r: int| trees@[r].1) =~= tree_cols@.take(n as int));
        }
    }
    let sweep = choose_center_sweep(difficulty, rng);
    (trees, sweep)
}

/// The trees `t` form a placement on an `n x n` board: all on the board, no
/// two in one row or one column, and no two touching.
pub open spec fn is_placement(n: int, t: Seq<(usize, usize)>) -> bool {
    &&& forall|k: int| 0 <= k < t.len() ==> (#[trigger] t[k]).0 < n && t[k].1 < n
    &&& forall|k: int, l: int| 0 <= k < t.len() && 0 <= l < t.len() && k != l ==> {
        &&& (#[trigger] t[k]).0 != (#[trigger] t[l]).0
        &&& t[k].1 != t[l].1
        &&& !touching(t[k].0 as int, t[k].1 as int, t[l].0 as int, t[l].1 as int)
    }
}

/// A valid placement by rows is a placement.
pub proof fn lemma_rows_placement(n: int, trees: Seq<(usize, usize)>)
    requires
        placement_by_rows(n, trees),
    ensures
        is_placement(n, trees),
{
    let cols = Seq::new(n as nat, |r: int| trees[r].1);
    assert forall|k: int| 0 <= k < trees.len() implies (#[trigger] trees[k]).0 < n && trees[k].1 < n by {
        assert(cols[k] < n);
    }
    assert forall|k: int, l: int| 0 <= k < trees.len() && 0 <= l < trees.len() && k != l implies {
        &&& (#[trigger] trees[k]).0 != (#[trigger] trees[l]).0
        &&& trees[k].1 != trees[l].1
        &&& !touching(trees[k].0 as int, trees[k].1 as int, trees[l].0 as int, trees[l].1 as int)
    } by {
        if k < l {
            assert(cols[k] != cols[l]);
            if l == k + 1 {
                assert(!within_one(cols[k] as int, cols[k + 1] as int));
            }
        } else {
            assert(cols[l] != cols[k]);
            if k == l + 1 {
                assert(!within_one(cols[l] as int, cols[l + 1] as int));
            }
        }
    }
}

/// A placement stays a placement when its trees are taken in another order.
pub proof fn lemma_placement_reordered(n: int, s: Seq<(usize, usize)>, t: Seq<(usize, usize)>)
    requires
        is_placement(n, s),
        t.no_duplicates(),
        t.to_set() == s.to_set(),
    ensures
        is_placement(n, t),
{
    assert forall|k: int| 0 <= k < t.len() implies (#[trigger] t[k]).0 < n && t[k].1 < n by {
        assert(t.to_set().contains(t[k]));
        let i = choose|i: int| 0 <= i < s.len() && s[i] == t[k];
    }
    assert forall|k: int, l: int| 0 <= k < t.len() && 0 <= l < t.len() && k != l implies {
        &&& (#[trigger] t[k]).0 != (#[trigger] t[l]).0
        &&& t[k].1 != t[l].1
        &&& !touching(t[k].0 as int, t[k].1 as int, t[l].0 as int, t[l].1 as int)
    } by {
        assert(t.to_set().contains(t[k]));
        assert(t.to_set().contains(t[l]));
        let i = choose|i: int| 0 <= i < s.len() && s[i] == t[k];
        let j = choose|j: int| 0 <= j < s.len() && s[j] == t[l];
        assert(s[i] == t[k] && s[j] == t[l]);
    }
}

/// `n` trees forming a placement, tree `k` standing in region `k`, solve the
/// puzzle.
pub proof fn lemma_seeded_placement_solves(n: int, trees: Seq<(usize, usize)>, reg: Seq<int>)
    requires
        trees.len() == n,
        is_placement(n, trees),
        forall|k: int| 0 <= k < n ==> reg[tree_cell(n, #[trigger] trees[k])] == k,
    ensures
        is_solution(n, reg, trees),
{
    assert forall|k: int, l: int| 0 <= k < trees.len() && 0 <= l < trees.len() && k != l implies
        crate::puzzle::trees_compatible(n, reg, #[trigger] trees[k], #[trigger] trees[l]) by {
        assert(reg[tree_cell(n, trees[k])] == k);
        assert(reg[tree_cell(n, trees[l])] == l);
    }
}

/// When the board built around a placement (tree `k` seeding region `k`) has
/// a unique solution, that solution is the placement.
pub proof fn lemma_accepted_solution(n: int, trees: Seq<(usize, usize)>, reg: Seq<int>, sizes: Seq<usize>)
    requires
        trees.len() == n,
        is_placement(n, trees),
        gadget_regions_ok(n, trees, reg, sizes),
        has_unique_solution(n, reg),
    ensures
        is_solution(n, reg, trees),
        forall|q: Seq<(usize, usize)>| #[trigger] is_solution(n, reg, q) ==> q.to_set() == trees.to_set(),
{
    assert forall|k: int| 0 <= k < n implies reg[tree_cell(n, #[trigger] trees[k])] == k by {
        assert(reg[crate::gadget::tree_index(n, trees[k])] == k);
    }
    lemma_seeded_placement_solves(n, trees, reg);
    let s = choose|s: Seq<(usize, usize)>| #[trigger] is_solution(n, reg, s) &&
        forall|q: Seq<(usize, usize)>| #[trigger] is_solution(n, reg, q) ==> q.to_set() == s.to_set();
    assert(trees.to_set() == s.to_set());
}

/// The trees of a placement solve the board that `build_level_attempt`
/// builds around them; when it accepts the board, its one solution is theirs.
pub proof fn lemma_placement_attempt(n: int, trees: Seq<(usize, usize)>, g: Seq<int>, sizes: Seq<usize>, accepted: bool)
    requires
        trees_distinct(trees) ==> gadget_regions_ok(n, trees, g, sizes),
        accepted ==> has_unique_solution(n, g),
        trees.len() == n,
    ensures
        is_placement(n, trees) ==> is_solution(n, g, trees),
        is_placement(n, trees) && accepted ==> forall|q: Seq<(usize, usize)>|
            #[trigger] is_solution(n, g, q) ==> q.to_set() == trees.to_set(),
{
    if is_placement(n, trees) {
        assert(trees_distinct(trees)) by {
            assert forall|k: int, l: int| 0 <= k < l < trees.len() implies #[trigger] trees[k] != #[trigger] trees[l] by {
                assert(trees[k].0 != trees[l].0);
            }
        }
        assert forall|k: int| 0 <= k < n implies g[tree_cell(n, #[trigger] trees[k])] == k by {
            assert(g[crate::gadget::tree_index(n, trees[k])] == k);
        }
        lemma_seeded_placement_solves(n, trees, g);
        if accepted {
            lemma_accepted_solution(n, trees, g, sizes);
        }
    }
}

/// A generated level whose tree search succeeded: its trees, taken in any
/// order (outward from a centre, or by a ranking from an edge), solve the
/// board built around them, and when the board is accepted its one solution
/// is exactly those trees.
pub proof fn lemma_generated_level(
    n: int,
    planned: Seq<(usize, usize)>,
    trees: Seq<(usize, usize)>,
    g: Seq<int>,
    sizes: Seq<usize>,
    accepted: bool,
)
    requires
        placement_by_rows(n, planned),
        trees.no_duplicates(),
        trees.to_set() == planned.to_set(),
        trees.len() == n,
        trees_distinct(trees) ==> gadget_regions_ok(n, trees, g, sizes),
        accepted ==> has_unique_solution(n, g),
    ensures
        is_solution(n, g, trees),
        accepted ==> forall|q: Seq<(usize, usize)>| #[trigger] is_solution(n, g, q) ==> q.to_set() == trees.to_set(),
{
    lemma_rows_placement(n, planned);
    lemma_placement_reordered(n, planned, trees);
    lemma_placement_attempt(n, trees, g, sizes, accepted);
}

/// With a limit of two, a count of one is exactly a unique solution.
pub proof fn lemma_unique_iff_count(n: int, reg: Seq<int>, count: usize)
    requires
        count <= 2,
        exists|sols: Seq<Seq<(usize, usize)>>| #![trigger sols.len()]
            sols.len() == count
            && distinct_solutions(n, reg, sols)
            && (count < 2 ==> all_solutions_among(n, reg, sols)),
    ensures
        (count == 1) == has_unique_solution(n, reg),
{
    let sols = choose|sols: Seq<Seq<(usize, usize)>>| #![trigger sols.len()]
        sols.len() == count
        && distinct_solutions(n, reg, sols)
        && (count < 2 ==> all_solutions_among(n, reg, sols));
    if count == 1 {
        lemma_count_one_unique(n, reg, sols);
    } else if has_unique_solution(n, reg) {
        let s = choose|s: Seq<(usize, usize)>| #[trigger] is_solution(n, reg, s) &&
            forall|q: Seq<(usize, usize)>| #[trigger] is_solution(n, reg, q) ==> q.to_set() == s.to_set();
        if count == 0 {
            let i = choose|i: int| 0 <= i < sols.len() && (#[trigger] sols[i]).to_set() == s.to_set();
        } else {
            assert(is_solution(n, reg, sols[0]));
            assert(is_solution(n, reg, sols[1]));
            assert(sols[0].to_set() != sols[1].to_set());
        }
    }
}

/// `s` with its entries `0` and `first` exchanged.
pub open spec fn swap_first(s: Seq<(usize, usize)>, first: int) -> Seq<(usize, usize)> {
    s.update(0, s[first]).update(first, s[0])
}

/// The trees of `s` in the order given by a ranking: entry `first` of `s`
/// goes first (entry 0 taking its place), then the entries `rest[0]`,
/// `rest[1]`, ... of that list.
pub open spec fn ranked_order(s: Seq<(usize, usize)>, first: int, rest: Seq<usize>) -> Seq<(usize, usize)> {
    let sw = swap_first(s, first);
    Seq::new(rest.len() + 1, |i: int| if i == 0 { sw[0] } else { sw[rest[i - 1] as int] })
}

/// `rest` lists each of the positions `1 .. n` once.
pub open spec fn ranks_positions(n: int, rest: Seq<usize>) -> bool {
    &&& rest.len() == n - 1
    &&& forall|k: int| 0 <= k < rest.len() ==> 1 <= #[trigger] rest[k] < n
    &&& forall|a: int, b: int| 0 <= a < b < rest.len() ==> #[trigger] rest[a] != #[trigger] rest[b]
}

/// Orders the first `n` trees by a ranking computed by the caller (for an
/// attempt that starts near an edge): tree `first` goes first, tree 0 takes
/// its place, and the trees follow at the positions `rest` of that list.
/// `None` when `first` is not a tree or `rest` does not list each of the
/// positions `1 .. n` once. The trees of a placement stay a placement.
pub fn order_trees_by_ranking(n: usize, trees: &[(usize, usize)], first: usize, rest: &[usize])
    -> (ordered: Option<Vec<(usize, usize)>>)
    requires
        1 <= n <= 32,
        trees@.len() >= n,
    ensures
        ordered is Some <==> (first < n && ranks_positions(n as int, rest@)),
        ordered is Some ==> ordered->0@ == ranked_order(trees@.take(n as int), first as int, rest@),
        ordered is Some && placement_by_rows(n as int, trees@.take(n as int)) ==> {
            &&& ordered->0@.no_duplicates()
            &&& ordered->0@.to_set() == trees@.take(n as int).to_set()
            &&& is_placement(n as int, ordered->0@)
        },
{
    if first >= n || rest.len() != n - 1 {
        return None;
    }
    let mut seen = [false; MAX_N];
    let mut k: usize = 0;
    while k < rest.len()
        invariant
            1 <= n <= 32,
            rest@.len() == n - 1,
            k <= rest@.len(),
            forall|a: int| 0 <= a < k ==> 1 <= #[trigger] rest@[a] < n,
            forall|a: int, b: int| 0 <= a < b < k ==> #[trigger] rest@[a] != #[trigger] rest@[b],
            forall|x: int| 0 <= x < MAX_N ==> (#[trigger] seen@[x] <==> exists|a: int| 0 <= a < k && rest@[a] == x),
        decreases rest@.len() - k,
    {
        let x = rest[k];
        if x < 1 || x >= n || seen[x] {
            proof {
                if x >= 1 && x < n {
                    let a = choose|a: int| 0 <= a < k && rest@[a] == x;
                    assert(rest@[a] == rest@[k as int]);
                }
            }
            return None;
        }
        seen[x] = true;
        proof {
            assert forall|x2: int| 0 <= x2 < MAX_N implies (#[trigger] seen@[x2] <==> exists|a: int| 0 <= a < k + 1 && rest@[a] == x2) by {
                if x2 == x {
                    assert(rest@[k as int] == x2);
                }
            }
            assert forall|a: int, b: int| 0 <= a < b < k + 1 implies #[trigger] rest@[a] != #[trigger] rest@[b] by {
                if b == k {
                    if rest@[a] == rest@[b] {
                        assert(seen@[x as int]);
                    }
                }
            }
        }
        k = k + 1;
    }
    let mut ordered: Vec<(usize, usize)> = Vec::new();
    ordered.push(trees[first]);
    let ghost s = trees@.take(n as int);
    let ghost target = ranked_order(s, first as int, rest@);
    proof {
        assert(target[0] == trees@[first as int]);
        assert(ordered@ =~= target.take(1));
    }
    let mut i: usize = 0;
    while i < rest.len()
        invariant
            1 <= n <= 32,
            first < n,
            trees@.len() >= n,
            s == trees@.take(n as int),
            target == ranked_order(s, first as int, rest@),
            ranks_positions(n as int, rest@),
            i <= rest@.len(),
            ordered@ == target.take(i + 1),
        decreases rest@.len() - i,
    {
        let x = rest[i];
        let t = if x == first { trees[0] } else { trees[x] };
        ordered.push(t);
        proof {
            assert(target[i + 1] == t);
            assert(ordered@ =~= target.take(i + 2));
        }
        i = i + 1;
    }
    proof {
        assert(ordered@ =~= target);
        if placement_by_rows(n as int, s) {
            lemma_ranked_placement(n as int, s, first as int, rest@);
        }
    }
    Some(ordered)
}

/// The trees of a placement by rows, ranked, are a placement with the same trees.
proof fn lemma_ranked_placement(n: int, s: Seq<(usize, usize)>, first: int, rest: Seq<usize>)
    requires
        placement_by_rows(n, s),
        0 <= first < n,
        ranks_positions(n, rest),
    ensures
        ranked_order(s, first, rest).no_duplicates(),
        ranked_order(s, first, rest).to_set() == s.to_set(),
        is_placement(n, ranked_order(s, first, rest)),
{
    let v = ranked_order(s, first, rest);
    let sw = swap_first(s, first);
    let pos = Seq::new(n as nat, |i: int| if i == 0 { 0int } else { rest[i - 1] as int });
    assert(pos.no_duplicates()) by {
        assert forall|a: int, b: int| 0 <= a < pos.len() && 0 <= b < pos.len() && a != b implies pos[a] != pos[b] by {
            if a > 0 && b > 0 {
                if a < b {
                    assert(rest[a - 1] != rest[b - 1]);
                } else {
                    assert(rest[b - 1] != rest[a - 1]);
                }
            }
        }
    }
    crate::counting::lemma_distinct_in_range(pos, n);
    assert forall|i: int| 0 <= i < n implies #[trigger] v[i] == sw[pos[i]] by {}
    // `sw` has no repeated tree: the trees of `s` stand in different rows
    assert(sw.no_duplicates()) by {
        assert forall|a: int, b: int| 0 <= a < sw.len() && 0 <= b < sw.len() && a != b implies sw[a] != sw[b] by {
            let ia = if a == 0 { first } else if a == first { 0 } else { a };
            let ib = if b == 0 { first } else if b == first { 0 } else { b };
            assert(sw[a] == s[ia] && sw[b] == s[ib]);
            assert(s[ia].0 == ia && s[ib].0 == ib);
        }
    }
    assert(v.no_duplicates()) by {
        assert forall|a: int, b: int| 0 <= a < v.len() && 0 <= b < v.len() && a != b implies v[a] != v[b] by {
            assert(v[a] == sw[pos[a]] && v[b] == sw[pos[b]]);
            assert(pos[a] != pos[b]);
        }
    }
    assert(s.no_duplicates()) by {
        assert forall|a: int, b: int| 0 <= a < s.len() && 0 <= b < s.len() && a != b implies s[a] != s[b] by {
            assert(s[a].0 == a && s[b].0 == b);
        }
    }
    assert forall|k: int| 0 <= k < v.len() implies s.contains(#[trigger] v[k]) by {
        let j = pos[k];
        let ij = if j == 0 { first } else if j == first { 0 } else { j };
        assert(v[k] == s[ij]);
    }
    crate::counting::lemma_same_elements(v, s);
    lemma_rows_placement(n, s);
    lemma_placement_reordered(n, s, v);
}

/// Judges the regions `flat_regions` with the sizes `reg_sizes`: the board
/// is accepted when every region has at least `min_allowed` cells, every
/// region is connected and the puzzle has exactly one solution. Returns the
/// regions by rows, the sizes of regions `0 .. n` and the verdict.
fn judge_attempt(
    n: usize,
    flat_regions: &[u16; MAX_CELLS],
    reg_sizes: &[usize; MAX_N],
    min_allowed: usize,
    nbr_masks: &[BitSet1024],
) -> (res: (Vec<Vec<usize>>, Vec<usize>, bool))
    requires
        2 <= n <= 32,
        are_neighbor_masks(n as int, nbr_masks@),
        forall|j: int| 0 <= j < n * n ==> (#[trigger] flat_regions@[j]) < n,
    ensures
        res.0@.len() == n,
        forall|r: int| 0 <= r < n ==> (#[trigger] res.0@[r])@.len() == n,
        grid_region_model(n as int, res.0@) == flat_region_model(n as int, flat_regions@),
        res.1@ == reg_sizes@.take(n as int),
        res.2 == ((forall|g: int| 0 <= g < n ==> #[trigger] res.1@[g] >= min_allowed)
            && regions_all_connected(n as int, flat_region_model(n as int, flat_regions@))
            && has_unique_solution(n as int, flat_region_model(n as int, flat_regions@))),
{
    let ghost model = flat_region_model(n as int, flat_regions@);
    let mut size_ok = true;
    let mut reg: usize = 0;
    while reg < n && size_ok
        invariant
            n <= 32,
            reg <= n,
            size_ok == forall|g: int| 0 <= g < reg ==> #[trigger] reg_sizes@[g] >= min_allowed,
        decreases n - reg,
    {
        if reg_sizes[reg] < min_allowed {
            size_ok = false;
        }
        reg = reg + 1;
    }
    proof {
        if size_ok {
            assert(reg == n);
        }
    }
    let mut accepted = false;
    let mut connected = false;
    if size_ok {
        proof {
            assert(n * n <= 1024) by (nonlinear_arith)
                requires n <= 32;
            assert forall|j: int| 0 <= j < n * n implies (#[trigger] flat_regions@[j]) < crate::MAX_N by {}
        }
        connected = all_regions_connected_fast(n, flat_regions);
        if connected {
            proof {
                assert forall|j: int| 0 <= j < n * n implies 0 <= #[trigger] model[j] < n by {}
            }
            let count = count_solutions_fast(n, flat_regions, nbr_masks, 2);
            proof {
                lemma_unique_iff_count(n as int, model, count);
            }
            accepted = count == 1;
            proof {
                assert(accepted == has_unique_solution(n as int, model));
            }
        }
        proof {
            assert(connected == regions_all_connected(n as int, model));
        }
    }
    let rows = rows_from_flat(n, flat_regions);
    let mut sizes: Vec<usize> = Vec::new();
    for g in 0..n
        invariant
            n <= 32,
            sizes@ == reg_sizes@.take(g as int),
    {
        sizes.push(reg_sizes[g]);
        proof {
            assert(sizes@ =~= reg_sizes@.take(g + 1));
        }
    }
    proof {
        assert forall|g: int| 0 <= g < n implies #[trigger] sizes@[g] == reg_sizes@[g] by {}
        if !size_ok {
            let g = choose|g: int| 0 <= g < reg && !(#[trigger] reg_sizes@[g] >= min_allowed);
            assert(!(sizes@[g] >= min_allowed));
        } else {
            assert forall|g: int| 0 <= g < n implies #[trigger] sizes@[g] >= min_allowed by {
                assert(reg_sizes@[g] >= min_allowed);
            }
            if !connected {
                assert(!regions_all_connected(n as int, model));
            }
        }
        assert(accepted == (size_ok && regions_all_connected(n as int, model) && has_unique_solution(n as int, model)));
        assert(size_ok == (forall|g: int| 0 <= g < n ==> #[trigger] sizes@[g] >= min_allowed));
    }
    (rows, sizes, accepted)
}

/// One attempt of the generator: builds the regions around `trees` and
/// accepts the board when every region has at least the least size the
/// difficulty allows, every region is connected and the puzzle has exactly
/// one solution. Returns the regions by rows, their sizes and the verdict.
pub fn build_level_attempt(
    n: usize,
    trees: &[(usize, usize)],
    difficulty: &str,
    rng: &mut SimpleRng,
    nbr_masks: &[BitSet1024],
) -> (res: (Vec<Vec<usize>>, Vec<usize>, bool))
    requires
        2 <= n <= 32,
        trees_on_board(n as int, trees@),
        are_neighbor_masks(n as int, nbr_masks@),
    ensures
        res.0@.len() == n,
        forall|r: int| 0 <= r < n ==> (#[trigger] res.0@[r])@.len() == n,
        well_formed_regions(n as int, grid_region_model(n as int, res.0@)),
        res.1@.len() == n,
        res.2 == ((forall|g: int| 0 <= g < n ==> #[trigger] res.1@[g] >= (if is_easy(difficulty@) { 1int } else { 3int }))
            && regions_all_connected(n as int, grid_region_model(n as int, res.0@))
            && has_unique_solution(n as int, grid_region_model(n as int, res.0@))),
        trees_distinct(trees@) ==> gadget_regions_ok(n as int, trees@, grid_region_model(n as int, res.0@), res.1@),
        final(rng).0 == crate::gadget::gadget_state(n as int, trees@, difficulty@, old(rng).0),
        forall|j: int| 0 <= j < n * n ==> #[trigger] grid_region_model(n as int, res.0@)[j]
            == crate::gadget::gadget_layout(n as int, trees@, difficulty@, old(rng).0)[j] as int,
{
    let ghost state0 = rng.0;
    let mut flat_regions = [0u16; MAX_CELLS];
    let mut reg_sizes = [0usize; MAX_N];
    let min_allowed = construct_gadget_regions_fast(n, trees, difficulty, rng, &mut flat_regions, &mut reg_sizes);
    proof {
        assert(n * n <= 1024) by (nonlinear_arith)
            requires n <= 32;
    }
    let res = judge_attempt(n, &flat_regions, &reg_sizes, min_allowed, nbr_masks);
    proof {
        let model = flat_region_model(n as int, flat_regions@);
        assert forall|j: int| 0 <= j < n * n implies 0 <= #[trigger] model[j] < n by {}
        assert forall|g: int| 0 <= g < n implies #[trigger] res.1@[g] == reg_sizes@[g] by {}
        let big = if is_easy(difficulty@) { 1int } else { 3int };
        assert(min_allowed as int == big);
        assert((forall|g: int| 0 <= g < n ==> #[trigger] res.1@[g] >= min_allowed)
            == (forall|g: int| 0 <= g < n ==> #[trigger] res.1@[g] >= big));
        if trees_distinct(trees@) {
            assert(res.1@ =~= reg_sizes@.take(n as int));
        }
        assert forall|j: int| 0 <= j < n * n implies #[trigger] model[j]
            == crate::gadget::gadget_layout(n as int, trees@, difficulty@, state0)[j] as int by {
            assert(flat_regions@[j] as int == crate::gadget::gadget_layout(n as int, trees@, difficulty@, state0)[j] as int);
        }
    }
    res
}

} // verus!
