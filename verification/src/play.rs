//! Playing a generated puzzle: the player marks cells as trees or as empty,
//! by presses, drags and releases, and can undo and redo whole actions.

use vstd::prelude::*;
use crate::generator::ParksLevel;

verus! {

/// What the player has marked on a cell.
#[derive(Clone, Copy, PartialEq, Eq, Debug, Structural)]
pub enum Marking {
    NotMarked,
    MarkedTree,
    MarkedEmpty,
}

/// One cell going from one marking to another.
#[derive(Clone, Copy, PartialEq, Eq, Debug, Structural)]
pub struct CellChange {
    pub row: usize,
    pub col: usize,
    pub from: Marking,
    pub to: Marking,
}

/// The changes of one player action, in the order they were made.
pub struct BoardAction {
    pub changes: Vec<CellChange>,
}

/// A board of markings, by rows.
pub open spec fn board_view(rows: Seq<Vec<Marking>>) -> Seq<Seq<Marking>> {
    rows.map_values(|row: Vec<Marking>| row@)
}

/// The change lists of a stack of actions, bottom first.
pub open spec fn actions_view(actions: Seq<BoardAction>) -> Seq<Seq<CellChange>> {
    actions.map_values(|a: BoardAction| a.changes@)
}

/// The board is `n` rows of `n` markings.
pub open spec fn square(b: Seq<Seq<Marking>>, n: int) -> bool {
    &&& b.len() == n
    &&& forall|r: int| 0 <= r < n ==> (#[trigger] b[r]).len() == n
}

/// `(r, c)` is a cell of `b`.
pub open spec fn in_board(b: Seq<Seq<Marking>>, r: int, c: int) -> bool {
    0 <= r < b.len() && 0 <= c < b[r].len()
}

/// `b` with cell `(r, c)` marked `v`.
pub open spec fn set_mark(b: Seq<Seq<Marking>>, r: int, c: int, v: Marking) -> Seq<Seq<Marking>> {
    b.update(r, b[r].update(c, v))
}

/// `b` after the changes `cs`, first to last.
pub open spec fn apply_changes(b: Seq<Seq<Marking>>, cs: Seq<CellChange>) -> Seq<Seq<Marking>>
    decreases cs.len(),
{
    if cs.len() == 0 {
        b
    } else {
        let ch = cs.last();
        set_mark(apply_changes(b, cs.drop_last()), ch.row as int, ch.col as int, ch.to)
    }
}

/// `b` with the changes `cs` taken back, last to first.
pub open spec fn revert_changes(b: Seq<Seq<Marking>>, cs: Seq<CellChange>) -> Seq<Seq<Marking>>
    decreases cs.len(),
{
    if cs.len() == 0 {
        b
    } else {
        let ch = cs.last();
        revert_changes(set_mark(b, ch.row as int, ch.col as int, ch.from), cs.drop_last())
    }
}

/// The changes `cs` were made one after the other starting from `b`: each
/// is on a cell of the board and starts from the marking the cell then had.
pub open spec fn chain_ok(b: Seq<Seq<Marking>>, cs: Seq<CellChange>) -> bool
    decreases cs.len(),
{
    if cs.len() == 0 {
        true
    } else {
        let ch = cs.last();
        let before = apply_changes(b, cs.drop_last());
        &&& chain_ok(b, cs.drop_last())
        &&& in_board(before, ch.row as int, ch.col as int)
        &&& before[ch.row as int][ch.col as int] == ch.from
    }
}

/// The undo stack `hist` (bottom first) leads to the board `b`: its top
/// action was made on the board that taking it back gives, and so on down.
pub open spec fn history_ok(b: Seq<Seq<Marking>>, hist: Seq<Seq<CellChange>>) -> bool
    decreases hist.len(),
{
    if hist.len() == 0 {
        true
    } else {
        let a = hist.last();
        let prev = revert_changes(b, a);
        &&& chain_ok(prev, a)
        &&& apply_changes(prev, a) == b
        &&& history_ok(prev, hist.drop_last())
    }
}

/// The redo stack `fut` (bottom first) can be replayed from the board `b`:
/// its top action applies to `b`, the next to the board after it, and so on.
pub open spec fn future_ok(b: Seq<Seq<Marking>>, fut: Seq<Seq<CellChange>>) -> bool
    decreases fut.len(),
{
    if fut.len() == 0 {
        true
    } else {
        let a = fut.last();
        &&& chain_ok(b, a)
        &&& future_ok(apply_changes(b, a), fut.drop_last())
    }
}

/// The board of a level with the pending changes `pending` of an unfinished
/// interaction: `n x n`; without the pending changes it is the board the
/// undo stack leads to and the redo stack starts from.
pub open spec fn level_ok(
    b: Seq<Seq<Marking>>,
    n: int,
    pending: Seq<CellChange>,
    hist: Seq<Seq<CellChange>>,
    fut: Seq<Seq<CellChange>>,
) -> bool {
    let base = revert_changes(b, pending);
    &&& square(b, n)
    &&& square(base, n)
    &&& chain_ok(base, pending)
    &&& apply_changes(base, pending) == b
    &&& history_ok(base, hist)
    &&& future_ok(base, fut)
}

/// Marking a cell with the marking it has leaves the board as it is.
proof fn lemma_set_same(b: Seq<Seq<Marking>>, r: int, c: int)
    requires
        in_board(b, r, c),
    ensures
        set_mark(b, r, c, b[r][c]) == b,
{
    assert(b[r].update(c, b[r][c]) =~= b[r]);
    assert(set_mark(b, r, c, b[r][c]) =~= b);
}

/// A second marking of a cell overrides the first.
proof fn lemma_set_twice(b: Seq<Seq<Marking>>, r: int, c: int, v: Marking, w: Marking)
    requires
        in_board(b, r, c),
    ensures
        set_mark(set_mark(b, r, c, v), r, c, w) == set_mark(b, r, c, w),
{
    let b1 = set_mark(b, r, c, v);
    assert(b1[r] == b[r].update(c, v));
    assert(b1[r].update(c, w) =~= b[r].update(c, w));
    assert(set_mark(b1, r, c, w) =~= set_mark(b, r, c, w));
}

/// Marking a cell of `b` keeps the shape of every row.
proof fn lemma_set_shape(b: Seq<Seq<Marking>>, r: int, c: int, v: Marking)
    requires
        in_board(b, r, c),
    ensures
        set_mark(b, r, c, v).len() == b.len(),
        forall|i: int| 0 <= i < b.len() ==> (#[trigger] set_mark(b, r, c, v)[i]).len() == b[i].len(),
        set_mark(b, r, c, v)[r][c] == v,
{
}

/// A chain of changes keeps the shape of the board, and so does each prefix
/// of it; every prefix of a chain is a chain.
proof fn lemma_chain_prefix(b: Seq<Seq<Marking>>, cs: Seq<CellChange>, k: int)
    requires
        chain_ok(b, cs),
        0 <= k <= cs.len(),
    ensures
        chain_ok(b, cs.take(k)),
        apply_changes(b, cs.take(k)).len() == b.len(),
        forall|i: int| 0 <= i < b.len() ==> (#[trigger] apply_changes(b, cs.take(k))[i]).len() == b[i].len(),
    decreases cs.len(),
{
    if cs.len() == 0 {
        assert(cs.take(k) =~= cs);
    } else if k == cs.len() {
        assert(cs.take(k) =~= cs);
        lemma_chain_prefix(b, cs.drop_last(), k - 1);
        assert(cs.drop_last().take(k - 1) =~= cs.drop_last());
        let ch = cs.last();
        lemma_set_shape(apply_changes(b, cs.drop_last()), ch.row as int, ch.col as int, ch.to);
    } else {
        lemma_chain_prefix(b, cs.drop_last(), k);
        assert(cs.drop_last().take(k) =~= cs.take(k));
    }
}

/// Taking back a chain of changes returns the board it started from.
pub proof fn lemma_revert_apply(b: Seq<Seq<Marking>>, cs: Seq<CellChange>)
    requires
        chain_ok(b, cs),
    ensures
        revert_changes(apply_changes(b, cs), cs) == b,
    decreases cs.len(),
{
    if cs.len() > 0 {
        let ch = cs.last();
        let mid = apply_changes(b, cs.drop_last());
        lemma_set_twice(mid, ch.row as int, ch.col as int, ch.to, ch.from);
        lemma_set_same(mid, ch.row as int, ch.col as int);
        lemma_revert_apply(b, cs.drop_last());
    }
}

/// Adding a change that starts from the marking its cell has keeps a chain a
/// chain from the same start.
proof fn lemma_push_change(base: Seq<Seq<Marking>>, cs: Seq<CellChange>, ch: CellChange)
    requires
        chain_ok(base, cs),
        in_board(apply_changes(base, cs), ch.row as int, ch.col as int),
        apply_changes(base, cs)[ch.row as int][ch.col as int] == ch.from,
    ensures
        chain_ok(base, cs.push(ch)),
        apply_changes(base, cs.push(ch)) == set_mark(apply_changes(base, cs), ch.row as int, ch.col as int, ch.to),
        revert_changes(set_mark(apply_changes(base, cs), ch.row as int, ch.col as int, ch.to), cs.push(ch))
            == revert_changes(apply_changes(base, cs), cs),
{
    assert(cs.push(ch).drop_last() =~= cs);
    let b = apply_changes(base, cs);
    lemma_set_twice(b, ch.row as int, ch.col as int, ch.to, ch.from);
    lemma_set_same(b, ch.row as int, ch.col as int);
}

/// The number of cells `(r, c)` of the first `r0` rows, and then of the first
/// `c0` cells of row `r0`, that are marked as trees on `b` and are trees of
/// the solution `trees`.
pub open spec fn correct_trees_upto(b: Seq<Seq<Marking>>, trees: Seq<(usize, usize)>, n: int, r0: int, c0: int) -> nat
    decreases r0, c0,
{
    if c0 > 0 {
        let c = c0 - 1;
        correct_trees_upto(b, trees, n, r0, c)
            + if b[r0][c] == Marking::MarkedTree && trees.contains((r0 as usize, c as usize)) { 1nat } else { 0nat }
    } else if r0 > 0 {
        correct_trees_upto(b, trees, n, r0 - 1, n)
    } else {
        0
    }
}

/// The cells of the `n x n` board `b` marked as trees that are trees of the solution.
pub open spec fn correct_trees(b: Seq<Seq<Marking>>, trees: Seq<(usize, usize)>, n: int) -> nat {
    correct_trees_upto(b, trees, n, n, 0)
}

/// The cells counted by `correct_trees_upto(b, trees, n, r0, c0)`, as a set.
spec fn counted_cells(b: Seq<Seq<Marking>>, trees: Seq<(usize, usize)>, n: int, r0: int, c0: int) -> Set<(usize, usize)> {
    Set::new(|p: (usize, usize)| (p.0 < r0 || (p.0 == r0 && p.1 < c0)) && p.0 < n && p.1 < n
        && b[p.0 as int][p.1 as int] == Marking::MarkedTree && trees.contains(p))
}

proof fn lemma_counted_prefix(b: Seq<Seq<Marking>>, trees: Seq<(usize, usize)>, n: int, r0: int, c0: int)
    requires
        0 <= n < usize::MAX,
        0 <= r0 <= n,
        0 <= c0 <= n,
        c0 > 0 ==> r0 < n,
    ensures
        counted_cells(b, trees, n, r0, c0).finite(),
        correct_trees_upto(b, trees, n, r0, c0) == counted_cells(b, trees, n, r0, c0).len(),
    decreases r0, c0,
{
    let s = counted_cells(b, trees, n, r0, c0);
    assert(s.subset_of(trees.to_set()));
    vstd::set_lib::lemma_len_subset(s, trees.to_set());
    if c0 > 0 {
        let c = c0 - 1;
        lemma_counted_prefix(b, trees, n, r0, c);
        let prev = counted_cells(b, trees, n, r0, c);
        let x = (r0 as usize, c as usize);
        if b[r0][c] == Marking::MarkedTree && trees.contains(x) {
            assert(s =~= prev.insert(x));
            assert(!prev.contains(x));
        } else {
            assert(s =~= prev);
        }
    } else if r0 > 0 {
        lemma_counted_prefix(b, trees, n, r0 - 1, n);
        assert(s =~= counted_cells(b, trees, n, r0 - 1, n));
    } else {
        assert(s =~= Set::<(usize, usize)>::empty());
    }
}

/// The correct-tree count is the number of cells of the `n x n` board that
/// the player marked as trees and that are trees of the solution: a tree
/// marked anywhere else never adds to it.
pub proof fn lemma_correct_trees_counts(b: Seq<Seq<Marking>>, trees: Seq<(usize, usize)>, n: int)
    requires
        0 <= n < usize::MAX,
    ensures
        correct_trees(b, trees, n) == Set::new(|p: (usize, usize)| p.0 < n && p.1 < n
            && b[p.0 as int][p.1 as int] == Marking::MarkedTree && trees.contains(p)).len(),
        correct_trees(b, trees, n) <= trees.to_set().len(),
{
    lemma_counted_prefix(b, trees, n, n, 0);
    let s = counted_cells(b, trees, n, n, 0);
    assert(s =~= Set::new(|p: (usize, usize)| p.0 < n && p.1 < n
        && b[p.0 as int][p.1 as int] == Marking::MarkedTree && trees.contains(p)));
    assert(s.subset_of(trees.to_set()));
    vstd::set_lib::lemma_len_subset(s, trees.to_set());
}

/// For a solution of distinct trees on the `n x n` board, the count reaches
/// the number of trees exactly when every tree of the solution is marked as
/// a tree, so a level reads as solved only then.
pub proof fn lemma_solved_iff_all_marked(b: Seq<Seq<Marking>>, trees: Seq<(usize, usize)>, n: int)
    requires
        0 <= n < usize::MAX,
        trees.no_duplicates(),
        forall|k: int| 0 <= k < trees.len() ==> (#[trigger] trees[k]).0 < n && trees[k].1 < n,
    ensures
        (correct_trees(b, trees, n) == trees.len()) <==>
            (forall|k: int| 0 <= k < trees.len() ==> b[(#[trigger] trees[k]).0 as int][trees[k].1 as int] == Marking::MarkedTree),
{
    lemma_correct_trees_counts(b, trees, n);
    let s = Set::new(|p: (usize, usize)| p.0 < n && p.1 < n
        && b[p.0 as int][p.1 as int] == Marking::MarkedTree && trees.contains(p));
    let ts = trees.to_set();
    trees.unique_seq_to_set();
    assert(s.subset_of(ts));
    vstd::seq_lib::seq_to_set_is_finite(trees);
    if correct_trees(b, trees, n) == trees.len() {
        vstd::set_lib::lemma_subset_equality(s, ts);
        assert forall|k: int| 0 <= k < trees.len() implies b[(#[trigger] trees[k]).0 as int][trees[k].1 as int] == Marking::MarkedTree by {
            assert(ts.contains(trees[k]));
            assert(s.contains(trees[k]));
        }
    }
    if forall|k: int| 0 <= k < trees.len() ==> b[(#[trigger] trees[k]).0 as int][trees[k].1 as int] == Marking::MarkedTree {
        assert forall|p: (usize, usize)| ts.contains(p) implies s.contains(p) by {
            let k = choose|k: int| 0 <= k < trees.len() && trees[k] == p;
            assert(b[trees[k].0 as int][trees[k].1 as int] == Marking::MarkedTree);
        }
        assert(s =~= ts);
    }
}

/// The region of cell `(r, c)` of the board `regions`, if the cell is on it.
pub open spec fn region_at(regions: Seq<Vec<usize>>, r: int, c: int) -> Option<usize> {
    if 0 <= r < regions.len() && 0 <= c < regions[r]@.len() {
        Some(regions[r]@[c])
    } else {
        None
    }
}

/// The `n x n` board with no cell marked.
pub open spec fn blank_board(n: int) -> Seq<Seq<Marking>> {
    Seq::new(n as nat, |r: int| Seq::new(n as nat, |c: int| Marking::NotMarked))
}

/// The undo effect on a level: the board without the top action of the undo
/// stack, which moves to the redo stack.
pub open spec fn undo_effect(b: Seq<Seq<Marking>>, hist: Seq<Seq<CellChange>>, fut: Seq<Seq<CellChange>>)
    -> (Seq<Seq<Marking>>, Seq<Seq<CellChange>>, Seq<Seq<CellChange>>)
{
    if hist.len() == 0 {
        (b, hist, fut)
    } else {
        (revert_changes(b, hist.last()), hist.drop_last(), fut.push(hist.last()))
    }
}

/// The redo effect on a level: the board with the top action of the redo
/// stack made again, which moves to the undo stack.
pub open spec fn redo_effect(b: Seq<Seq<Marking>>, hist: Seq<Seq<CellChange>>, fut: Seq<Seq<CellChange>>)
    -> (Seq<Seq<Marking>>, Seq<Seq<CellChange>>, Seq<Seq<CellChange>>)
{
    if fut.len() == 0 {
        (b, hist, fut)
    } else {
        (apply_changes(b, fut.last()), hist.push(fut.last()), fut.drop_last())
    }
}

/// A generated puzzle being played: the player's markings, by rows, and the
/// stacks of actions to undo and to redo (top last).
pub struct UserLevel {
    pub level: ParksLevel,
    pub markings: Vec<Vec<Marking>>,
    pub undo_stack: Vec<BoardAction>,
    pub redo_stack: Vec<BoardAction>,
}

impl UserLevel {
    /// The player's markings.
    pub open spec fn board(&self) -> Seq<Seq<Marking>> {
        board_view(self.markings@)
    }

    /// The actions that can be undone, the last one on top.
    pub open spec fn history(&self) -> Seq<Seq<CellChange>> {
        actions_view(self.undo_stack@)
    }

    /// The actions that can be redone, the next one on top.
    pub open spec fn future(&self) -> Seq<Seq<CellChange>> {
        actions_view(self.redo_stack@)
    }

    /// A fresh play of `level`: no cell marked, nothing to undo or redo.
    pub fn new(level: ParksLevel) -> (u: Self)
        ensures
            u.level == level,
            u.board() == blank_board(level.size as int),
            u.history().len() == 0,
            u.future().len() == 0,
    {
        let n = level.size;
        let mut markings: Vec<Vec<Marking>> = Vec::new();
        for r in 0..n
            invariant
                markings@.len() == r,
                forall|i: int| 0 <= i < r ==> (#[trigger] markings@[i])@ == blank_board(n as int)[i],
        {
            let mut row: Vec<Marking> = Vec::new();
            for c in 0..n
                invariant
                    row@ == Seq::new(c as nat, |k: int| Marking::NotMarked),
            {
                row.push(Marking::NotMarked);
                proof {
                    assert(row@ =~= Seq::new((c + 1) as nat, |k: int| Marking::NotMarked));
                }
            }
            markings.push(row);
        }
        let u = UserLevel { level, markings, undo_stack: Vec::new(), redo_stack: Vec::new() };
        proof {
            assert(u.board() =~= blank_board(n as int));
            assert(u.history() =~= Seq::<Seq<CellChange>>::empty());
            assert(u.future() =~= Seq::<Seq<CellChange>>::empty());
        }
        u
    }

    /// How many cells the player marked as trees that are trees of the solution.
    pub fn correct_tree_count(&self) -> (count: usize)
        requires
            square(self.board(), self.level.size as int),
            self.level.size * self.level.size <= usize::MAX,
        ensures
            count == correct_trees(self.board(), self.level.solution_trees@, self.level.size as int),
    {
        let n = self.level.size;
        let ghost b = self.board();
        let ghost trees = self.level.solution_trees@;
        let mut count: usize = 0;
        for r in 0..n
            invariant
                n == self.level.size,
                b == self.board(),
                trees == self.level.solution_trees@,
                square(b, n as int),
                n * n <= usize::MAX,
                count == correct_trees_upto(b, trees, n as int, r as int, 0),
                count <= r * n,
        {
            proof {
                if r > 0 {
                    assert(correct_trees_upto(b, trees, n as int, r as int, 0) == correct_trees_upto(b, trees, n as int, r - 1, n as int));
                }
            }
            for c in 0..n
                invariant
                    n == self.level.size,
                    b == self.board(),
                    trees == self.level.solution_trees@,
                    square(b, n as int),
                    n * n <= usize::MAX,
                    r < n,
                    count == if c == 0 {
                        correct_trees_upto(b, trees, n as int, r as int, 0)
                    } else {
                        correct_trees_upto(b, trees, n as int, r as int, c as int)
                    },
                    count <= r * n + c,
            {
                proof {
                    assert(self.markings@[r as int]@ == b[r as int]);
                    assert(r * n + c + 1 <= n * n) by (nonlinear_arith)
                        requires r < n, c < n;
                }
                if self.markings[r][c] == Marking::MarkedTree && has_cell(&self.level.solution_trees, r, c) {
                    count = count + 1;
                }
            }
            proof {
                if n > 0 {
                    assert(correct_trees_upto(b, trees, n as int, (r + 1) as int, 0) == correct_trees_upto(b, trees, n as int, r as int, n as int));
                }
                assert((r + 1) * n == r * n + n) by (nonlinear_arith);
            }
        }
        count
    }

    /// Whether every tree of the solution is marked as a tree.
    pub fn is_solved(&self) -> (solved: bool)
        requires
            square(self.board(), self.level.size as int),
            self.level.size * self.level.size <= usize::MAX,
        ensures
            solved == (correct_trees(self.board(), self.level.solution_trees@, self.level.size as int)
                == self.level.solution_trees@.len()),
    {
        self.correct_tree_count() == self.level.solution_trees.len()
    }

    /// The region of cell `(r, c)`, if the cell is on the board.
    pub fn region(&self, r: usize, c: usize) -> (reg: Option<usize>)
        ensures
            reg == region_at(self.level.regions@, r as int, c as int),
    {
        if r < self.level.regions.len() && c < self.level.regions[r].len() {
            Some(self.level.regions[r][c])
        } else {
            None
        }
    }

    /// The side of the board.
    pub fn size(&self) -> (n: usize)
        ensures
            n == self.level.size,
    {
        self.level.size
    }

    /// Marks cell `(r, c)` with `v`.
    fn mark(&mut self, r: usize, c: usize, v: Marking)
        requires
            in_board(old(self).board(), r as int, c as int),
        ensures
            final(self).board() == set_mark(old(self).board(), r as int, c as int, v),
            final(self).level == old(self).level,
            final(self).undo_stack@ == old(self).undo_stack@,
            final(self).redo_stack@ == old(self).redo_stack@,
    {
        let ghost b = self.board();
        proof {
            assert(self.markings@[r as int]@ == b[r as int]);
        }
        self.markings[r][c] = v;
        proof {
            assert(self.board() =~= set_mark(b, r as int, c as int, v));
        }
    }

    /// Takes back the changes `cs` from the board, last to first.
    fn take_back(&mut self, cs: &Vec<CellChange>)
        requires
            chain_ok(revert_changes(old(self).board(), cs@), cs@),
            apply_changes(revert_changes(old(self).board(), cs@), cs@) == old(self).board(),
        ensures
            final(self).board() == revert_changes(old(self).board(), cs@),
            final(self).level == old(self).level,
            final(self).undo_stack@ == old(self).undo_stack@,
            final(self).redo_stack@ == old(self).redo_stack@,
    {
        let ghost prev = revert_changes(self.board(), cs@);
        let ghost b0 = self.board();
        let mut k = cs.len();
        proof {
            assert(cs@.take(k as int) =~= cs@);
        }
        while k > 0
            invariant
                k <= cs@.len(),
                chain_ok(prev, cs@),
                self.board() == apply_changes(prev, cs@.take(k as int)),
                self.level == old(self).level,
                self.undo_stack@ == old(self).undo_stack@,
                self.redo_stack@ == old(self).redo_stack@,
            decreases k,
        {
            let ch = cs[k - 1];
            proof {
                let pre = cs@.take(k as int);
                assert(pre.last() == ch);
                assert(pre.drop_last() =~= cs@.take(k - 1));
                lemma_chain_prefix(prev, cs@, k as int);
                lemma_chain_prefix(prev, cs@, k - 1);
                let x = apply_changes(prev, cs@.take(k - 1));
                lemma_set_shape(x, ch.row as int, ch.col as int, ch.to);
                lemma_set_twice(x, ch.row as int, ch.col as int, ch.to, ch.from);
                lemma_set_same(x, ch.row as int, ch.col as int);
            }
            self.mark(ch.row, ch.col, ch.from);
            k = k - 1;
        }
        proof {
            assert(cs@.take(0) =~= Seq::<CellChange>::empty());
        }
    }

    /// Makes the changes `cs` on the board, first to last.
    fn replay(&mut self, cs: &Vec<CellChange>)
        requires
            chain_ok(old(self).board(), cs@),
        ensures
            final(self).board() == apply_changes(old(self).board(), cs@),
            final(self).level == old(self).level,
            final(self).undo_stack@ == old(self).undo_stack@,
            final(self).redo_stack@ == old(self).redo_stack@,
    {
        let ghost b0 = self.board();
        let mut k: usize = 0;
        proof {
            assert(cs@.take(0) =~= Seq::<CellChange>::empty());
        }
        while k < cs.len()
            invariant
                k <= cs@.len(),
                chain_ok(b0, cs@),
                self.board() == apply_changes(b0, cs@.take(k as int)),
                self.level == old(self).level,
                self.undo_stack@ == old(self).undo_stack@,
                self.redo_stack@ == old(self).redo_stack@,
            decreases cs@.len() - k,
        {
            let ch = cs[k];
            proof {
                let pre = cs@.take(k + 1);
                assert(pre.last() == ch);
                assert(pre.drop_last() =~= cs@.take(k as int));
                lemma_chain_prefix(b0, cs@, k + 1);
            }
            self.mark(ch.row, ch.col, ch.to);
            k = k + 1;
        }
        proof {
            assert(cs@.take(k as int) =~= cs@);
        }
    }
}

/// `xs` then `ys` is `xs` followed by `ys`, and a chain exactly when both
/// parts are chains, the second from where the first ends.
proof fn lemma_concat(b: Seq<Seq<Marking>>, xs: Seq<CellChange>, ys: Seq<CellChange>)
    ensures
        apply_changes(b, xs + ys) == apply_changes(apply_changes(b, xs), ys),
        chain_ok(b, xs + ys) == (chain_ok(b, xs) && chain_ok(apply_changes(b, xs), ys)),
    decreases ys.len(),
{
    if ys.len() == 0 {
        assert(xs + ys =~= xs);
    } else {
        assert((xs + ys).drop_last() =~= xs + ys.drop_last());
        assert((xs + ys).last() == ys.last());
        lemma_concat(b, xs, ys.drop_last());
    }
}

/// Records `to` on cell `(r, c)` of `lvl` as the next change of `changes`,
/// the pending changes of an interaction on it.
fn record_change(lvl: &mut UserLevel, changes: &mut Vec<CellChange>, r: usize, c: usize, to: Marking)
    requires
        in_board(old(lvl).board(), r as int, c as int),
        chain_ok(revert_changes(old(lvl).board(), old(changes)@), old(changes)@),
        apply_changes(revert_changes(old(lvl).board(), old(changes)@), old(changes)@) == old(lvl).board(),
    ensures
        final(lvl).board() == set_mark(old(lvl).board(), r as int, c as int, to),
        final(changes)@ == old(changes)@.push(CellChange { row: r, col: c, from: old(lvl).board()[r as int][c as int], to }),
        revert_changes(final(lvl).board(), final(changes)@) == revert_changes(old(lvl).board(), old(changes)@),
        chain_ok(revert_changes(final(lvl).board(), final(changes)@), final(changes)@),
        apply_changes(revert_changes(final(lvl).board(), final(changes)@), final(changes)@) == final(lvl).board(),
        final(lvl).board().len() == old(lvl).board().len(),
        forall|i: int| 0 <= i < old(lvl).board().len() ==> (#[trigger] final(lvl).board()[i]).len() == old(lvl).board()[i].len(),
        final(lvl).level == old(lvl).level,
        final(lvl).undo_stack@ == old(lvl).undo_stack@,
        final(lvl).redo_stack@ == old(lvl).redo_stack@,
{
    let ghost b = lvl.board();
    let ghost base = revert_changes(b, changes@);
    proof {
        assert(lvl.markings@[r as int]@ == b[r as int]);
    }
    let from = lvl.markings[r][c];
    let ch = CellChange { row: r, col: c, from, to };
    lvl.mark(r, c, to);
    let ghost old_changes = changes@;
    changes.push(ch);
    proof {
        lemma_set_shape(b, r as int, c as int, to);
        lemma_push_change(base, old_changes, ch);
        lemma_revert_apply(base, changes@);
        lemma_revert_apply(base, old_changes);
    }
}

/// Whether a tree marked at `(sr, sc)` crosses out cell `(r, c)`: another
/// cell of its row, its column or its region, or a cell touching it.
pub open spec fn shadowed(regions: Seq<Vec<usize>>, sr: int, sc: int, r: int, c: int) -> bool {
    &&& !(r == sr && c == sc)
    &&& (r == sr || c == sc
        || (region_at(regions, sr, sc) is Some && region_at(regions, r, c) == region_at(regions, sr, sc))
        || (-1 <= r - sr <= 1 && -1 <= c - sc <= 1))
}

/// The crossings made around a tree at `(sr, sc)` on board `b` in the first
/// `c0` cells of row `r`: each unmarked cell that the tree shadows.
pub open spec fn automark_row(b: Seq<Seq<Marking>>, regions: Seq<Vec<usize>>, sr: int, sc: int, r: int, c0: int) -> Seq<CellChange>
    decreases c0,
{
    if c0 <= 0 {
        Seq::empty()
    } else {
        let c = c0 - 1;
        let prev = automark_row(b, regions, sr, sc, r, c);
        if shadowed(regions, sr, sc, r, c) && b[r][c] == Marking::NotMarked {
            prev.push(CellChange { row: r as usize, col: c as usize, from: Marking::NotMarked, to: Marking::MarkedEmpty })
        } else {
            prev
        }
    }
}

/// The crossings made around a tree at `(sr, sc)` on the `n`-wide board `b`
/// in its first `r0` rows, row by row.
pub open spec fn automark_rows(b: Seq<Seq<Marking>>, regions: Seq<Vec<usize>>, n: int, sr: int, sc: int, r0: int) -> Seq<CellChange>
    decreases r0,
{
    if r0 <= 0 {
        Seq::empty()
    } else {
        automark_rows(b, regions, n, sr, sc, r0 - 1) + automark_row(b, regions, sr, sc, r0 - 1, n)
    }
}

/// Crosses out every unmarked cell that a tree at `(sr, sc)` shadows, recording
/// each crossing as a change of `changes`.
fn automark_around(lvl: &mut UserLevel, changes: &mut Vec<CellChange>, sr: usize, sc: usize)
    requires
        square(old(lvl).board(), old(lvl).level.size as int),
        chain_ok(revert_changes(old(lvl).board(), old(changes)@), old(changes)@),
        apply_changes(revert_changes(old(lvl).board(), old(changes)@), old(changes)@) == old(lvl).board(),
    ensures
        final(changes)@ == old(changes)@ + automark_rows(old(lvl).board(), old(lvl).level.regions@,
            old(lvl).level.size as int, sr as int, sc as int, old(lvl).level.size as int),
        revert_changes(final(lvl).board(), final(changes)@) == revert_changes(old(lvl).board(), old(changes)@),
        chain_ok(revert_changes(final(lvl).board(), final(changes)@), final(changes)@),
        apply_changes(revert_changes(final(lvl).board(), final(changes)@), final(changes)@) == final(lvl).board(),
        square(final(lvl).board(), old(lvl).level.size as int),
        final(lvl).level == old(lvl).level,
        final(lvl).undo_stack@ == old(lvl).undo_stack@,
        final(lvl).redo_stack@ == old(lvl).redo_stack@,
{
    let n = lvl.size();
    let target = lvl.region(sr, sc);
    let ghost b1 = lvl.board();
    let ghost c0 = changes@;
    let ghost base = revert_changes(b1, c0);
    let ghost regions = lvl.level.regions@;
    for r in 0..n
        invariant
            n == lvl.level.size,
            regions == lvl.level.regions@,
            target == region_at(regions, sr as int, sc as int),
            lvl.level == old(lvl).level,
            lvl.undo_stack@ == old(lvl).undo_stack@,
            lvl.redo_stack@ == old(lvl).redo_stack@,
            square(lvl.board(), n as int),
            square(b1, n as int),
            changes@ == c0 + automark_rows(b1, regions, n as int, sr as int, sc as int, r as int),
            revert_changes(lvl.board(), changes@) == base,
            chain_ok(base, changes@),
            apply_changes(base, changes@) == lvl.board(),
            forall|x: int, y: int| r <= x < n && 0 <= y < n ==> #[trigger] lvl.board()[x][y] == b1[x][y],
    {
        for c in 0..n
            invariant
                n == lvl.level.size,
                r < n,
                regions == lvl.level.regions@,
                target == region_at(regions, sr as int, sc as int),
                lvl.level == old(lvl).level,
                lvl.undo_stack@ == old(lvl).undo_stack@,
                lvl.redo_stack@ == old(lvl).redo_stack@,
                square(lvl.board(), n as int),
                square(b1, n as int),
                changes@ == c0 + automark_rows(b1, regions, n as int, sr as int, sc as int, r as int)
                    + automark_row(b1, regions, sr as int, sc as int, r as int, c as int),
                revert_changes(lvl.board(), changes@) == base,
                chain_ok(base, changes@),
                apply_changes(base, changes@) == lvl.board(),
                forall|x: int, y: int| 0 <= x < n && 0 <= y < n && (x > r || (x == r && y >= c)) ==>
                    #[trigger] lvl.board()[x][y] == b1[x][y],
        {
            let ghost before = changes@;
            let ghost bb = lvl.board();
            if !(r == sr && c == sc) {
                let same_row = r == sr;
                let same_col = c == sc;
                let same_region = match target {
                    Some(t) => match lvl.region(r, c) {
                        Some(x) => x == t,
                        None => false,
                    },
                    None => false,
                };
                let near = (if r >= sr { r - sr <= 1 } else { sr - r <= 1 }) && (if c >= sc { c - sc <= 1 } else { sc - c <= 1 });
                proof {
                    assert(lvl.markings@[r as int]@ == bb[r as int]);
                    assert(bb[r as int][c as int] == b1[r as int][c as int]);
                }
                if (same_row || same_col || same_region || near) && lvl.markings[r][c] == Marking::NotMarked {
                    record_change(lvl, changes, r, c, Marking::MarkedEmpty);
                    proof {
                        lemma_set_shape(bb, r as int, c as int, Marking::MarkedEmpty);
                    }
                }
            }
            proof {
                let row_now = automark_row(b1, regions, sr as int, sc as int, r as int, c + 1);
                let row_before = automark_row(b1, regions, sr as int, sc as int, r as int, c as int);
                assert(automark_row(b1, regions, sr as int, sc as int, r as int, c + 1) == row_now);
                if changes@.len() > before.len() {
                    assert(row_now == row_before.push(changes@.last()));
                    assert(changes@ =~= c0 + automark_rows(b1, regions, n as int, sr as int, sc as int, r as int) + row_now);
                } else {
                    assert(changes@ =~= c0 + automark_rows(b1, regions, n as int, sr as int, sc as int, r as int) + row_now);
                }
                assert forall|x: int, y: int| 0 <= x < n && 0 <= y < n && (x > r || (x == r && y >= c + 1)) implies
                    #[trigger] lvl.board()[x][y] == b1[x][y] by {
                    assert(bb[x][y] == b1[x][y]);
                }
            }
        }
        proof {
            assert(changes@ =~= c0 + automark_rows(b1, regions, n as int, sr as int, sc as int, r + 1));
        }
    }
}

/// How a drag that started on a cell goes on: crossing out unmarked cells,
/// or erasing markings.
#[derive(Clone, Copy, PartialEq, Eq, Debug, Structural)]
pub enum DragMode {
    Cross,
    Erase,
}

/// A press on a cell of the level in slot `slot` that has not been released
/// yet: where it started, how it drags (`None` until it first moves off a
/// marked cell), the changes made so far and the cells visited.
pub struct ActiveInteraction {
    pub slot: usize,
    pub start_pos: (usize, usize),
    pub drag_mode: Option<DragMode>,
    pub changes: Vec<CellChange>,
    pub visited: Vec<(usize, usize)>,
}

/// Which cells the board highlights around the cell under the pointer.
#[derive(Clone, Copy, PartialEq, Eq, Debug, Structural)]
pub enum HighlightMode {
    Off,
    Section,
    Row,
    Column,
}

/// The state of play: a level (or none yet) per slot, the interaction in
/// progress, whether placing a tree crosses out the cells it shadows,
/// whether presses and drags are held off (while the highlight chooser is
/// held open), and the highlight modes: the chosen one, the one in force
/// when the chooser opened, and the one hovered in the chooser.
pub struct PlaySession {
    pub levels: Vec<Option<UserLevel>>,
    pub active: Option<ActiveInteraction>,
    pub automark: bool,
    pub eye_holding: bool,
    pub highlight_mode: HighlightMode,
    pub eye_initial_mode: HighlightMode,
    pub eye_hovered_option: Option<HighlightMode>,
}

/// `post` holds what `pre` holds.
pub open spec fn same_session(pre: PlaySession, post: PlaySession) -> bool {
    &&& post.levels@ == pre.levels@
    &&& post.active == pre.active
    &&& post.automark == pre.automark
    &&& post.eye_holding == pre.eye_holding
    &&& same_view(pre, post)
}

/// `post` has the highlight modes of `pre`.
pub open spec fn same_view(pre: PlaySession, post: PlaySession) -> bool {
    &&& post.highlight_mode == pre.highlight_mode
    &&& post.eye_initial_mode == pre.eye_initial_mode
    &&& post.eye_hovered_option == pre.eye_hovered_option
}

/// What a release turns the marking of the pressed cell into.
pub open spec fn toggled(m: Marking) -> Marking {
    match m {
        Marking::MarkedEmpty => Marking::MarkedTree,
        Marking::MarkedTree => Marking::NotMarked,
        Marking::NotMarked => Marking::NotMarked,
    }
}

/// The changes a release adds on board `b` of side `n`: when the press never
/// dragged, the pressed cell turns from crossed to tree or from tree to
/// unmarked, and a new tree crosses out what it shadows when `automark` is on.
pub open spec fn finish_extra(
    b: Seq<Seq<Marking>>,
    drag: Option<DragMode>,
    start: (usize, usize),
    automark: bool,
    regions: Seq<Vec<usize>>,
    n: int,
) -> Seq<CellChange> {
    let sr = start.0 as int;
    let sc = start.1 as int;
    let cur = b[sr][sc];
    let new = toggled(cur);
    if drag is None && new != cur {
        let ch = CellChange { row: start.0, col: start.1, from: cur, to: new };
        if new == Marking::MarkedTree && automark {
            seq![ch] + automark_rows(set_mark(b, sr, sc, new), regions, n, sr, sc, n)
        } else {
            seq![ch]
        }
    } else {
        Seq::empty()
    }
}

/// The drag mode after a drag onto a new cell.
pub open spec fn next_drag_mode(drag: Option<DragMode>) -> Option<DragMode> {
    match drag {
        None => Some(DragMode::Erase),
        Some(m) => Some(m),
    }
}

/// The changes a drag onto cell `(row, col)` makes on board `b`: crossing
/// it out if unmarked (a crossing drag); erasing it (an erasing drag); or,
/// on the first move of a press that began on a marked cell, erasing the
/// start cell and then this one.
pub open spec fn drag_extra(b: Seq<Seq<Marking>>, drag: Option<DragMode>, start: (usize, usize), row: int, col: int) -> Seq<CellChange> {
    match drag {
        Some(DragMode::Cross) => if b[row][col] == Marking::NotMarked {
            seq![CellChange { row: row as usize, col: col as usize, from: Marking::NotMarked, to: Marking::MarkedEmpty }]
        } else {
            Seq::empty()
        },
        Some(DragMode::Erase) => if b[row][col] != Marking::NotMarked {
            seq![CellChange { row: row as usize, col: col as usize, from: b[row][col], to: Marking::NotMarked }]
        } else {
            Seq::empty()
        },
        None => {
            let sm = b[start.0 as int][start.1 as int];
            let first = if sm != Marking::NotMarked {
                seq![CellChange { row: start.0, col: start.1, from: sm, to: Marking::NotMarked }]
            } else {
                Seq::empty()
            };
            let cm = apply_changes(b, first)[row][col];
            first + if cm != Marking::NotMarked {
                seq![CellChange { row: row as usize, col: col as usize, from: cm, to: Marking::NotMarked }]
            } else {
                Seq::empty()
            }
        },
    }
}

/// `l2` is level `l` after the release of interaction `a`: the release's
/// changes are made, and the interaction's changes, if any, become the new
/// top of the undo stack while the redo stack empties.
pub open spec fn finished_level(l: UserLevel, a: ActiveInteraction, automark: bool, l2: UserLevel) -> bool {
    let extra = finish_extra(l.board(), a.drag_mode, a.start_pos, automark, l.level.regions@, l.level.size as int);
    let action = a.changes@ + extra;
    &&& l2.level == l.level
    &&& chain_ok(l.board(), extra)
    &&& l2.board() == apply_changes(l.board(), extra)
    &&& if action.len() > 0 {
        &&& l2.history() == l.history().push(action)
        &&& l2.future() == Seq::<Seq<CellChange>>::empty()
    } else {
        &&& l2.history() == l.history()
        &&& l2.future() == l.future()
    }
}

/// `post` is `pre` after the interaction in progress, if any, is released.
pub open spec fn ended(pre: PlaySession, post: PlaySession) -> bool {
    &&& post.active is None
    &&& post.automark == pre.automark
    &&& post.eye_holding == pre.eye_holding
    &&& same_view(pre, post)
    &&& post.levels@.len() == pre.levels@.len()
    &&& forall|s: int| 0 <= s < pre.levels@.len() && !(pre.active is Some && pre.active->0.slot == s) ==>
        #[trigger] post.levels@[s] == pre.levels@[s]
    &&& (pre.active is Some && pre.active->0.slot < pre.levels@.len()) ==> {
        let a = pre.active->0;
        match pre.levels@[a.slot as int] {
            Some(l) => post.levels@[a.slot as int] is Some && finished_level(l, a, pre.automark, post.levels@[a.slot as int]->0),
            None => post.levels@[a.slot as int] is None,
        }
    }
}

/// `post` is `pre`, with no interaction in progress, after a press on cell
/// `(row, col)` of slot `slot`: an unmarked cell is crossed out and starts a
/// crossing drag; a marked one waits for a drag or a release. No level in
/// the slot: nothing happens.
pub open spec fn pressed(pre: PlaySession, slot: int, row: int, col: int, post: PlaySession) -> bool {
    if 0 <= slot < pre.levels@.len() && pre.levels@[slot] is Some {
        let l = pre.levels@[slot]->0;
        let unmarked = l.board()[row][col] == Marking::NotMarked;
        let ch = CellChange { row: row as usize, col: col as usize, from: Marking::NotMarked, to: Marking::MarkedEmpty };
        &&& post.automark == pre.automark
        &&& post.eye_holding == pre.eye_holding
        &&& same_view(pre, post)
        &&& post.levels@.len() == pre.levels@.len()
        &&& forall|s: int| 0 <= s < pre.levels@.len() && s != slot ==> #[trigger] post.levels@[s] == pre.levels@[s]
        &&& post.levels@[slot] is Some
        &&& post.levels@[slot]->0.level == l.level
        &&& post.levels@[slot]->0.history() == l.history()
        &&& post.levels@[slot]->0.future() == l.future()
        &&& post.levels@[slot]->0.board() == if unmarked { set_mark(l.board(), row, col, Marking::MarkedEmpty) } else { l.board() }
        &&& post.active is Some
        &&& post.active->0.slot == slot
        &&& post.active->0.start_pos == (row as usize, col as usize)
        &&& post.active->0.drag_mode == if unmarked { Some(DragMode::Cross) } else { None }
        &&& post.active->0.changes@ == if unmarked { seq![ch] } else { Seq::empty() }
        &&& post.active->0.visited@ == seq![(row as usize, col as usize)]
    } else {
        same_session(pre, post)
    }
}

/// `post` is `pre`, with no interaction in progress, after an undo
/// (`forward` false) or a redo (`forward` true) on slot `slot`.
pub open spec fn stepped(pre: PlaySession, slot: int, forward: bool, post: PlaySession) -> bool {
    if 0 <= slot < pre.levels@.len() && pre.levels@[slot] is Some {
        let l = pre.levels@[slot]->0;
        let effect = if forward {
            redo_effect(l.board(), l.history(), l.future())
        } else {
            undo_effect(l.board(), l.history(), l.future())
        };
        &&& post.active == pre.active
        &&& post.automark == pre.automark
        &&& post.eye_holding == pre.eye_holding
        &&& same_view(pre, post)
        &&& post.levels@.len() == pre.levels@.len()
        &&& forall|s: int| 0 <= s < pre.levels@.len() && s != slot ==> #[trigger] post.levels@[s] == pre.levels@[s]
        &&& post.levels@[slot] is Some
        &&& post.levels@[slot]->0.level == l.level
        &&& (post.levels@[slot]->0.board(), post.levels@[slot]->0.history(), post.levels@[slot]->0.future()) == effect
    } else {
        same_session(pre, post)
    }
}

/// `post` is `pre` after a drag onto cell `(row, col)` of slot `slot`. It
/// only counts while presses are not held off, for the interaction in
/// progress on that slot and a cell it has not visited yet: the cell is then
/// visited, and with a level in the slot the drag makes `drag_extra`.
pub open spec fn dragged(pre: PlaySession, slot: int, row: int, col: int, post: PlaySession) -> bool {
    if pre.eye_holding || pre.active is None || pre.active->0.slot != slot
        || pre.active->0.visited@.contains((row as usize, col as usize)) {
        same_session(pre, post)
    } else {
        let a = pre.active->0;
        &&& post.automark == pre.automark
        &&& post.eye_holding == pre.eye_holding
        &&& same_view(pre, post)
        &&& post.levels@.len() == pre.levels@.len()
        &&& forall|s: int| 0 <= s < pre.levels@.len() && s != slot ==> #[trigger] post.levels@[s] == pre.levels@[s]
        &&& post.active is Some
        &&& post.active->0.slot == a.slot
        &&& post.active->0.start_pos == a.start_pos
        &&& post.active->0.visited@ == a.visited@.push((row as usize, col as usize))
        &&& if 0 <= slot < pre.levels@.len() && pre.levels@[slot] is Some {
            let l = pre.levels@[slot]->0;
            let extra = drag_extra(l.board(), a.drag_mode, a.start_pos, row, col);
            &&& post.active->0.drag_mode == next_drag_mode(a.drag_mode)
            &&& post.active->0.changes@ == a.changes@ + extra
            &&& post.levels@[slot] is Some
            &&& post.levels@[slot]->0.level == l.level
            &&& post.levels@[slot]->0.board() == apply_changes(l.board(), extra)
            &&& post.levels@[slot]->0.history() == l.history()
            &&& post.levels@[slot]->0.future() == l.future()
        } else {
            &&& post.active->0.drag_mode == a.drag_mode
            &&& post.active->0.changes@ == a.changes@
            &&& post.levels@ == pre.levels@
        }
    }
}

/// A single change applies as one marking, and is a chain when it starts
/// from the marking its cell has.
proof fn lemma_apply_one(b: Seq<Seq<Marking>>, ch: CellChange)
    ensures
        apply_changes(b, seq![ch]) == set_mark(b, ch.row as int, ch.col as int, ch.to),
        chain_ok(b, seq![ch]) == (in_board(b, ch.row as int, ch.col as int) && b[ch.row as int][ch.col as int] == ch.from),
{
    let cs = seq![ch];
    assert(cs.drop_last() =~= Seq::<CellChange>::empty());
    assert(cs.last() == ch);
    assert(apply_changes(b, Seq::<CellChange>::empty()) == b);
    assert(chain_ok(b, Seq::<CellChange>::empty()));
}

impl PlaySession {
    /// The changes of the interaction in progress on slot `slot`, if any.
    pub open spec fn pending(&self, slot: int) -> Seq<CellChange> {
        match self.active {
            Some(a) => if a.slot == slot { a.changes@ } else { Seq::empty() },
            None => Seq::empty(),
        }
    }

    /// The level in slot `slot`, if any, is consistent with its stacks and
    /// with the interaction in progress on it.
    pub open spec fn slot_ok(&self, slot: int) -> bool {
        match self.levels@[slot] {
            Some(l) => {
                &&& level_ok(l.board(), l.level.size as int, self.pending(slot), l.history(), l.future())
                &&& (self.active is Some && self.active->0.slot == slot) ==>
                    self.active->0.start_pos.0 < l.level.size && self.active->0.start_pos.1 < l.level.size
            },
            None => true,
        }
    }

    /// Every slot is consistent.
    pub open spec fn wf(&self) -> bool {
        forall|s: int| 0 <= s < self.levels@.len() ==> #[trigger] self.slot_ok(s)
    }

    /// A session with `slots` empty slots, no interaction, automatic
    /// crossing off, nothing held, and regions highlighted.
    pub fn new(slots: usize) -> (session: Self)
        ensures
            session.wf(),
            session.levels@.len() == slots,
            forall|s: int| 0 <= s < slots ==> #[trigger] session.levels@[s] is None,
            session.active is None,
            !session.automark,
            !session.eye_holding,
            session.highlight_mode == HighlightMode::Section,
            session.eye_initial_mode == HighlightMode::Section,
            session.eye_hovered_option is None,
    {
        let mut levels: Vec<Option<UserLevel>> = Vec::new();
        for i in 0..slots
            invariant
                levels@.len() == i,
                forall|s: int| 0 <= s < i ==> #[trigger] levels@[s] is None,
        {
            levels.push(None);
        }
        let session = PlaySession {
            levels,
            active: None,
            automark: false,
            eye_holding: false,
            highlight_mode: HighlightMode::Section,
            eye_initial_mode: HighlightMode::Section,
            eye_hovered_option: None,
        };
        proof {
            assert forall|s: int| 0 <= s < session.levels@.len() implies #[trigger] session.slot_ok(s) by {}
        }
        session
    }

    /// The highlight in force: while the chooser is held, the hovered option,
    /// or the mode it opened with when none is hovered; otherwise the chosen mode.
    pub fn get_active_highlight_mode(&self) -> (mode: HighlightMode)
        ensures
            mode == if self.eye_holding {
                match self.eye_hovered_option {
                    Some(h) => h,
                    None => self.eye_initial_mode,
                }
            } else {
                self.highlight_mode
            },
    {
        if self.eye_holding {
            match self.eye_hovered_option {
                Some(h) => h,
                None => self.eye_initial_mode,
            }
        } else {
            self.highlight_mode
        }
    }

    /// Opens the highlight chooser: presses and drags are held off, and the
    /// chosen mode is remembered so that cancelling restores it.
    pub fn open_highlight_chooser(&mut self)
        requires
            old(self).wf(),
        ensures
            final(self).wf(),
            final(self).eye_holding,
            final(self).eye_initial_mode == old(self).highlight_mode,
            final(self).eye_hovered_option is None,
            final(self).highlight_mode == old(self).highlight_mode,
            final(self).levels@ == old(self).levels@,
            final(self).active == old(self).active,
            final(self).automark == old(self).automark,
    {
        self.eye_holding = true;
        self.eye_initial_mode = self.highlight_mode;
        self.eye_hovered_option = None;
        proof {
            assert forall|s: int| 0 <= s < self.levels@.len() implies #[trigger] self.slot_ok(s) by {
                assert(old(self).slot_ok(s));
            }
        }
    }

    /// Closes the highlight chooser without a choice (leaving the board, or
    /// the Escape key): the mode it opened with is restored.
    pub fn cancel_highlight_chooser(&mut self)
        requires
            old(self).wf(),
        ensures
            final(self).wf(),
            !final(self).eye_holding,
            final(self).eye_hovered_option == if old(self).eye_holding { None } else { old(self).eye_hovered_option },
            final(self).highlight_mode == if old(self).eye_holding { old(self).eye_initial_mode } else { old(self).highlight_mode },
            final(self).eye_initial_mode == old(self).eye_initial_mode,
            final(self).levels@ == old(self).levels@,
            final(self).active == old(self).active,
            final(self).automark == old(self).automark,
    {
        if self.eye_holding {
            self.highlight_mode = self.eye_initial_mode;
            self.eye_holding = false;
            self.eye_hovered_option = None;
        }
        proof {
            assert forall|s: int| 0 <= s < self.levels@.len() implies #[trigger] self.slot_ok(s) by {
                assert(old(self).slot_ok(s));
            }
        }
    }

    /// While the highlight chooser is open: the pointer hovers `hovered`;
    /// when the mouse button is up (`released`), the hovered option, or the
    /// mode the chooser opened with, becomes the chosen mode and the chooser
    /// closes. Nothing happens while it is closed.
    pub fn hover_highlight_chooser(&mut self, hovered: Option<HighlightMode>, released: bool)
        requires
            old(self).wf(),
        ensures
            final(self).wf(),
            !old(self).eye_holding ==> same_session(*old(self), *final(self)),
            old(self).eye_holding && !released ==> {
                &&& final(self).eye_holding
                &&& final(self).eye_hovered_option == hovered
                &&& final(self).highlight_mode == old(self).highlight_mode
            },
            old(self).eye_holding && released ==> {
                &&& !final(self).eye_holding
                &&& final(self).eye_hovered_option is None
                &&& final(self).highlight_mode == match hovered {
                    Some(h) => h,
                    None => old(self).eye_initial_mode,
                }
            },
            final(self).eye_initial_mode == old(self).eye_initial_mode,
            final(self).levels@ == old(self).levels@,
            final(self).active == old(self).active,
            final(self).automark == old(self).automark,
    {
        if self.eye_holding {
            self.eye_hovered_option = hovered;
            if released {
                self.highlight_mode = match hovered {
                    Some(h) => h,
                    None => self.eye_initial_mode,
                };
                self.eye_holding = false;
                self.eye_hovered_option = None;
            }
        }
        proof {
            assert forall|s: int| 0 <= s < self.levels@.len() implies #[trigger] self.slot_ok(s) by {
                assert(old(self).slot_ok(s));
            }
        }
    }

    /// Puts `level` in slot `slot`, where no interaction is in progress.
    pub fn install_level(&mut self, slot: usize, level: UserLevel)
        requires
            old(self).wf(),
            slot < old(self).levels@.len(),
            !(old(self).active is Some && old(self).active->0.slot == slot),
            level_ok(level.board(), level.level.size as int, Seq::empty(), level.history(), level.future()),
        ensures
            final(self).wf(),
            final(self).active == old(self).active,
            final(self).automark == old(self).automark,
            final(self).eye_holding == old(self).eye_holding,
            same_view(*old(self), *final(self)),
            final(self).levels@ == old(self).levels@.update(slot as int, Some(level)),
    {
        self.levels[slot] = Some(level);
        proof {
            assert forall|s: int| 0 <= s < self.levels@.len() implies #[trigger] self.slot_ok(s) by {
                assert(old(self).slot_ok(s));
            }
        }
    }
    /// Releases the interaction in progress, if any (see `ended`).
    pub fn end_interaction(&mut self)
        requires
            old(self).wf(),
        ensures
            final(self).wf(),
            ended(*old(self), *final(self)),
    {
        let mut taken: Option<ActiveInteraction> = None;
        std::mem::swap(&mut taken, &mut self.active);
        match taken {
            None => {
                proof {
                    assert forall|s: int| 0 <= s < self.levels@.len() implies #[trigger] self.slot_ok(s) by {
                        assert(old(self).slot_ok(s));
                    }
                }
            },
            Some(mut a) => {
                let slot = a.slot;
                if slot < self.levels.len() {
                    let mut lvl_opt: Option<UserLevel> = None;
                    std::mem::swap(&mut lvl_opt, &mut self.levels[slot]);
                    match lvl_opt {
                        None => {
                            proof {
                                assert forall|s: int| 0 <= s < self.levels@.len() implies #[trigger] self.slot_ok(s) by {
                                    assert(old(self).slot_ok(s));
                                }
                                assert(self.levels@ =~= old(self).levels@);
                            }
                        },
                        Some(mut lvl) => {
                            let ghost l0 = lvl;
                            let ghost p0 = a.changes@;
                            let ghost n = lvl.level.size as int;
                            let ghost base = revert_changes(l0.board(), p0);
                            proof {
                                assert(old(self).slot_ok(slot as int));
                                assert(old(self).pending(slot as int) == p0);
                            }
                            if a.drag_mode.is_none() {
                                let (sr, sc) = a.start_pos;
                                proof {
                                    assert(lvl.markings@[sr as int]@ == l0.board()[sr as int]);
                                }
                                let current = lvl.markings[sr][sc];
                                let new_marking = match current {
                                    Marking::MarkedEmpty => Marking::MarkedTree,
                                    Marking::MarkedTree => Marking::NotMarked,
                                    Marking::NotMarked => Marking::NotMarked,
                                };
                                if new_marking != current {
                                    record_change(&mut lvl, &mut a.changes, sr, sc, new_marking);
                                    let ghost l1 = lvl;
                                    let ghost p1 = a.changes@;
                                    proof {
                                        assert(square(lvl.board(), n));
                                    }
                                    if new_marking == Marking::MarkedTree && self.automark {
                                        automark_around(&mut lvl, &mut a.changes, sr, sc);
                                        proof {
                                            assert(a.changes@ =~= p0 + finish_extra(l0.board(), a.drag_mode, a.start_pos, self.automark, l0.level.regions@, n));
                                        }
                                    } else {
                                        proof {
                                            assert(a.changes@ =~= p0 + finish_extra(l0.board(), a.drag_mode, a.start_pos, self.automark, l0.level.regions@, n));
                                        }
                                    }
                                } else {
                                    proof {
                                        assert(a.changes@ =~= p0 + finish_extra(l0.board(), a.drag_mode, a.start_pos, self.automark, l0.level.regions@, n));
                                    }
                                }
                            } else {
                                proof {
                                    assert(a.changes@ =~= p0 + finish_extra(l0.board(), a.drag_mode, a.start_pos, self.automark, l0.level.regions@, n));
                                }
                            }
                            let ghost extra = finish_extra(l0.board(), a.drag_mode, a.start_pos, self.automark, l0.level.regions@, n);
                            let ghost action = a.changes@;
                            let ghost b1 = lvl.board();
                            proof {
                                lemma_concat(base, p0, extra);
                                assert(revert_changes(b1, action) == base);
                                assert(square(b1, n));
                            }
                            if a.changes.len() > 0 {
                                let ghost h0 = lvl.history();
                                lvl.undo_stack.push(BoardAction { changes: a.changes });
                                lvl.redo_stack = Vec::new();
                                proof {
                                    assert(lvl.history() =~= h0.push(action));
                                    assert(lvl.history().drop_last() =~= h0);
                                    assert(lvl.history().last() == action);
                                    assert(h0 == l0.history());
                                    assert(history_ok(base, h0));
                                    assert(chain_ok(base, action));
                                    assert(apply_changes(base, action) == b1);
                                    assert(lvl.future() =~= Seq::<Seq<CellChange>>::empty());
                                    assert(history_ok(b1, lvl.history()));
                                }
                            } else {
                                proof {
                                    assert(p0 =~= Seq::<CellChange>::empty());
                                    assert(extra =~= Seq::<CellChange>::empty());
                                }
                            }
                            proof {
                                assert(revert_changes(b1, Seq::<CellChange>::empty()) == b1);
                                assert(apply_changes(b1, Seq::<CellChange>::empty()) == b1);
                            }
                            self.levels[slot] = Some(lvl);
                            proof {
                                assert forall|s: int| 0 <= s < self.levels@.len() implies #[trigger] self.slot_ok(s) by {
                                    if s != slot {
                                        assert(old(self).slot_ok(s));
                                        assert(self.levels@[s] == old(self).levels@[s]);
                                    }
                                }
                            }
                        },
                    }
                } else {
                    proof {
                        assert forall|s: int| 0 <= s < self.levels@.len() implies #[trigger] self.slot_ok(s) by {
                            assert(old(self).slot_ok(s));
                        }
                    }
                }
            },
        }
    }

    /// A press on cell `(row, col)` of slot `slot`: held off while
    /// `eye_holding`; otherwise the interaction in progress is released
    /// first, then the press starts a new one (see `pressed`).
    pub fn cell_press(&mut self, slot: usize, row: usize, col: usize)
        requires
            old(self).wf(),
            slot < old(self).levels@.len() && old(self).levels@[slot as int] is Some ==>
                row < old(self).levels@[slot as int]->0.level.size && col < old(self).levels@[slot as int]->0.level.size,
        ensures
            final(self).wf(),
            old(self).eye_holding ==> *final(self) == *old(self),
            !old(self).eye_holding ==> exists|mid: PlaySession|
                ended(*old(self), mid) && #[trigger] pressed(mid, slot as int, row as int, col as int, *final(self)),
    {
        if self.eye_holding {
            return;
        }
        self.end_interaction();
        let ghost mid = *self;
        if slot < self.levels.len() {
            let mut lvl_opt: Option<UserLevel> = None;
            std::mem::swap(&mut lvl_opt, &mut self.levels[slot]);
            match lvl_opt {
                Some(mut lvl) => {
                    let ghost l0 = lvl;
                    proof {
                        assert(mid.slot_ok(slot as int));
                        assert(mid.pending(slot as int) =~= Seq::<CellChange>::empty());
                        assert(lvl.markings@[row as int]@ == l0.board()[row as int]);
                    }
                    let mut changes: Vec<CellChange> = Vec::new();
                    let unmarked = lvl.markings[row][col] == Marking::NotMarked;
                    let drag_mode = if unmarked {
                        record_change(&mut lvl, &mut changes, row, col, Marking::MarkedEmpty);
                        proof {
                            assert(changes@ =~= seq![CellChange { row, col, from: Marking::NotMarked, to: Marking::MarkedEmpty }]);
                        }
                        Some(DragMode::Cross)
                    } else {
                        proof {
                            assert(changes@ =~= Seq::<CellChange>::empty());
                            assert(revert_changes(lvl.board(), changes@) == lvl.board());
                            assert(apply_changes(lvl.board(), changes@) == lvl.board());
                        }
                        None
                    };
                    let ghost l1 = lvl;
                    let ghost c1 = changes@;
                    self.levels[slot] = Some(lvl);
                    let mut visited: Vec<(usize, usize)> = Vec::new();
                    visited.push((row, col));
                    self.active = Some(ActiveInteraction { slot, start_pos: (row, col), drag_mode, changes, visited });
                    proof {
                        assert(visited@ =~= seq![(row, col)]);
                        assert(self.levels@[slot as int] == Some(l1));
                        assert(self.active->0.changes@ == c1);
                        assert(self.pending(slot as int) == c1);
                        assert(l1.history() == l0.history());
                        assert(l1.future() == l0.future());
                        assert forall|s: int| 0 <= s < self.levels@.len() implies #[trigger] self.slot_ok(s) by {
                            if s != slot {
                                assert(mid.slot_ok(s));
                                assert(self.levels@[s] == mid.levels@[s]);
                            }
                        }
                        assert(mid.levels@[slot as int] == Some(l0));
                        assert(pressed(mid, slot as int, row as int, col as int, *self));
                    }
                },
                None => {
                    proof {
                        assert(self.levels@ =~= mid.levels@);
                        assert(pressed(mid, slot as int, row as int, col as int, *self));
                        assert forall|s: int| 0 <= s < self.levels@.len() implies #[trigger] self.slot_ok(s) by {
                            assert(mid.slot_ok(s));
                        }
                    }
                },
            }
        } else {
            proof {
                assert(pressed(mid, slot as int, row as int, col as int, *self));
            }
        }
    }

    /// A drag onto cell `(row, col)` of slot `slot` (see `dragged`).
    pub fn cell_drag(&mut self, slot: usize, row: usize, col: usize)
        requires
            old(self).wf(),
            slot < old(self).levels@.len() && old(self).levels@[slot as int] is Some ==>
                row < old(self).levels@[slot as int]->0.level.size && col < old(self).levels@[slot as int]->0.level.size,
        ensures
            final(self).wf(),
            dragged(*old(self), slot as int, row as int, col as int, *final(self)),
    {
        if self.eye_holding {
            return;
        }
        let mut taken: Option<ActiveInteraction> = None;
        std::mem::swap(&mut taken, &mut self.active);
        match taken {
            None => {},
            Some(mut a) => {
                if a.slot != slot || has_cell(&a.visited, row, col) {
                    self.active = Some(a);
                    return;
                }
                a.visited.push((row, col));
                if slot >= self.levels.len() {
                    self.active = Some(a);
                    proof {
                        assert forall|s: int| 0 <= s < self.levels@.len() implies #[trigger] self.slot_ok(s) by {
                            assert(old(self).slot_ok(s));
                        }
                    }
                    return;
                }
                let mut lvl_opt: Option<UserLevel> = None;
                std::mem::swap(&mut lvl_opt, &mut self.levels[slot]);
                match lvl_opt {
                    None => {
                        self.active = Some(a);
                        proof {
                            assert(self.levels@ =~= old(self).levels@);
                            assert forall|s: int| 0 <= s < self.levels@.len() implies #[trigger] self.slot_ok(s) by {
                                assert(old(self).slot_ok(s));
                            }
                        }
                    },
                    Some(mut lvl) => {
                        let ghost l0 = lvl;
                        let ghost p0 = a.changes@;
                        let ghost n = lvl.level.size as int;
                        let ghost base = revert_changes(l0.board(), p0);
                        proof {
                            assert(old(self).slot_ok(slot as int));
                            assert(old(self).pending(slot as int) == p0);
                            assert(lvl.markings@[row as int]@ == l0.board()[row as int]);
                        }
                        match a.drag_mode {
                            Some(DragMode::Cross) => {
                                if lvl.markings[row][col] == Marking::NotMarked {
                                    record_change(&mut lvl, &mut a.changes, row, col, Marking::MarkedEmpty);
                                    proof {
                                        lemma_apply_one(l0.board(), a.changes@.last());
                                    }
                                }
                            },
                            Some(DragMode::Erase) => {
                                if lvl.markings[row][col] != Marking::NotMarked {
                                    record_change(&mut lvl, &mut a.changes, row, col, Marking::NotMarked);
                                    proof {
                                        lemma_apply_one(l0.board(), a.changes@.last());
                                    }
                                }
                            },
                            None => {
                                a.drag_mode = Some(DragMode::Erase);
                                let (sr, sc) = a.start_pos;
                                proof {
                                    assert(lvl.markings@[sr as int]@ == l0.board()[sr as int]);
                                }
                                if lvl.markings[sr][sc] != Marking::NotMarked {
                                    record_change(&mut lvl, &mut a.changes, sr, sc, Marking::NotMarked);
                                    proof {
                                        lemma_apply_one(l0.board(), a.changes@.last());
                                        assert(a.changes@.subrange(p0.len() as int, a.changes@.len() as int) =~= seq![a.changes@.last()]);
                                    }
                                } else {
                                    proof {
                                        assert(a.changes@.subrange(p0.len() as int, a.changes@.len() as int) =~= Seq::<CellChange>::empty());
                                        assert(apply_changes(l0.board(), Seq::<CellChange>::empty()) == l0.board());
                                    }
                                }
                                let ghost p1 = a.changes@;
                                let ghost b1 = lvl.board();
                                proof {
                                    assert(square(b1, n));
                                    assert(lvl.markings@[row as int]@ == b1[row as int]);
                                }
                                if lvl.markings[row][col] != Marking::NotMarked {
                                    record_change(&mut lvl, &mut a.changes, row, col, Marking::NotMarked);
                                    proof {
                                        lemma_apply_one(b1, a.changes@.last());
                                        assert(a.changes@.subrange(p1.len() as int, a.changes@.len() as int) =~= seq![a.changes@.last()]);
                                    }
                                } else {
                                    proof {
                                        assert(a.changes@.subrange(p1.len() as int, a.changes@.len() as int) =~= Seq::<CellChange>::empty());
                                        assert(apply_changes(b1, Seq::<CellChange>::empty()) == b1);
                                    }
                                }
                                proof {
                                    let first = p1.subrange(p0.len() as int, p1.len() as int);
                                    assert(p1 =~= p0 + first);
                                    assert(apply_changes(l0.board(), first) == b1);
                                    let second = a.changes@.subrange(p1.len() as int, a.changes@.len() as int);
                                    assert(a.changes@ =~= p1 + second);
                                    assert(apply_changes(b1, second) == lvl.board());
                                    lemma_concat(l0.board(), first, second);
                                    assert(first + second =~= drag_extra(l0.board(), None, a.start_pos, row as int, col as int));
                                }
                            },
                        }
                        let ghost extra = drag_extra(l0.board(), old(self).active->0.drag_mode, a.start_pos, row as int, col as int);
                        proof {
                            assert(a.changes@ =~= p0 + extra);
                            assert(lvl.board() == apply_changes(l0.board(), extra));
                            assert(square(lvl.board(), n));
                        }
                        self.levels[slot] = Some(lvl);
                        self.active = Some(a);
                        proof {
                            assert forall|s: int| 0 <= s < self.levels@.len() implies #[trigger] self.slot_ok(s) by {
                                if s != slot {
                                    assert(old(self).slot_ok(s));
                                    assert(self.levels@[s] == old(self).levels@[s]);
                                }
                            }
                        }
                    },
                }
            },
        }
    }

    /// Undoes the last action of slot `slot`, after releasing the
    /// interaction in progress (see `stepped`).
    pub fn undo(&mut self, slot: usize)
        requires
            old(self).wf(),
        ensures
            final(self).wf(),
            exists|mid: PlaySession| ended(*old(self), mid) && #[trigger] stepped(mid, slot as int, false, *final(self)),
    {
        self.end_interaction();
        let ghost mid = *self;
        self.step(slot, false);
    }

    /// Redoes the last undone action of slot `slot`, after releasing the
    /// interaction in progress (see `stepped`).
    pub fn redo(&mut self, slot: usize)
        requires
            old(self).wf(),
        ensures
            final(self).wf(),
            exists|mid: PlaySession| ended(*old(self), mid) && #[trigger] stepped(mid, slot as int, true, *final(self)),
    {
        self.end_interaction();
        let ghost mid = *self;
        self.step(slot, true);
    }

    /// Moves the top action of slot `slot` from the undo stack to the redo
    /// stack, taking it back (`forward` false), or the other way, making it
    /// again (`forward` true).
    fn step(&mut self, slot: usize, forward: bool)
        requires
            old(self).wf(),
            old(self).active is None,
        ensures
            final(self).wf(),
            stepped(*old(self), slot as int, forward, *final(self)),
    {
        if slot >= self.levels.len() {
            return;
        }
        let mut lvl_opt: Option<UserLevel> = None;
        std::mem::swap(&mut lvl_opt, &mut self.levels[slot]);
        match lvl_opt {
            None => {
                proof {
                    assert(self.levels@ =~= old(self).levels@);
                    assert forall|s: int| 0 <= s < self.levels@.len() implies #[trigger] self.slot_ok(s) by {
                        assert(old(self).slot_ok(s));
                    }
                }
            },
            Some(mut lvl) => {
                let ghost l0 = lvl;
                let ghost n = lvl.level.size as int;
                proof {
                    assert(old(self).slot_ok(slot as int));
                    assert(old(self).pending(slot as int) =~= Seq::<CellChange>::empty());
                    assert(revert_changes(l0.board(), Seq::<CellChange>::empty()) == l0.board());
                }
                if forward {
                    match lvl.redo_stack.pop() {
                        Some(action) => {
                            proof {
                                assert(l0.future().last() == action.changes@);
                                assert(lvl.future() =~= l0.future().drop_last());
                            }
                            lvl.replay(&action.changes);
                            let ghost h0 = lvl.history();
                            lvl.undo_stack.push(action);
                            proof {
                                assert(lvl.history() =~= h0.push(l0.future().last()));
                                assert(lvl.history().drop_last() =~= h0);
                                assert(lvl.history().last() == l0.future().last());
                                assert(h0 == l0.history());
                                lemma_revert_apply(l0.board(), l0.future().last());
                                lemma_chain_prefix(l0.board(), l0.future().last(), l0.future().last().len() as int);
                                assert(l0.future().last().take(l0.future().last().len() as int) =~= l0.future().last());
                                assert(revert_changes(lvl.board(), Seq::<CellChange>::empty()) == lvl.board());
                                assert(apply_changes(lvl.board(), Seq::<CellChange>::empty()) == lvl.board());
                                assert(square(lvl.board(), n));
                                assert(history_ok(lvl.board(), lvl.history()));
                                assert(future_ok(lvl.board(), lvl.future()));
                            }
                        },
                        None => {
                            proof {
                                assert(lvl.future() =~= l0.future());
                            }
                        },
                    }
                } else {
                    match lvl.undo_stack.pop() {
                        Some(action) => {
                            proof {
                                assert(l0.history().last() == action.changes@);
                                assert(lvl.history() =~= l0.history().drop_last());
                            }
                            lvl.take_back(&action.changes);
                            let ghost f0 = lvl.future();
                            lvl.redo_stack.push(action);
                            proof {
                                let a = l0.history().last();
                                let prev = revert_changes(l0.board(), a);
                                assert(lvl.future() =~= f0.push(a));
                                assert(lvl.future().drop_last() =~= f0);
                                assert(lvl.future().last() == a);
                                assert(f0 == l0.future());
                                lemma_chain_prefix(prev, a, a.len() as int);
                                assert(a.take(a.len() as int) =~= a);
                                assert forall|r: int| 0 <= r < n implies (#[trigger] prev[r]).len() == n by {
                                    assert(apply_changes(prev, a.take(a.len() as int))[r].len() == prev[r].len());
                                }
                                assert(revert_changes(lvl.board(), Seq::<CellChange>::empty()) == lvl.board());
                                assert(apply_changes(lvl.board(), Seq::<CellChange>::empty()) == lvl.board());
                                assert(square(lvl.board(), n));
                                assert(history_ok(lvl.board(), lvl.history()));
                                assert(future_ok(lvl.board(), lvl.future()));
                            }
                        },
                        None => {
                            proof {
                                assert(lvl.history() =~= l0.history());
                            }
                        },
                    }
                }
                self.levels[slot] = Some(lvl);
                proof {
                    assert forall|s: int| 0 <= s < self.levels@.len() implies #[trigger] self.slot_ok(s) by {
                        if s != slot {
                            assert(old(self).slot_ok(s));
                            assert(self.levels@[s] == old(self).levels@[s]);
                        }
                    }
                }
            },
        }
    }
}

/// Taking back `xs` then `ys` is taking back `ys` first, then `xs`.
proof fn lemma_revert_concat(b: Seq<Seq<Marking>>, xs: Seq<CellChange>, ys: Seq<CellChange>)
    ensures
        revert_changes(b, xs + ys) == revert_changes(revert_changes(b, ys), xs),
    decreases ys.len(),
{
    if ys.len() == 0 {
        assert(xs + ys =~= xs);
    } else {
        let ch = ys.last();
        assert((xs + ys).drop_last() =~= xs + ys.drop_last());
        assert((xs + ys).last() == ch);
        lemma_revert_concat(set_mark(b, ch.row as int, ch.col as int, ch.from), xs, ys.drop_last());
    }
}

/// On a consistent level with no interaction in progress, a redo right after
/// an undo gives back the board and both stacks as they were.
pub proof fn lemma_redo_undoes_undo(b: Seq<Seq<Marking>>, n: int, hist: Seq<Seq<CellChange>>, fut: Seq<Seq<CellChange>>)
    requires
        level_ok(b, n, Seq::empty(), hist, fut),
        hist.len() > 0,
    ensures
        ({
            let u = undo_effect(b, hist, fut);
            redo_effect(u.0, u.1, u.2)
        }) == (b, hist, fut),
{
    assert(revert_changes(b, Seq::<CellChange>::empty()) == b);
    let a = hist.last();
    assert(hist.drop_last().push(a) =~= hist);
    assert(fut.push(a).drop_last() =~= fut);
}

/// On a consistent level with no interaction in progress, an undo right
/// after a redo gives back the board and both stacks as they were.
pub proof fn lemma_undo_undoes_redo(b: Seq<Seq<Marking>>, n: int, hist: Seq<Seq<CellChange>>, fut: Seq<Seq<CellChange>>)
    requires
        level_ok(b, n, Seq::empty(), hist, fut),
        fut.len() > 0,
    ensures
        ({
            let r = redo_effect(b, hist, fut);
            undo_effect(r.0, r.1, r.2)
        }) == (b, hist, fut),
{
    assert(revert_changes(b, Seq::<CellChange>::empty()) == b);
    let a = fut.last();
    lemma_revert_apply(b, a);
    assert(hist.push(a).drop_last() =~= hist);
    assert(fut.drop_last().push(a) =~= fut);
}

/// An undo right after a release that recorded an action gives back the
/// board as it was when the press began.
pub proof fn lemma_undo_after_release(l: UserLevel, a: ActiveInteraction, automark: bool, l2: UserLevel)
    requires
        level_ok(l.board(), l.level.size as int, a.changes@, l.history(), l.future()),
        finished_level(l, a, automark, l2),
        l2.history().len() > l.history().len(),
    ensures
        undo_effect(l2.board(), l2.history(), l2.future()).0 == revert_changes(l.board(), a.changes@),
{
    let extra = finish_extra(l.board(), a.drag_mode, a.start_pos, automark, l.level.regions@, l.level.size as int);
    lemma_revert_concat(l2.board(), a.changes@, extra);
    lemma_revert_apply(l.board(), extra);
}

/// Some change of `cs` is on cell `(r, c)`.
spec fn touches_cell(cs: Seq<CellChange>, r: int, c: int) -> bool {
    exists|k: int| 0 <= k < cs.len() && (#[trigger] cs[k]).row as int == r && cs[k].col as int == c
}

/// Crossings on cells of the `n x n` board `base` cross out exactly the
/// cells they are on.
proof fn lemma_apply_crossings(base: Seq<Seq<Marking>>, cs: Seq<CellChange>, n: int)
    requires
        square(base, n),
        forall|k: int| 0 <= k < cs.len() ==> (#[trigger] cs[k]).row < n && cs[k].col < n && cs[k].to == Marking::MarkedEmpty,
    ensures
        square(apply_changes(base, cs), n),
        forall|r: int, c: int| 0 <= r < n && 0 <= c < n ==> #[trigger] apply_changes(base, cs)[r][c]
            == if touches_cell(cs, r, c) { Marking::MarkedEmpty } else { base[r][c] },
    decreases cs.len(),
{
    if cs.len() > 0 {
        let d = cs.drop_last();
        assert forall|k: int| 0 <= k < d.len() implies (#[trigger] d[k]).row < n && d[k].col < n && d[k].to == Marking::MarkedEmpty by {
            assert(d[k] == cs[k]);
        }
        lemma_apply_crossings(base, d, n);
        let prev = apply_changes(base, d);
        let ch = cs.last();
        assert(cs[cs.len() - 1] == ch);
        lemma_set_shape(prev, ch.row as int, ch.col as int, Marking::MarkedEmpty);
        assert forall|r: int, c: int| 0 <= r < n && 0 <= c < n implies #[trigger] apply_changes(base, cs)[r][c]
            == if touches_cell(cs, r, c) { Marking::MarkedEmpty } else { base[r][c] } by {
            if r == ch.row as int && c == ch.col as int {
                assert(touches_cell(cs, r, c));
            } else {
                assert(apply_changes(base, cs)[r][c] == prev[r][c]);
                if touches_cell(cs, r, c) {
                    let k = choose|k: int| 0 <= k < cs.len() && (#[trigger] cs[k]).row as int == r && cs[k].col as int == c;
                    assert(k < d.len());
                    assert(d[k] == cs[k]);
                    assert(touches_cell(d, r, c));
                }
                if touches_cell(d, r, c) {
                    let k = choose|k: int| 0 <= k < d.len() && (#[trigger] d[k]).row as int == r && d[k].col as int == c;
                    assert(cs[k] == d[k]);
                }
            }
        }
    }
}

/// The crossings around a tree at `(sr, sc)` in row `r`, up to column `c0`:
/// each crosses out an unmarked cell the tree shadows, and every such cell
/// is crossed out.
proof fn lemma_automark_row_facts(b: Seq<Seq<Marking>>, regions: Seq<Vec<usize>>, sr: int, sc: int, r: int, c0: int)
    requires
        0 <= r <= usize::MAX,
        c0 <= usize::MAX + 1,
    ensures
        ({
            let cs = automark_row(b, regions, sr, sc, r, c0);
            &&& forall|k: int| 0 <= k < cs.len() ==> {
                &&& (#[trigger] cs[k]).row as int == r
                &&& 0 <= cs[k].col < c0
                &&& cs[k].to == Marking::MarkedEmpty
                &&& b[r][cs[k].col as int] == Marking::NotMarked
                &&& shadowed(regions, sr, sc, r, cs[k].col as int)
            }
            &&& forall|c: int| 0 <= c < c0 && shadowed(regions, sr, sc, r, c) && b[r][c] == Marking::NotMarked
                ==> touches_cell(cs, r, c)
        }),
    decreases c0,
{
    if c0 > 0 {
        lemma_automark_row_facts(b, regions, sr, sc, r, c0 - 1);
        let prev = automark_row(b, regions, sr, sc, r, c0 - 1);
        let cs = automark_row(b, regions, sr, sc, r, c0);
        let c = c0 - 1;
        if shadowed(regions, sr, sc, r, c) && b[r][c] == Marking::NotMarked {
            assert(cs == prev.push(CellChange { row: r as usize, col: c as usize, from: Marking::NotMarked, to: Marking::MarkedEmpty }));
            assert(cs[prev.len() as int].row as int == r && cs[prev.len() as int].col as int == c);
            assert forall|k: int| 0 <= k < prev.len() implies cs[k] == prev[k] by {}
            assert forall|c2: int| 0 <= c2 < c0 && shadowed(regions, sr, sc, r, c2) && b[r][c2] == Marking::NotMarked
                implies touches_cell(cs, r, c2) by {
                if c2 < c {
                    assert(touches_cell(prev, r, c2));
                    let k = choose|k: int| 0 <= k < prev.len() && (#[trigger] prev[k]).row as int == r && prev[k].col as int == c2;
                    assert(cs[k] == prev[k]);
                } else {
                    assert(cs[prev.len() as int].col as int == c2);
                }
            }
        } else {
            assert(cs == prev);
            assert forall|c2: int| 0 <= c2 < c0 && shadowed(regions, sr, sc, r, c2) && b[r][c2] == Marking::NotMarked
                implies touches_cell(cs, r, c2) by {
                assert(c2 < c);
                assert(touches_cell(prev, r, c2));
            }
        }
    }
}

/// The crossings around a tree at `(sr, sc)` on the `n x n` board `b`, in
/// its first `r0` rows: each crosses out an unmarked cell the tree shadows,
/// and every such cell is crossed out.
proof fn lemma_automark_rows_facts(b: Seq<Seq<Marking>>, regions: Seq<Vec<usize>>, n: int, sr: int, sc: int, r0: int)
    requires
        0 <= r0 <= n <= usize::MAX,
    ensures
        ({
            let cs = automark_rows(b, regions, n, sr, sc, r0);
            &&& forall|k: int| 0 <= k < cs.len() ==> {
                &&& 0 <= (#[trigger] cs[k]).row < r0
                &&& 0 <= cs[k].col < n
                &&& cs[k].to == Marking::MarkedEmpty
                &&& b[cs[k].row as int][cs[k].col as int] == Marking::NotMarked
                &&& shadowed(regions, sr, sc, cs[k].row as int, cs[k].col as int)
            }
            &&& forall|r: int, c: int| 0 <= r < r0 && 0 <= c < n && shadowed(regions, sr, sc, r, c) && b[r][c] == Marking::NotMarked
                ==> touches_cell(cs, r, c)
        }),
    decreases r0,
{
    if r0 > 0 {
        lemma_automark_rows_facts(b, regions, n, sr, sc, r0 - 1);
        lemma_automark_row_facts(b, regions, sr, sc, r0 - 1, n);
        let prev = automark_rows(b, regions, n, sr, sc, r0 - 1);
        let row = automark_row(b, regions, sr, sc, r0 - 1, n);
        let cs = automark_rows(b, regions, n, sr, sc, r0);
        assert(cs == prev + row);
        assert forall|k: int| 0 <= k < cs.len() implies {
            &&& 0 <= (#[trigger] cs[k]).row < r0
            &&& 0 <= cs[k].col < n
            &&& cs[k].to == Marking::MarkedEmpty
            &&& b[cs[k].row as int][cs[k].col as int] == Marking::NotMarked
            &&& shadowed(regions, sr, sc, cs[k].row as int, cs[k].col as int)
        } by {
            if k < prev.len() {
                assert(cs[k] == prev[k]);
            } else {
                assert(cs[k] == row[k - prev.len()]);
            }
        }
        assert forall|r: int, c: int| 0 <= r < r0 && 0 <= c < n && shadowed(regions, sr, sc, r, c) && b[r][c] == Marking::NotMarked
            implies touches_cell(cs, r, c) by {
            if r < r0 - 1 {
                assert(touches_cell(prev, r, c));
                let k = choose|k: int| 0 <= k < prev.len() && (#[trigger] prev[k]).row as int == r && prev[k].col as int == c;
                assert(cs[k] == prev[k]);
            } else {
                assert(touches_cell(row, r, c));
                let k = choose|k: int| 0 <= k < row.len() && (#[trigger] row[k]).row as int == r && row[k].col as int == c;
                assert(cs[prev.len() + k] == row[k]);
            }
        }
    }
}

/// A release with automatic crossing-out on, after a press that did not
/// drag, on a crossed-out cell `(sr, sc)`: the cell becomes a tree, and every
/// unmarked cell of its row, its column, its region or touching it is
/// crossed out. No other cell changes.
pub proof fn lemma_automark_release(pre: PlaySession, post: PlaySession)
    requires
        pre.wf(),
        ended(pre, post),
        pre.automark,
        pre.active is Some,
        pre.active->0.slot < pre.levels@.len(),
        pre.levels@[pre.active->0.slot as int] is Some,
        pre.active->0.drag_mode is None,
        ({
            let l = pre.levels@[pre.active->0.slot as int]->0;
            let n = l.level.size as int;
            let st = pre.active->0.start_pos;
            &&& l.board()[st.0 as int][st.1 as int] == Marking::MarkedEmpty
            &&& l.level.regions@.len() == n
            &&& forall|r: int| 0 <= r < n ==> (#[trigger] l.level.regions@[r])@.len() == n
        }),
    ensures
        ({
            let slot = pre.active->0.slot as int;
            let l = pre.levels@[slot]->0;
            let b = l.board();
            let n = l.level.size as int;
            let regs = l.level.regions@;
            let sr = pre.active->0.start_pos.0 as int;
            let sc = pre.active->0.start_pos.1 as int;
            &&& post.levels@[slot] is Some
            &&& post.levels@[slot]->0.board()[sr][sc] == Marking::MarkedTree
            &&& forall|r: int, c: int| 0 <= r < n && 0 <= c < n && !(r == sr && c == sc) ==>
                #[trigger] post.levels@[slot]->0.board()[r][c] == if b[r][c] == Marking::NotMarked && (r == sr || c == sc
                        || regs[r]@[c] == regs[sr]@[sc] || (-1 <= r - sr <= 1 && -1 <= c - sc <= 1)) {
                    Marking::MarkedEmpty
                } else {
                    b[r][c]
                }
        }),
{
    let slot = pre.active->0.slot as int;
    let a = pre.active->0;
    let l = pre.levels@[slot]->0;
    let b = l.board();
    let n = l.level.size as int;
    let regs = l.level.regions@;
    let sr = a.start_pos.0 as int;
    let sc = a.start_pos.1 as int;
    assert(pre.slot_ok(slot));
    let b1 = set_mark(b, sr, sc, Marking::MarkedTree);
    let ch = CellChange { row: a.start_pos.0, col: a.start_pos.1, from: Marking::MarkedEmpty, to: Marking::MarkedTree };
    let rows = automark_rows(b1, regs, n, sr, sc, n);
    let extra = finish_extra(b, a.drag_mode, a.start_pos, pre.automark, regs, n);
    assert(extra == seq![ch] + rows);
    lemma_concat(b, seq![ch], rows);
    lemma_apply_one(b, ch);
    lemma_set_shape(b, sr, sc, Marking::MarkedTree);
    assert(square(b1, n));
    lemma_automark_rows_facts(b1, regs, n, sr, sc, n);
    lemma_apply_crossings(b1, rows, n);
    let b2 = post.levels@[slot]->0.board();
    assert(b2 == apply_changes(b1, rows));
    assert(!touches_cell(rows, sr, sc)) by {
        if touches_cell(rows, sr, sc) {
            let k = choose|k: int| 0 <= k < rows.len() && (#[trigger] rows[k]).row as int == sr && rows[k].col as int == sc;
            assert(b1[sr][sc] == Marking::MarkedTree);
        }
    }
    assert forall|r: int, c: int| 0 <= r < n && 0 <= c < n && !(r == sr && c == sc) implies
        #[trigger] b2[r][c] == if b[r][c] == Marking::NotMarked && (r == sr || c == sc
                || regs[r]@[c] == regs[sr]@[sc] || (-1 <= r - sr <= 1 && -1 <= c - sc <= 1)) {
            Marking::MarkedEmpty
        } else {
            b[r][c]
        } by {
        assert(b1[r][c] == b[r][c]);
        let near = r == sr || c == sc || regs[r]@[c] == regs[sr]@[sc] || (-1 <= r - sr <= 1 && -1 <= c - sc <= 1);
        assert(near == shadowed(regs, sr, sc, r, c));
        if touches_cell(rows, r, c) {
            let k = choose|k: int| 0 <= k < rows.len() && (#[trigger] rows[k]).row as int == r && rows[k].col as int == c;
        }
    }
}

/// A release with automatic crossing-out off changes no cell but the one
/// the press began on.
pub proof fn lemma_release_without_automark(pre: PlaySession, post: PlaySession)
    requires
        pre.wf(),
        ended(pre, post),
        !pre.automark,
        pre.active is Some,
        pre.active->0.slot < pre.levels@.len(),
        pre.levels@[pre.active->0.slot as int] is Some,
    ensures
        ({
            let slot = pre.active->0.slot as int;
            let b = pre.levels@[slot]->0.board();
            let n = pre.levels@[slot]->0.level.size as int;
            let st = pre.active->0.start_pos;
            &&& post.levels@[slot] is Some
            &&& square(post.levels@[slot]->0.board(), n)
            &&& forall|r: int, c: int| 0 <= r < n && 0 <= c < n && !(r == st.0 && c == st.1) ==>
                #[trigger] post.levels@[slot]->0.board()[r][c] == b[r][c]
        }),
{
    let slot = pre.active->0.slot as int;
    let a = pre.active->0;
    let l = pre.levels@[slot]->0;
    let b = l.board();
    let n = l.level.size as int;
    let sr = a.start_pos.0 as int;
    let sc = a.start_pos.1 as int;
    assert(pre.slot_ok(slot));
    let extra = finish_extra(b, a.drag_mode, a.start_pos, false, l.level.regions@, n);
    let b2 = post.levels@[slot]->0.board();
    if extra.len() > 0 {
        let ch = extra[0];
        assert(extra == seq![ch]);
        lemma_apply_one(b, ch);
        lemma_set_shape(b, sr, sc, ch.to);
    } else {
        assert(b2 == b);
    }
}

/// A drag of a crossing press onto a cell it has not visited changes only
/// that cell, and only when it is unmarked, crossing it out: trees and
/// crossings already on the board stay, and every change it records starts
/// from an unmarked cell.
pub proof fn lemma_cross_drag(pre: PlaySession, slot: int, row: int, col: int, post: PlaySession)
    requires
        pre.wf(),
        dragged(pre, slot, row, col, post),
        !pre.eye_holding,
        pre.active is Some,
        pre.active->0.slot == slot,
        !pre.active->0.visited@.contains((row as usize, col as usize)),
        pre.active->0.drag_mode == Some(DragMode::Cross),
        0 <= slot < pre.levels@.len(),
        pre.levels@[slot] is Some,
        0 <= row < pre.levels@[slot]->0.level.size,
        0 <= col < pre.levels@[slot]->0.level.size,
    ensures
        ({
            let b = pre.levels@[slot]->0.board();
            let n = pre.levels@[slot]->0.level.size as int;
            let a = pre.active->0;
            &&& post.levels@[slot] is Some
            &&& post.active is Some
            &&& forall|r: int, c: int| 0 <= r < n && 0 <= c < n ==>
                #[trigger] post.levels@[slot]->0.board()[r][c] == if r == row && c == col && b[r][c] == Marking::NotMarked {
                    Marking::MarkedEmpty
                } else {
                    b[r][c]
                }
            &&& post.active->0.changes@.len() >= a.changes@.len()
            &&& forall|k: int| a.changes@.len() <= k < post.active->0.changes@.len() ==>
                (#[trigger] post.active->0.changes@[k]).from == Marking::NotMarked
                && post.active->0.changes@[k].to == Marking::MarkedEmpty
        }),
{
    let l = pre.levels@[slot]->0;
    let b = l.board();
    let n = l.level.size as int;
    let a = pre.active->0;
    assert(pre.slot_ok(slot));
    let extra = drag_extra(b, a.drag_mode, a.start_pos, row, col);
    let b2 = post.levels@[slot]->0.board();
    if b[row][col] == Marking::NotMarked {
        let ch = CellChange { row: row as usize, col: col as usize, from: Marking::NotMarked, to: Marking::MarkedEmpty };
        assert(extra == seq![ch]);
        lemma_apply_one(b, ch);
        lemma_set_shape(b, row, col, Marking::MarkedEmpty);
        assert(b2 == set_mark(b, row, col, Marking::MarkedEmpty));
        assert(post.active->0.changes@ == a.changes@ + seq![ch]);
        assert(post.active->0.changes@[a.changes@.len() as int] == ch);
        assert(square(b, n));
        assert forall|r: int, c: int| 0 <= r < n && 0 <= c < n implies
            #[trigger] b2[r][c] == if r == row && c == col && b[r][c] == Marking::NotMarked {
                Marking::MarkedEmpty
            } else {
                b[r][c]
            } by {
            if r != row {
                assert(b2[r] == b[r]);
            }
        }
    } else {
        assert(extra.len() == 0);
        assert(extra =~= Seq::<CellChange>::empty());
        assert(b2 == b);
        assert(post.active->0.changes@ =~= a.changes@);
    }
}

/// A drag of an erasing press onto a cell it has not visited clears that
/// cell and no other.
pub proof fn lemma_erase_drag(pre: PlaySession, slot: int, row: int, col: int, post: PlaySession)
    requires
        pre.wf(),
        dragged(pre, slot, row, col, post),
        !pre.eye_holding,
        pre.active is Some,
        pre.active->0.slot == slot,
        !pre.active->0.visited@.contains((row as usize, col as usize)),
        pre.active->0.drag_mode == Some(DragMode::Erase),
        0 <= slot < pre.levels@.len(),
        pre.levels@[slot] is Some,
        0 <= row < pre.levels@[slot]->0.level.size,
        0 <= col < pre.levels@[slot]->0.level.size,
    ensures
        ({
            let b = pre.levels@[slot]->0.board();
            let n = pre.levels@[slot]->0.level.size as int;
            &&& post.levels@[slot] is Some
            &&& forall|r: int, c: int| 0 <= r < n && 0 <= c < n ==>
                #[trigger] post.levels@[slot]->0.board()[r][c] == if r == row && c == col { Marking::NotMarked } else { b[r][c] }
        }),
{
    let l = pre.levels@[slot]->0;
    let b = l.board();
    let n = l.level.size as int;
    let a = pre.active->0;
    assert(pre.slot_ok(slot));
    assert(square(b, n));
    let extra = drag_extra(b, a.drag_mode, a.start_pos, row, col);
    let b2 = post.levels@[slot]->0.board();
    if b[row][col] != Marking::NotMarked {
        let ch = CellChange { row: row as usize, col: col as usize, from: b[row][col], to: Marking::NotMarked };
        assert(extra == seq![ch]);
        lemma_apply_one(b, ch);
        lemma_set_shape(b, row, col, Marking::NotMarked);
        assert forall|r: int, c: int| 0 <= r < n && 0 <= c < n implies
            #[trigger] b2[r][c] == if r == row && c == col { Marking::NotMarked } else { b[r][c] } by {
            if r != row {
                assert(b2[r] == b[r]);
            }
        }
    } else {
        assert(extra =~= Seq::<CellChange>::empty());
        assert(b2 == b);
    }
}

/// A press on a cell of a level: an unmarked cell is crossed out and starts
/// a crossing drag; a marked cell is left as it is, waiting for a drag or a
/// release. No other cell changes, and nothing is recorded on the stacks.
pub proof fn lemma_press_effect(pre: PlaySession, slot: int, row: int, col: int, post: PlaySession)
    requires
        pressed(pre, slot, row, col, post),
        0 <= slot < pre.levels@.len(),
        pre.levels@[slot] is Some,
        square(pre.levels@[slot]->0.board(), pre.levels@[slot]->0.level.size as int),
        0 <= row < pre.levels@[slot]->0.level.size,
        0 <= col < pre.levels@[slot]->0.level.size,
    ensures
        ({
            let l = pre.levels@[slot]->0;
            let b = l.board();
            let n = l.level.size as int;
            &&& post.levels@[slot] is Some
            &&& post.levels@[slot]->0.history() == l.history()
            &&& post.levels@[slot]->0.future() == l.future()
            &&& forall|r: int, c: int| 0 <= r < n && 0 <= c < n ==>
                #[trigger] post.levels@[slot]->0.board()[r][c]
                    == if r == row && c == col && b[r][c] == Marking::NotMarked { Marking::MarkedEmpty } else { b[r][c] }
            &&& post.active is Some
            &&& (post.active->0.drag_mode == Some(DragMode::Cross)) == (b[row][col] == Marking::NotMarked)
            &&& post.active->0.drag_mode != Some(DragMode::Erase)
        }),
{
    let l = pre.levels@[slot]->0;
    let b = l.board();
    let n = l.level.size as int;
    let b2 = post.levels@[slot]->0.board();
    if b[row][col] == Marking::NotMarked {
        lemma_set_shape(b, row, col, Marking::MarkedEmpty);
        assert forall|r: int, c: int| 0 <= r < n && 0 <= c < n implies
            #[trigger] b2[r][c] == if r == row && c == col && b[r][c] == Marking::NotMarked { Marking::MarkedEmpty } else { b[r][c] } by {
            if r != row {
                assert(b2[r] == b[r]);
            }
        }
    }
}

/// What a release does to the cell the press began on: after a press that
/// did not drag, a crossed-out cell becomes a tree and a tree becomes
/// unmarked; otherwise the cell keeps its marking. This holds with
/// automatic crossing-out on or off.
pub proof fn lemma_release_pressed_cell(pre: PlaySession, post: PlaySession)
    requires
        pre.wf(),
        ended(pre, post),
        pre.active is Some,
        pre.active->0.slot < pre.levels@.len(),
        pre.levels@[pre.active->0.slot as int] is Some,
    ensures
        ({
            let slot = pre.active->0.slot as int;
            let b = pre.levels@[slot]->0.board();
            let st = pre.active->0.start_pos;
            let m = b[st.0 as int][st.1 as int];
            &&& post.levels@[slot] is Some
            &&& post.levels@[slot]->0.board()[st.0 as int][st.1 as int] == if pre.active->0.drag_mode is None {
                    if m == Marking::MarkedEmpty { Marking::MarkedTree } else if m == Marking::MarkedTree { Marking::NotMarked } else { m }
                } else {
                    m
                }
        }),
{
    let slot = pre.active->0.slot as int;
    let a = pre.active->0;
    let l = pre.levels@[slot]->0;
    let b = l.board();
    let n = l.level.size as int;
    let regs = l.level.regions@;
    let sr = a.start_pos.0 as int;
    let sc = a.start_pos.1 as int;
    assert(pre.slot_ok(slot));
    assert(square(b, n));
    let extra = finish_extra(b, a.drag_mode, a.start_pos, pre.automark, regs, n);
    let b2 = post.levels@[slot]->0.board();
    let cur = b[sr][sc];
    let new = toggled(cur);
    if a.drag_mode is None && new != cur {
        let ch = CellChange { row: a.start_pos.0, col: a.start_pos.1, from: cur, to: new };
        lemma_apply_one(b, ch);
        lemma_set_shape(b, sr, sc, new);
        let b1 = set_mark(b, sr, sc, new);
        if new == Marking::MarkedTree && pre.automark {
            let rows = automark_rows(b1, regs, n, sr, sc, n);
            assert(extra == seq![ch] + rows);
            lemma_concat(b, seq![ch], rows);
            lemma_automark_rows_facts(b1, regs, n, sr, sc, n);
            lemma_apply_crossings(b1, rows, n);
            assert(!touches_cell(rows, sr, sc)) by {
                if touches_cell(rows, sr, sc) {
                    let k = choose|k: int| 0 <= k < rows.len() && (#[trigger] rows[k]).row as int == sr && rows[k].col as int == sc;
                }
            }
            assert(b2[sr][sc] == b1[sr][sc]);
        } else {
            assert(extra == seq![ch]);
        }
    } else {
        assert(extra =~= Seq::<CellChange>::empty());
        assert(b2 == b);
    }
}

/// How heavy a border line between two cells is drawn.
#[derive(Clone, Copy, PartialEq, Eq, Debug, Structural)]
pub enum BorderWeight {
    Absent,
    Thin,
    Thick,
}

/// The border weight between cells `a` and `b` of `level`, neighbours
/// across a `vertical` line (side by side) or a horizontal one, under
/// highlight `mode`: thick between regions (`Section`), between rows
/// (`Row`) or between columns (`Column`), thin otherwise.
pub open spec fn border_weight_spec(regions: Seq<Vec<usize>>, mode: HighlightMode, r: int, c: int, vertical: bool) -> BorderWeight {
    if (vertical && c == 0) || (!vertical && r == 0) {
        BorderWeight::Absent
    } else {
        let other = if vertical { region_at(regions, r, c - 1) } else { region_at(regions, r - 1, c) };
        match mode {
            HighlightMode::Off => BorderWeight::Thin,
            HighlightMode::Section => if region_at(regions, r, c) != other { BorderWeight::Thick } else { BorderWeight::Thin },
            HighlightMode::Row => if vertical { BorderWeight::Thin } else { BorderWeight::Thick },
            HighlightMode::Column => if vertical { BorderWeight::Thick } else { BorderWeight::Thin },
        }
    }
}

/// The weights of the left and top borders of cell `(r, c)` of `level`
/// under highlight `mode` (none on the first column and the first row).
pub fn cell_borders(level: &UserLevel, mode: HighlightMode, r: usize, c: usize) -> (w: (BorderWeight, BorderWeight))
    ensures
        w.0 == border_weight_spec(level.level.regions@, mode, r as int, c as int, true),
        w.1 == border_weight_spec(level.level.regions@, mode, r as int, c as int, false),
{
    let left = if c == 0 {
        BorderWeight::Absent
    } else {
        match mode {
            HighlightMode::Off => BorderWeight::Thin,
            HighlightMode::Section => if level.region(r, c) != level.region(r, c - 1) { BorderWeight::Thick } else { BorderWeight::Thin },
            HighlightMode::Row => BorderWeight::Thin,
            HighlightMode::Column => BorderWeight::Thick,
        }
    };
    let top = if r == 0 {
        BorderWeight::Absent
    } else {
        match mode {
            HighlightMode::Off => BorderWeight::Thin,
            HighlightMode::Section => if level.region(r, c) != level.region(r - 1, c) { BorderWeight::Thick } else { BorderWeight::Thin },
            HighlightMode::Row => BorderWeight::Thick,
            HighlightMode::Column => BorderWeight::Thin,
        }
    };
    (left, top)
}

/// Whether `(r, c)` is one of `cells`.
fn has_cell(cells: &Vec<(usize, usize)>, r: usize, c: usize) -> (found: bool)
    ensures
        found == cells@.contains((r, c)),
{
    let mut i: usize = 0;
    while i < cells.len()
        invariant
            i <= cells@.len(),
            forall|k: int| 0 <= k < i ==> cells@[k] != (r, c),
        decreases cells@.len() - i,
    {
        let (a, b) = cells[i];
        if a == r && b == c {
            proof {
                assert(cells@[i as int] == (r, c));
            }
            return true;
        }
        i = i + 1;
    }
    false
}

} // verus!
