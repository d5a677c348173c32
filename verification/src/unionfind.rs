//! A union-find forest over the cells of a board, with path compression and
//! union by rank.

use vstd::prelude::*;
use vstd::arithmetic::power2::pow2;
use crate::MAX_CELLS;

verus! {

/// The cells of the class whose representative is `r`.
pub open spec fn uf_class(rt: Seq<int>, r: int, total: int) -> Set<int> {
    Set::new(|x: int| 0 <= x < total && rt[x] == r)
}

/// `parent` is a forest over `0 .. total` whose trees are the classes of
/// `rt` (each cell's representative); `dist` decreases towards the root,
/// and every root of rank `k` has at least `2^k` cells in its class.
#[verifier::opaque]
pub open spec fn uf_inv(total: int, parent: Seq<u16>, rank: Seq<u8>, rt: Seq<int>, dist: Seq<nat>) -> bool {
    &&& 0 <= total <= MAX_CELLS
    &&& parent.len() == MAX_CELLS
    &&& rank.len() == MAX_CELLS
    &&& rt.len() == total
    &&& dist.len() == total
    &&& forall|x: int| 0 <= x < total ==> (#[trigger] parent[x]) < total
    &&& forall|x: int| 0 <= x < total ==> 0 <= #[trigger] rt[x] < total
    &&& forall|x: int| 0 <= x < total ==> parent[#[trigger] rt[x]] == rt[x]
    &&& forall|x: int| 0 <= x < total ==> rt[#[trigger] parent[x] as int] == rt[x]
    &&& forall|x: int| 0 <= x < total ==> (#[trigger] parent[x] == x <==> dist[x] == 0)
    &&& forall|x: int| 0 <= x < total && parent[x] != x ==> dist[#[trigger] parent[x] as int] < dist[x]
    &&& forall|x: int| 0 <= x < total && #[trigger] parent[x] == x ==> rt[x] == x
    &&& forall|x: int| 0 <= x < total && #[trigger] parent[x] == x ==> pow2(rank[x] as nat) <= uf_class(rt, x, total).len()
}

pub proof fn lemma_class_finite(rt: Seq<int>, r: int, total: int)
    requires
        0 <= total,
    ensures
        uf_class(rt, r, total).finite(),
        uf_class(rt, r, total).len() <= total,
{
    let range = vstd::set_lib::set_int_range(0, total);
    vstd::set_lib::lemma_int_range(0, total);
    assert(uf_class(rt, r, total).subset_of(range));
    vstd::set_lib::lemma_set_subset_finite(range, uf_class(rt, r, total));
    vstd::set_lib::lemma_len_subset(uf_class(rt, r, total), range);
}

/// The representative of `i`, shortening the path from `i` to it.
pub fn uf_find(
    i: usize,
    parent: &mut [u16; MAX_CELLS],
    Ghost(total): Ghost<int>,
    Ghost(rank): Ghost<Seq<u8>>,
    Ghost(rt): Ghost<Seq<int>>,
    Ghost(dist): Ghost<Seq<nat>>,
) -> (root: usize)
    requires
        uf_inv(total, old(parent)@, rank, rt, dist),
        i < total,
    ensures
        root == rt[i as int],
        root < total,
        uf_inv(total, final(parent)@, rank, rt, dist),
{
    proof {
        reveal(uf_inv);
    }
    let mut root = i;
    while parent[root] as usize != root
        invariant
            uf_inv(total, parent@, rank, rt, dist),
            total <= MAX_CELLS,
            root < total,
            rt[root as int] == rt[i as int],
        decreases dist[root as int],
    {
        proof {
            reveal(uf_inv);
        }
        root = parent[root] as usize;
    }
    proof {
        reveal(uf_inv);
    }
    let mut curr = i;
    while curr != root
        invariant
            uf_inv(total, parent@, rank, rt, dist),
            total <= MAX_CELLS,
            root < total,
            curr < total,
            parent@[root as int] == root,
            root == rt[i as int],
            rt[curr as int] == rt[i as int],
        decreases dist[curr as int],
    {
        proof {
            reveal(uf_inv);
        }
        let next = parent[curr] as usize;
        let ghost p0 = parent@;
        parent[curr] = root as u16;
        proof {
            assert(p0[curr as int] != curr);
            let p1 = parent@;
            assert forall|x: int| 0 <= x < total implies rt[#[trigger] p1[x] as int] == rt[x] by {
                if x == curr {
                } else {
                    assert(p1[x] == p0[x]);
                }
            }
            assert forall|x: int| 0 <= x < total implies (#[trigger] p1[x] == x <==> dist[x] == 0) by {
                if x == curr {
                    assert(dist[curr as int] != 0);
                } else {
                    assert(p1[x] == p0[x]);
                }
            }
            assert forall|x: int| 0 <= x < total && p1[x] != x implies dist[#[trigger] p1[x] as int] < dist[x] by {
                if x == curr {
                    assert(dist[root as int] == 0);
                } else {
                    assert(p1[x] == p0[x]);
                }
            }
            assert forall|x: int| 0 <= x < total implies parent@[#[trigger] rt[x]] == rt[x] by {
                assert(rt[x] != curr);
            }
            assert forall|x: int| 0 <= x < total && #[trigger] p1[x] == x implies rt[x] == x && pow2(rank[x] as nat) <= uf_class(rt, x, total).len() by {
                assert(x != curr);
                assert(p1[x] == p0[x]);
            }
        }
        curr = next;
    }
    root
}

/// The shape of the representatives of a forest.
pub proof fn lemma_uf_shape(total: int, parent: Seq<u16>, rank: Seq<u8>, rt: Seq<int>, dist: Seq<nat>)
    requires
        uf_inv(total, parent, rank, rt, dist),
    ensures
        0 <= total <= MAX_CELLS,
        rt.len() == total,
        forall|x: int| 0 <= x < total ==> 0 <= #[trigger] rt[x] < total,
{
    reveal(uf_inv);
}

/// A forest of single cells, each its own root of rank 0.
pub proof fn lemma_uf_init(total: int, parent: Seq<u16>, rank: Seq<u8>)
    requires
        0 <= total <= MAX_CELLS,
        parent.len() == MAX_CELLS,
        rank.len() == MAX_CELLS,
        forall|x: int| 0 <= x < total ==> #[trigger] parent[x] == x,
        forall|x: int| 0 <= x < total ==> #[trigger] rank[x] == 0,
    ensures
        uf_inv(total, parent, rank, Seq::new(total as nat, |x: int| x), Seq::new(total as nat, |x: int| 0nat)),
{
    reveal(uf_inv);
    let rt = Seq::new(total as nat, |x: int| x);
    vstd::arithmetic::power2::lemma2_to64();
    assert forall|x: int| 0 <= x < total && #[trigger] parent[x] == x implies pow2(rank[x] as nat) <= uf_class(rt, x, total).len() by {
        assert(uf_class(rt, x, total) =~= set![x]);
    }
}

/// Representatives after the class of `from` is merged into that of `to`.
pub open spec fn merged_rt(rt: Seq<int>, from: int, to: int) -> Seq<int> {
    Seq::new(rt.len(), |x: int| if rt[x] == from { to } else { rt[x] })
}

/// Distances after the root `from` is hung below another root.
pub open spec fn merged_dist(rt: Seq<int>, dist: Seq<nat>, from: int) -> Seq<nat> {
    Seq::new(dist.len(), |x: int| if rt[x] == from { dist[x] + 1 } else { dist[x] })
}

/// Hanging root `f` below root `t` keeps the forest invariant, given the
/// rank that `t` then has.
proof fn lemma_hang_root(
    total: int,
    parent: Seq<u16>,
    rank: Seq<u8>,
    rt: Seq<int>,
    dist: Seq<nat>,
    f: int,
    t: int,
    new_parent: Seq<u16>,
    new_rank: Seq<u8>,
)
    requires
        uf_inv(total, parent, rank, rt, dist),
        0 <= f < total,
        0 <= t < total,
        f != t,
        parent[f] == f,
        parent[t] == t,
        new_parent == parent.update(f, t as u16),
        new_rank.len() == MAX_CELLS,
        forall|x: int| 0 <= x < total && x != t ==> new_rank[x] == rank[x],
        pow2(new_rank[t] as nat) <= uf_class(rt, t, total).len() + uf_class(rt, f, total).len(),
    ensures
        uf_inv(total, new_parent, new_rank, merged_rt(rt, f, t), merged_dist(rt, dist, f)),
{
    reveal(uf_inv);
    let rt2 = merged_rt(rt, f, t);
    let d2 = merged_dist(rt, dist, f);
    assert(rt[f] == f && rt[t] == t);
    assert forall|x: int| 0 <= x < total implies (#[trigger] new_parent[x]) < total by {
        if x == f {
        } else {
            assert(new_parent[x] == parent[x]);
        }
    }
    assert forall|x: int| 0 <= x < total implies new_parent[#[trigger] rt2[x]] == rt2[x] by {
        if rt[x] == f {
        } else {
            assert(parent[rt[x]] == rt[x]);
        }
    }
    assert forall|x: int| 0 <= x < total implies rt2[#[trigger] new_parent[x] as int] == rt2[x] by {
        if x == f {
        } else {
            assert(new_parent[x] == parent[x]);
            assert(rt[parent[x] as int] == rt[x]);
        }
    }
    assert forall|x: int| 0 <= x < total implies (#[trigger] new_parent[x] == x <==> d2[x] == 0) by {
        if x != f {
            assert(new_parent[x] == parent[x]);
            if rt[x] == f && parent[x] == x {
                assert(rt[x] == x);
            }
        }
    }
    assert forall|x: int| 0 <= x < total && new_parent[x] != x implies d2[#[trigger] new_parent[x] as int] < d2[x] by {
        if x == f {
            assert(dist[t] == 0);
        } else {
            assert(new_parent[x] == parent[x]);
            assert(rt[parent[x] as int] == rt[x]);
        }
    }
    assert forall|x: int| 0 <= x < total && #[trigger] new_parent[x] == x implies rt2[x] == x by {
        assert(x != f);
        assert(new_parent[x] == parent[x]);
    }
    lemma_class_finite(rt, t, total);
    lemma_class_finite(rt, f, total);
    assert forall|x: int| 0 <= x < total && #[trigger] new_parent[x] == x implies pow2(new_rank[x] as nat) <= uf_class(rt2, x, total).len() by {
        assert(x != f);
        assert(new_parent[x] == parent[x]);
        if x == t {
            let a = uf_class(rt, t, total);
            let b = uf_class(rt, f, total);
            assert(uf_class(rt2, t, total) =~= a + b);
            assert(a.disjoint(b));
            vstd::set_lib::lemma_set_disjoint_lens(a, b);
        } else {
            assert(uf_class(rt2, x, total) =~= uf_class(rt, x, total));
        }
    }
}

/// A root's rank is at most 10 on a board of at most 1024 cells.
proof fn lemma_rank_small(total: int, parent: Seq<u16>, rank: Seq<u8>, rt: Seq<int>, dist: Seq<nat>, r: int)
    requires
        uf_inv(total, parent, rank, rt, dist),
        0 <= r < total,
        parent[r] == r,
    ensures
        rank[r] <= 10,
{
    reveal(uf_inv);
    lemma_class_finite(rt, r, total);
    vstd::arithmetic::power2::lemma2_to64();
    if rank[r] > 10 {
        vstd::arithmetic::power2::lemma_pow2_strictly_increases(10, rank[r] as nat);
    }
}

/// Merges the classes of `i` and `j`, hanging the root of lower rank below
/// the other.
pub fn uf_union(
    i: usize,
    j: usize,
    parent: &mut [u16; MAX_CELLS],
    rank: &mut [u8; MAX_CELLS],
    Ghost(total): Ghost<int>,
    Ghost(rt): Ghost<Seq<int>>,
    Ghost(dist): Ghost<Seq<nat>>,
) -> (res: Ghost<(Seq<int>, Seq<nat>)>)
    requires
        uf_inv(total, old(parent)@, old(rank)@, rt, dist),
        i < total,
        j < total,
    ensures
        uf_inv(total, final(parent)@, final(rank)@, res@.0, res@.1),
        forall|x: int, y: int| 0 <= x < total && 0 <= y < total ==>
            (#[trigger] res@.0[x] == #[trigger] res@.0[y] <==> (rt[x] == rt[y]
                || (rt[x] == rt[i as int] && rt[y] == rt[j as int]) || (rt[x] == rt[j as int] && rt[y] == rt[i as int]))),
{
    let root_i = uf_find(i, parent, Ghost(total), Ghost(rank@), Ghost(rt), Ghost(dist));
    let root_j = uf_find(j, parent, Ghost(total), Ghost(rank@), Ghost(rt), Ghost(dist));
    proof {
        reveal(uf_inv);
    }
    if root_i != root_j {
        let rank_i = rank[root_i];
        let rank_j = rank[root_j];
        let ghost p0 = parent@;
        let ghost k0 = rank@;
        proof {
            lemma_class_finite(rt, root_i as int, total);
            lemma_class_finite(rt, root_j as int, total);
        }
        if rank_i < rank_j {
            parent[root_i] = root_j as u16;
            proof {
                lemma_hang_root(total, p0, k0, rt, dist, root_i as int, root_j as int, parent@, rank@);
            }
            Ghost((merged_rt(rt, root_i as int, root_j as int), merged_dist(rt, dist, root_i as int)))
        } else if rank_i > rank_j {
            parent[root_j] = root_i as u16;
            proof {
                lemma_hang_root(total, p0, k0, rt, dist, root_j as int, root_i as int, parent@, rank@);
            }
            Ghost((merged_rt(rt, root_j as int, root_i as int), merged_dist(rt, dist, root_j as int)))
        } else {
            proof {
                lemma_rank_small(total, p0, k0, rt, dist, root_i as int);
            }
            parent[root_j] = root_i as u16;
            rank[root_i] = rank_i + 1;
            proof {
                vstd::arithmetic::power2::lemma_pow2_unfold((rank_i + 1) as nat);
                lemma_hang_root(total, p0, k0, rt, dist, root_j as int, root_i as int, parent@, rank@);
            }
            Ghost((merged_rt(rt, root_j as int, root_i as int), merged_dist(rt, dist, root_j as int)))
        }
    } else {
        Ghost((rt, dist))
    }
}

} // verus!
