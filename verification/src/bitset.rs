//! A fixed set of 1024 bits: one bit per cell of the largest board.

use vstd::prelude::*;
use crate::bits::{bit64, lemma_bit_or, lemma_bit_or_single, lemma_bit_test_single, lemma_bit_zero, lemma_split_index};

verus! {

/// Words `0 .. k` of `a` or-ed with those of `b`; words `k ..` are those of `a`.
pub open spec fn or_prefix(a: Seq<u64>, b: Seq<u64>, k: int) -> Seq<u64> {
    Seq::new(16, |i: int| if i < k { a[i] | b[i] } else { a[i] })
}

/// The set of indices below 1024 whose bits are set in the 16 words `w`.
pub open spec fn word_bits(w: Seq<u64>) -> Set<int> {
    Set::new(|i: int| 0 <= i < 1024 && bit64(w[i / 64], (i % 64) as u64))
}

#[derive(Clone, Copy, Debug, PartialEq, Eq)]
pub struct BitSet1024(pub [u64; 16]);

impl View for BitSet1024 {
    type V = Set<int>;

    open spec fn view(&self) -> Set<int> {
        word_bits(self.0@)
    }
}

impl Default for BitSet1024 {
    fn default() -> (s: Self)
        ensures
            s@ == Set::<int>::empty(),
    {
        let s = BitSet1024([0u64; 16]);
        proof {
            assert forall|i: int| !s@.contains(i) by {
                if 0 <= i < 1024 {
                    lemma_bit_zero((i % 64) as u64);
                }
            }
            assert(s@ =~= Set::<int>::empty());
        }
        s
    }
}

impl BitSet1024 {
    pub fn set_bit(&mut self, idx: usize)
        requires
            idx < 1024,
        ensures
            final(self)@ == old(self)@.insert(idx as int),
    {
        proof {
            lemma_split_index(idx);
        }
        let w = idx >> 6usize;
        let b = (idx & 63usize) as u64;
        let word = self.0[w] | (1u64 << b);
        self.0[w] = word;
        proof {
            assert forall|i: int| #[trigger] self@.contains(i) == old(self)@.insert(idx as int).contains(i) by {
                if 0 <= i < 1024 {
                    if i / 64 == w as int {
                        lemma_bit_or_single(old(self).0@[w as int], b, (i % 64) as u64);
                    }
                }
            }
            assert(self@ =~= old(self)@.insert(idx as int));
        }
    }

    pub fn test_bit(&self, idx: usize) -> (b: bool)
        requires
            idx < 1024,
        ensures
            b == self@.contains(idx as int),
    {
        proof {
            lemma_split_index(idx);
            lemma_bit_test_single(self.0@[idx as int / 64], (idx % 64) as u64);
        }
        (self.0[idx >> 6usize] & (1u64 << ((idx & 63usize) as u64))) != 0
    }

    pub fn union_with(&self, other: &Self) -> (u: Self)
        ensures
            u@ == self@.union(other@),
    {
        let mut res = [0u64; 16];
        for i in 0..16usize
            invariant
                forall|k: int| 0 <= k < i ==> res@[k] == self.0@[k] | other.0@[k],
        {
            res[i] = self.0[i] | other.0[i];
        }
        let u = Self(res);
        proof {
            assert(u.0@ =~= or_prefix(self.0@, other.0@, 16));
            lemma_or_prefix_bits(self.0@, other.0@, 16);
            assert(u@ =~= self@.union(other@));
        }
        u
    }

    /// Or-s the first `num_words` words of `other` into a copy of `self`.
    pub fn union_words(&self, other: &Self, num_words: usize) -> (u: Self)
        requires
            num_words <= 16,
        ensures
            u@ == self@.union(other@.filter(|i: int| i < 64 * num_words)),
    {
        let mut res = self.0;
        match num_words {
            1 => {
                res[0] = res[0] | other.0[0];
            },
            2 => {
                res[0] = res[0] | other.0[0];
                res[1] = res[1] | other.0[1];
            },
            3 => {
                res[0] = res[0] | other.0[0];
                res[1] = res[1] | other.0[1];
                res[2] = res[2] | other.0[2];
            },
            4 => {
                res[0] = res[0] | other.0[0];
                res[1] = res[1] | other.0[1];
                res[2] = res[2] | other.0[2];
                res[3] = res[3] | other.0[3];
            },
            _ => {
                for i in 0..num_words
                    invariant
                        num_words <= 16,
                        forall|k: int| 0 <= k < i ==> res@[k] == self.0@[k] | other.0@[k],
                        forall|k: int| i <= k < 16 ==> res@[k] == self.0@[k],
                {
                    res[i] = res[i] | other.0[i];
                }
            },
        }
        let u = Self(res);
        proof {
            assert(u.0@ =~= or_prefix(self.0@, other.0@, num_words as int));
            lemma_or_prefix_bits(self.0@, other.0@, num_words as int);
        }
        u
    }
}

/// The bits of `or_prefix(a, b, k)` are those of `a` and those of `b` below `64 * k`.
pub proof fn lemma_or_prefix_bits(a: Seq<u64>, b: Seq<u64>, k: int)
    requires
        a.len() == 16,
        b.len() == 16,
        0 <= k <= 16,
    ensures
        word_bits(or_prefix(a, b, k)) == word_bits(a).union(word_bits(b).filter(|i: int| i < 64 * k)),
{
    let lhs = word_bits(or_prefix(a, b, k));
    let rhs = word_bits(a).union(word_bits(b).filter(|i: int| i < 64 * k));
    assert forall|i: int| #[trigger] lhs.contains(i) == rhs.contains(i) by {
        if 0 <= i < 1024 {
            lemma_bit_or(a[i / 64], b[i / 64], (i % 64) as u64);
        }
    }
    assert(lhs =~= rhs);
}

} // verus!
