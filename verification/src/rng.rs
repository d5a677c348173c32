//! A small deterministic pseudo-random generator (splitmix64).

use vstd::prelude::*;

verus! {

/// Increment of the splitmix64 state on every draw.
pub const GOLDEN_GAMMA: u64 = 0x9e3779b97f4a7c15;

/// Value that a seed is xor-ed with to form the initial state.
pub const SEED_MIX: u64 = 0xda942042e4dd58b5;

/// Seed used when the system clock cannot be read.
pub const CLOCK_FALLBACK: u64 = 0x853c49e6748fea9b;

/// The splitmix64 output function applied to an advanced state.
pub open spec fn mix64(z0: u64) -> u64 {
    let z1 = (z0 ^ (z0 >> 30u64)).wrapping_mul(0xbf58476d1ce4e5b9u64);
    let z2 = (z1 ^ (z1 >> 27u64)).wrapping_mul(0x94d049bb133111ebu64);
    z2 ^ (z2 >> 31u64)
}

/// The state after one draw.
pub open spec fn advance(state: u64) -> u64 {
    state.wrapping_add(GOLDEN_GAMMA)
}

/// The value drawn from `state`.
pub open spec fn draw(state: u64) -> u64 {
    mix64(advance(state))
}

/// Scales a 64-bit draw `x` into `0 .. range`: `floor(x * range / 2^64)`.
pub open spec fn scale(x: u64, range: nat) -> nat {
    (x as nat * range) / 0x1_0000_0000_0000_0000nat
}

/// What `gen_range(low, high)` returns from `state`.
pub open spec fn range_pick(state: u64, low: nat, high: nat) -> nat {
    if high <= low {
        low
    } else {
        low + scale(draw(state), (high - low) as nat)
    }
}

/// The state after `gen_range(low, high)`.
pub open spec fn range_state(state: u64, low: nat, high: nat) -> u64 {
    if high <= low {
        state
    } else {
        advance(state)
    }
}

/// `s` with the elements at `i` and `j` exchanged.
pub open spec fn swap_seq<T>(s: Seq<T>, i: int, j: int) -> Seq<T> {
    s.update(i, s[j]).update(j, s[i])
}

/// Fisher-Yates from index `i` down to 1: the sequence and the state after it.
pub open spec fn shuffle_from<T>(s: Seq<T>, state: u64, i: nat) -> (Seq<T>, u64)
    decreases i,
{
    if i == 0 {
        (s, state)
    } else {
        let j = range_pick(state, 0, i + 1);
        shuffle_from(swap_seq(s, i as int, j as int), advance(state), (i - 1) as nat)
    }
}

/// What `shuffle` makes of `s`, and the generator state after it.
pub open spec fn shuffled<T>(s: Seq<T>, state: u64) -> (Seq<T>, u64) {
    if s.len() <= 1 {
        (s, state)
    } else {
        shuffle_from(s, state, (s.len() - 1) as nat)
    }
}

#[derive(Clone, Copy, Debug)]
pub struct SimpleRng(pub u64);

impl SimpleRng {
    /// A generator seeded from the system clock.
    pub fn new() -> (rng: Self)
    {
        let seed = clock_seed(read_clock_nanos());
        Self::with_seed(seed)
    }

    pub fn with_seed(seed: u64) -> (rng: Self)
        ensures
            rng.0 == seed ^ SEED_MIX,
    {
        Self(seed ^ SEED_MIX)
    }

    pub fn next_u64(&mut self) -> (x: u64)
        ensures
            final(self).0 == advance(old(self).0),
            x == draw(old(self).0),
    {
        self.0 = self.0.wrapping_add(GOLDEN_GAMMA);
        let mut z = self.0;
        z = (z ^ (z >> 30u64)).wrapping_mul(0xbf58476d1ce4e5b9u64);
        z = (z ^ (z >> 27u64)).wrapping_mul(0x94d049bb133111ebu64);
        z ^ (z >> 31u64)
    }

    pub fn gen_range(&mut self, low: usize, high: usize) -> (r: usize)
        ensures
            r == range_pick(old(self).0, low as nat, high as nat),
            final(self).0 == range_state(old(self).0, low as nat, high as nat),
            low < high ==> low <= r < high,
            high <= low ==> r == low,
    {
        if high <= low {
            return low;
        }
        let range = (high - low) as u64;
        let x = self.next_u64();
        assert((x as u128) * (range as u128) <= u128::MAX) by (nonlinear_arith)
            requires x <= u64::MAX, range <= u64::MAX;
        let prod: u128 = x as u128 * range as u128;
        let r128 = prod >> 64u128;
        proof {
            vstd::bits::lemma_u128_shr_is_div(prod, 64u128);
            vstd::arithmetic::power2::lemma2_to64();
            lemma_scale_below(x, range as nat);
        }
        let r = r128 as usize;
        low + r
    }

    pub fn shuffle<T>(&mut self, slice: &mut [T])
        ensures
            (final(slice)@, final(self).0) == shuffled(old(slice)@, old(self).0),
    {
        let len = slice.len();
        if len <= 1 {
            return;
        }
        let mut i = len - 1;
        while i >= 1
            invariant
                1 <= len,
                i < len,
                slice@.len() == len,
                shuffle_from(slice@, self.0, i as nat) == shuffled(old(slice)@, old(self).0),
            decreases i,
        {
            let j = self.gen_range(0, i + 1);
            slice.swap(i, j);
            i = i - 1;
        }
    }
}

/// `scale(x, range)` lies below `range`.
pub proof fn lemma_scale_below(x: u64, range: nat)
    requires
        range > 0,
    ensures
        scale(x, range) < range,
{
    assert(x as nat * range < 0x1_0000_0000_0000_0000nat * range) by (nonlinear_arith)
        requires x < 0x1_0000_0000_0000_0000nat, range > 0;
    assert((x as nat * range) / 0x1_0000_0000_0000_0000nat < range) by (nonlinear_arith)
        requires x as nat * range < 0x1_0000_0000_0000_0000nat * range;
}

/// Shuffling only rearranges the elements.
pub proof fn lemma_shuffle_from_permutes<T>(s: Seq<T>, state: u64, i: nat)
    requires
        i < s.len(),
    ensures
        shuffle_from(s, state, i).0.to_multiset() == s.to_multiset(),
        shuffle_from(s, state, i).0.len() == s.len(),
    decreases i,
{
    if i > 0 {
        let j = range_pick(state, 0, i + 1);
        lemma_scale_below(draw(state), i + 1);
        lemma_swap_permutes(s, i as int, j as int);
        lemma_shuffle_from_permutes(swap_seq(s, i as int, j as int), advance(state), (i - 1) as nat);
    }
}

/// Exchanging two elements keeps the multiset of a sequence.
pub proof fn lemma_swap_permutes<T>(s: Seq<T>, i: int, j: int)
    requires
        0 <= i < s.len(),
        0 <= j < s.len(),
    ensures
        swap_seq(s, i, j).to_multiset() == s.to_multiset(),
        swap_seq(s, i, j).len() == s.len(),
{
    broadcast use vstd::seq_lib::group_to_multiset_ensures;
    if i != j {
        let t = s.update(i, s[j]);
        vstd::seq_lib::to_multiset_update(s, i, s[j]);
        vstd::seq_lib::to_multiset_update(t, j, s[i]);
        assert(t[j] == s[j]);
        assert(swap_seq(s, i, j).to_multiset() =~= s.to_multiset()) by {
            broadcast use vstd::multiset::group_multiset_axioms;
        }
    }
}

/// The shuffled sequence is a permutation of the original.
pub proof fn lemma_shuffled_permutes<T>(s: Seq<T>, state: u64)
    ensures
        shuffled(s, state).0.to_multiset() == s.to_multiset(),
        shuffled(s, state).0.len() == s.len(),
{
    if s.len() > 1 {
        lemma_shuffle_from_permutes(s, state, (s.len() - 1) as nat);
    }
}

/// `slice.swap(a, b)` exchanges the elements at `a` and `b` (std documents
/// that it panics when either is out of bounds, so both are required in bounds).
pub assume_specification<Item>[ <[Item]>::swap ](slice: &mut [Item], a: usize, b: usize)
    requires
        a < old(slice)@.len(),
        b < old(slice)@.len(),
    ensures
        final(slice)@ == swap_seq(old(slice)@, a as int, b as int),
;

#[verifier::external_type_specification]
#[verifier::external_body]
pub struct ExSystemTime(std::time::SystemTime);

/// Calls `std::time::SystemTime::now`. Nothing is claimed of the result:
/// it is whatever the system clock reads.
#[verifier::external_body]
fn system_time_now() -> std::time::SystemTime {
    std::time::SystemTime::now()
}

/// Calls `SystemTime::duration_since` with `UNIX_EPOCH`, turning its error
/// (a clock set before the epoch) into `None`. Nothing is claimed of the
/// duration returned.
#[verifier::external_body]
fn since_unix_epoch(t: &std::time::SystemTime) -> Option<std::time::Duration> {
    t.duration_since(std::time::UNIX_EPOCH).ok()
}

/// Calls `Duration::as_nanos`. A `Duration` is opaque here, so nothing is
/// claimed of the number returned.
#[verifier::external_body]
fn duration_as_nanos(d: &std::time::Duration) -> u128 {
    d.as_nanos()
}

/// Nanoseconds since the Unix epoch by the system clock, if it can be read.
fn read_clock_nanos() -> Option<u128> {
    let now = system_time_now();
    match since_unix_epoch(&now) {
        Some(d) => Some(duration_as_nanos(&d)),
        None => None,
    }
}

/// The seed drawn from a clock reading in nanoseconds since the Unix epoch:
/// its low 64 bits, or the fallback seed when the clock could not be read.
pub fn clock_seed(reading: Option<u128>) -> (seed: u64)
    ensures
        seed == match reading {
            Some(ns) => ns as u64,
            None => CLOCK_FALLBACK,
        },
{
    match reading {
        Some(ns) => ns as u64,
        None => CLOCK_FALLBACK,
    }
}

} // verus!
