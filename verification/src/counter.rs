//! A sharded occupancy counter.
//!
//! Each shard sits on its own cache line and a thread identifier is masked
//! to pick a shard, so concurrent increments and decrements spread out.
//! The sum over the shards is the table's live-entry count; an order of
//! deletions and insertions that drives the running total negative reads
//! as an empty table.

use crate::utils::CachePadded;
use vstd::prelude::*;

verus! {

/// Number of counter shards: a power of two, so masking picks a shard.
pub const SHARDS: usize = 8;

/// Sum of the first `n` shard values.
pub open spec fn sum_shards(s: Seq<int>, n: int) -> int
    decreases n,
{
    if n <= 0 {
        0
    } else {
        sum_shards(s, n - 1) + s[n - 1]
    }
}

/// A sum of all-zero shards is zero.
pub proof fn lemma_sum_zero(s: Seq<int>, n: int)
    requires
        0 <= n <= s.len(),
        forall|i: int| 0 <= i < n ==> s[i] == 0,
    ensures
        sum_shards(s, n) == 0,
    decreases n,
{
    if n > 0 {
        lemma_sum_zero(s, n - 1);
    }
}

/// Changing one shard changes the sum by the same amount.
pub proof fn lemma_sum_update(s: Seq<int>, i: int, v: int, n: int)
    requires
        0 <= i < n <= s.len(),
    ensures
        sum_shards(s.update(i, v), n) == sum_shards(s, n) + v - s[i],
    decreases n,
{
    if i < n - 1 {
        lemma_sum_update(s, i, v, n - 1);
    } else {
        assert(s.update(i, v) =~= s.update(i, v));
        lemma_sum_same(s, s.update(i, v), n - 1);
    }
}

/// Sums agree on a prefix where the shards agree.
pub proof fn lemma_sum_same(s1: Seq<int>, s2: Seq<int>, n: int)
    requires
        0 <= n <= s1.len(),
        n <= s2.len(),
        forall|i: int| 0 <= i < n ==> s1[i] == s2[i],
    ensures
        sum_shards(s1, n) == sum_shards(s2, n),
    decreases n,
{
    if n > 0 {
        lemma_sum_same(s1, s2, n - 1);
    }
}

/// With no shard negative, each shard is at most the sum.
pub proof fn lemma_sum_bounds(s: Seq<int>, n: int)
    requires
        0 <= n <= s.len(),
        forall|i: int| 0 <= i < n ==> s[i] >= 0,
    ensures
        sum_shards(s, n) >= 0,
        forall|i: int| 0 <= i < n ==> s[i] <= sum_shards(s, n),
    decreases n,
{
    if n > 0 {
        lemma_sum_bounds(s, n - 1);
    }
}

/// A sharded atomic counter.
pub struct Counter {
    shards: Vec<CachePadded<isize>>,
}

impl Counter {
    /// The shard values.
    pub closed spec fn view(self) -> Seq<int> {
        self.shards@.map_values(|c: CachePadded<isize>| c.value as int)
    }

    /// The counter holds its fixed shard count.
    pub open spec fn wf(self) -> bool {
        self@.len() == SHARDS
    }

    /// The running total over all shards.
    pub open spec fn total(self) -> int {
        sum_shards(self@, self@.len() as int)
    }

    /// Creates a counter with every shard zero.
    pub fn new() -> (c: Counter)
        ensures
            c.wf(),
            c.total() == 0,
            forall|i: int| 0 <= i < SHARDS ==> c@[i] == 0,
    {
        let mut shards: Vec<CachePadded<isize>> = Vec::new();
        let mut j: usize = 0;
        while j < SHARDS
            invariant
                j == shards.len() <= SHARDS,
                forall|i: int| 0 <= i < j ==> shards@[i].value == 0,
            decreases SHARDS - j,
        {
            shards.push(CachePadded { value: 0isize });
            j = j + 1;
        }
        let c = Counter { shards };
        proof {
            assert(forall|i: int| 0 <= i < SHARDS ==> c@[i] == 0);
            lemma_sum_zero(c@, SHARDS as int);
        }
        c
    }

    /// Returns the value of the shard for the given thread.
    pub fn get(&self, thread: usize) -> (r: isize)
        requires
            self.wf(),
        ensures
            r as int == self@[(thread % 8) as int],
    {
        assert(thread & 7 == thread % 8) by (bit_vector);
        assert(thread % 8 < 8) by (bit_vector);
        self.shards[thread & 7].value
    }

    /// Adds `delta` to the shard for the given thread.
    pub fn add(&mut self, thread: usize, delta: isize)
        requires
            old(self).wf(),
            isize::MIN <= old(self)@[(thread % 8) as int] + delta <= isize::MAX,
        ensures
            final(self).wf(),
            final(self)@ == old(self)@.update((thread % 8) as int, old(self)@[(thread
                % 8) as int] + delta),
            final(self).total() == old(self).total() + delta,
    {
        assert(thread & 7 == thread % 8) by (bit_vector);
        assert(thread % 8 < 8) by (bit_vector);
        let i: usize = thread & 7;
        let v: isize = self.shards[i].value;
        self.shards[i] = CachePadded { value: v + delta };
        proof {
            assert(self@ =~= old(self)@.update(i as int, old(self)@[i as int] + delta));
            lemma_sum_update(old(self)@, i as int, old(self)@[i as int] + delta, SHARDS as int);
        }
    }

    /// Returns the clamped sum of all counter shards: a total that is
    /// negative, or too large for a word, reads as an empty table.
    pub fn sum(&self) -> (r: usize)
        requires
            self.wf(),
        ensures
            r == if 0 <= self.total() <= usize::MAX { self.total() } else { 0 },
    {
        let mut acc: i128 = 0;
        let mut j: usize = 0;
        while j < SHARDS
            invariant
                self.wf(),
                j <= SHARDS,
                acc as int == sum_shards(self@, j as int),
                acc >= (j as int) * (-0x8000_0000_0000_0000),
                acc <= (j as int) * 0x7fff_ffff_ffff_ffff,
            decreases SHARDS - j,
        {
            let v: isize = self.shards[j].value;
            acc = acc + v as i128;
            j = j + 1;
        }
        if acc < 0 || acc > usize::MAX as i128 {
            0
        } else {
            acc as usize
        }
    }

    /// Returns the number of active entries: the clamped shard sum.
    pub fn active(&self) -> (r: usize)
        requires
            self.wf(),
        ensures
            r == if 0 <= self.total() <= usize::MAX { self.total() } else { 0 },
    {
        self.sum()
    }
}

impl Default for Counter {
    /// An all-zero counter.
    fn default() -> (c: Counter)
        ensures
            c.wf(),
            c.total() == 0,
            forall|i: int| 0 <= i < SHARDS ==> c@[i] == 0,
    {
        Counter::new()
    }
}

} // verus!
