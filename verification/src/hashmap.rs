//! The hash map over the table generations.
//!
//! Operations locate the current generation, run the probe engine over
//! it, and publish through single-slot transitions. An insert that would
//! push the generation past three quarters full first migrates every slot
//! into the next generation, doubling while the live count warrants it
//! and otherwise rebuilding at the same size to shed tombstones. The
//! sharded counter tracks the live-entry count and answers `len`.

use crate::counter::Counter;
use crate::table::{hash_key, ProbeSlot, Table, MAX_TABLE_LEN};
use vstd::arithmetic::power2::{lemma2_to64, lemma_pow2_adds, pow2};
use vstd::prelude::*;

verus! {

/// Most entries a map accepts: more would outgrow the largest generation
/// at the load bound.
pub const MAX_ENTRIES: usize = 0x0800_0000;

/// Whether `v` is the value of some key of `m`.
pub open spec fn is_value_of(m: Map<u64, u64>, v: u64) -> bool {
    exists|k: u64| #[trigger] m.contains_key(k) && m[k] == v
}

/// A hash table with tag-encoded slots and cooperative growth.
pub struct HashMap {
    table: Table,
    count: Counter,
}

impl View for HashMap {
    type V = Map<u64, u64>;

    /// The mapping held.
    closed spec fn view(&self) -> Map<u64, u64> {
        self.table.view()
    }
}

impl HashMap {
    /// The map's invariant: a well-formed generation, and the counter
    /// carrying the exact live count on the writing thread's shard.
    pub closed spec fn wf(self) -> bool {
        &&& self.table.wf()
        &&& self.count.wf()
        &&& self.count@[0] == self@.dom().len()
        &&& (forall|i: int| 1 <= i < self.count@.len() ==> self.count@[i] == 0)
        &&& self.count.total() == self@.dom().len()
        &&& self@.dom().len() <= MAX_ENTRIES
    }

    /// Creates an empty map of the smallest generation.
    pub fn new() -> (m: HashMap)
        ensures
            m.wf(),
            m@ == Map::<u64, u64>::empty(),
    {
        proof {
            lemma2_to64();
        }
        let table = Table::with_log_groups(0);
        let count = Counter::new();
        let m = HashMap { table, count };
        proof {
            assert(Map::<u64, u64>::empty().dom() =~= Set::<u64>::empty());
        }
        m
    }

    /// Creates an empty map whose first generation holds `capacity`
    /// entries without growing.
    pub fn with_capacity(capacity: usize) -> (m: HashMap)
        requires
            capacity <= MAX_ENTRIES,
        ensures
            m.wf(),
            m@ == Map::<u64, u64>::empty(),
    {
        proof {
            lemma2_to64();
        }
        let mut lg: usize = 0;
        let mut len: usize = 16;
        while 3 * len < 4 * capacity
            invariant
                len == 16 * pow2(lg as nat),
                len <= MAX_TABLE_LEN,
                capacity <= MAX_ENTRIES,
            decreases MAX_TABLE_LEN - len,
        {
            proof {
                lemma2_to64();
                vstd::arithmetic::power2::lemma_pow2_pos(lg as nat);
                if lg >= 27 {
                    vstd::arithmetic::power2::lemma_pow2_strictly_increases(26, lg as nat);
                    assert(false);
                }
                lemma_pow2_adds(1, lg as nat);
            }
            len = len * 2;
            lg = lg + 1;
        }
        let table = Table::with_log_groups(lg);
        let count = Counter::new();
        let m = HashMap { table, count };
        proof {
            assert(Map::<u64, u64>::empty().dom() =~= Set::<u64>::empty());
        }
        m
    }

    /// Migrates into a generation sized for the live count: doubled while
    /// the entries warrant it, else rebuilt as is to shed tombstones.
    fn grow(&mut self)
        requires
            old(self).wf(),
            old(self)@.dom().len() < MAX_ENTRIES,
        ensures
            final(self).wf(),
            final(self)@ == old(self)@,
            4 * (final(self).table.used + 1) <= 3 * final(self).table.slots.len(),
    {
        let live = self.count.sum();
        let mut lg = self.table.log_groups;
        let mut len = self.table.slots.len();
        proof {
            self.table.lemma_ng();
        }
        while 3 * len < 8 * (live + 1)
            invariant
                len == 16 * pow2(lg as nat),
                len <= MAX_TABLE_LEN,
                live + 1 <= MAX_ENTRIES,
            decreases MAX_TABLE_LEN - len,
        {
            proof {
                lemma2_to64();
                vstd::arithmetic::power2::lemma_pow2_pos(lg as nat);
                if lg >= 27 {
                    vstd::arithmetic::power2::lemma_pow2_strictly_increases(26, lg as nat);
                    assert(false);
                }
                lemma_pow2_adds(1, lg as nat);
            }
            len = len * 2;
            lg = lg + 1;
        }
        proof {
            assert(live == self@.dom().len());
            let p = pow2(lg as nat) as int;
            assert(len == 16 * p);
            assert(8 * (live + 1) <= 3 * len);
            assert(4 * (self@.dom().len() + 1) <= 48 * p);
            assert(4 * (self@.dom().len() + 1) <= 3 * 16 * pow2(lg as nat));
        }
        self.table.migrate(lg);
    }

    /// Returns the value published for `k`, if the key is present.
    pub fn get(&self, k: u64) -> (r: Option<u64>)
        requires
            self.wf(),
        ensures
            r == if self@.contains_key(k) {
                Some(self@[k])
            } else {
                None::<u64>
            },
    {
        let h = hash_key(k);
        match self.table.find(k, h) {
            Some(i) => Some(self.table.entry_value(i, k)),
            None => {
                proof {
                    assert(!self.table.has_key(k));
                }
                None
            },
        }
    }

    /// Publishes `v` for `k`, returning the value it replaces.
    pub fn insert(&mut self, k: u64, v: u64) -> (prev: Option<u64>)
        requires
            old(self).wf(),
            old(self)@.dom().len() < MAX_ENTRIES,
        ensures
            final(self).wf(),
            final(self)@ == old(self)@.insert(k, v),
            prev == if old(self)@.contains_key(k) {
                Some(old(self)@[k])
            } else {
                None::<u64>
            },
    {
        let h = hash_key(k);
        if 4 * (self.table.used as u64 + 1) > 3 * (self.table.slots.len() as u64) {
            self.grow();
        }
        match self.table.probe_for_insert(k, h) {
            (ProbeSlot::Existing(i), _) => {
                proof {
                    assert(self.table.has_key(k));
                }
                let prev = self.table.replace(i, k, v);
                Some(prev)
            },
            (ProbeSlot::Install(c), g) => {
                self.table.install(c, k, v, h, g);
                self.count.add(0, 1);
                None
            },
        }
    }

    /// Rewrites the value for `k` to `f` of the current value, returning
    /// the new value; an absent key is left absent.
    pub fn update<F: Fn(u64) -> u64>(&mut self, k: u64, f: F) -> (r: Option<u64>)
        requires
            old(self).wf(),
            forall|x: u64| call_requires(f, (x,)),
        ensures
            final(self).wf(),
            (r matches Some(nv) ==> old(self)@.contains_key(k) && call_ensures(
                f,
                (old(self)@[k],),
                nv,
            ) && final(self)@ == old(self)@.insert(k, nv)),
            (r is None ==> !old(self)@.contains_key(k) && final(self)@ == old(self)@),
    {
        let h = hash_key(k);
        match self.table.find(k, h) {
            Some(i) => {
                let cur = self.table.entry_value(i, k);
                let nv = f(cur);
                let _ = self.table.replace(i, k, nv);
                Some(nv)
            },
            None => {
                proof {
                    assert(!self.table.has_key(k));
                }
                None
            },
        }
    }

    /// Deletes `k`, returning the value it held.
    pub fn remove(&mut self, k: u64) -> (prev: Option<u64>)
        requires
            old(self).wf(),
        ensures
            final(self).wf(),
            final(self)@ == old(self)@.remove(k),
            prev == if old(self)@.contains_key(k) {
                Some(old(self)@[k])
            } else {
                None::<u64>
            },
    {
        let h = hash_key(k);
        match self.table.find(k, h) {
            Some(i) => {
                let v = self.table.remove_at(i, k);
                self.count.add(0, -1);
                Some(v)
            },
            None => {
                proof {
                    assert(!self.table.has_key(k));
                    assert(old(self)@.remove(k) =~= old(self)@);
                }
                None
            },
        }
    }

    /// The live-entry count.
    pub fn len(&self) -> (n: usize)
        requires
            self.wf(),
        ensures
            n == self@.dom().len(),
    {
        self.count.sum()
    }

    /// Whether the map holds no entry.
    pub fn is_empty(&self) -> (r: bool)
        requires
            self.wf(),
        ensures
            r <==> self@.dom().len() == 0,
    {
        self.len() == 0
    }

    /// Snapshots the entries of the current generation: every key the map
    /// holds, exactly once, with its current value.
    pub fn iter(&self) -> (r: Vec<(u64, u64)>)
        requires
            self.wf(),
        ensures
            forall|x: int|
                0 <= x < r.len() ==> self@.contains_key(#[trigger] r@[x].0) && r@[x].1
                    == self@[r@[x].0],
            forall|x: int, y: int|
                0 <= x < r.len() && 0 <= y < r.len() && x != y ==> r@[x].0 != r@[y].0,
            forall|k: u64| self@.contains_key(k) ==> exists|x: int| 0 <= x < r.len() && r@[x].0 == k,
            r.len() == self@.dom().len(),
    {
        self.table.collect_entries()
    }

    /// Snapshots the keys, each exactly once.
    pub fn keys(&self) -> (r: Vec<u64>)
        requires
            self.wf(),
        ensures
            forall|x: int| 0 <= x < r.len() ==> self@.contains_key(#[trigger] r@[x]),
            forall|x: int, y: int| 0 <= x < r.len() && 0 <= y < r.len() && x != y ==> r@[x] != r@[y],
            forall|k: u64| self@.contains_key(k) ==> exists|x: int| 0 <= x < r.len() && r@[x] == k,
            r.len() == self@.dom().len(),
    {
        let entries = self.iter();
        let mut r: Vec<u64> = Vec::new();
        let mut j: usize = 0;
        while j < entries.len()
            invariant
                j == r.len() <= entries.len(),
                forall|x: int| 0 <= x < j ==> r@[x] == entries@[x].0,
            decreases entries.len() - j,
        {
            let p = entries[j];
            r.push(p.0);
            j = j + 1;
        }
        proof {
            assert forall|k: u64| self@.contains_key(k) implies exists|x: int|
                0 <= x < r.len() && r@[x] == k by {
                let x = choose|x: int| 0 <= x < entries.len() && entries@[x].0 == k;
                assert(r@[x] == k);
            }
        }
        r
    }

    /// Snapshots the values, in the same order as `keys`.
    pub fn values(&self) -> (r: Vec<u64>)
        requires
            self.wf(),
        ensures
            forall|x: int| 0 <= x < r.len() ==> is_value_of(self@, #[trigger] r@[x]),
            r.len() == self@.dom().len(),
    {
        let entries = self.iter();
        let mut r: Vec<u64> = Vec::new();
        let mut j: usize = 0;
        while j < entries.len()
            invariant
                j == r.len() <= entries.len(),
                forall|x: int| 0 <= x < j ==> r@[x] == entries@[x].1,
            decreases entries.len() - j,
        {
            let p = entries[j];
            r.push(p.1);
            j = j + 1;
        }
        proof {
            assert forall|x: int| 0 <= x < r.len() implies is_value_of(
                self@,
                #[trigger] r@[x],
            ) by {
                let k0 = entries@[x].0;
                assert(self@.contains_key(k0) && self@[k0] == r@[x]);
            }
            assert(r.len() == self@.dom().len());
        }
        r
    }

    /// Empties the map, keeping the generation size.
    pub fn clear(&mut self)
        requires
            old(self).wf(),
        ensures
            final(self).wf(),
            final(self)@ == Map::<u64, u64>::empty(),
    {
        proof {
            self.table.lemma_ng();
        }
        let lg = self.table.log_groups;
        self.table = Table::with_log_groups(lg);
        self.count = Counter::new();
        proof {
            assert(Map::<u64, u64>::empty().dom() =~= Set::<u64>::empty());
        }
    }
}

} // verus!
