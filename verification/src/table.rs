//! One table generation and the probe engine over it.
//!
//! A generation is a power-of-two array of slots, a parallel array of
//! metadata bytes, and the bookkeeping the resize protocol needs. Each
//! slot word is tag-encoded: zero for a never-written slot, a tagged null
//! for a tombstone, and the entry's address with `TAG_LIVE` for a
//! published entry. The model holds each entry beside its slot word at a
//! fixed stand-in address; the word's tag bits stay authoritative, and
//! every transition walks the same state machine as the slot's atomic
//! pointer: empty to live, live to live, live to tombstone, and any state
//! to copied during a migration.

use crate::group::{any_empty, bit_set, match_byte, META_EMPTY};
use crate::probe::{lemma_probe_covers, lemma_probe_step, probe_group, tri};
use vstd::arithmetic::div_mod::{
    lemma_add_mod_noop_right, lemma_div_multiples_vanish, lemma_fundamental_div_mod,
    lemma_fundamental_div_mod_converse, lemma_mod_bound,
};
use vstd::pervasive::VecAdditionalExecFns;
use vstd::arithmetic::power2::{lemma2_to64, lemma_pow2_adds, lemma_pow2_pos, pow2};
use vstd::prelude::*;
use vstd::set_lib::lemma_len_subset;

use crate::tagged::{AtomicPtrFetchOps, TAG_COPIED, TAG_LOCKED, TAG_TOMBSTONE};

verus! {

/// Largest slot count a generation may reach.
pub const MAX_TABLE_LEN: usize = 0x4000_0000;

/// The aligned stand-in address of a published entry: the model keeps the
/// entry beside its slot word, so every live slot word carries this
/// address with the live tag (zero) in its low bits.
pub const ENTRY_ADDR: usize = 8;

/// An immutable published record.
#[derive(Clone, Copy)]
pub struct Entry {
    pub key: u64,
    pub value: u64,
    pub hash: u64,
}

/// One table cell: a tag-encoded word next to the entry it stands for.
#[derive(Clone, Copy)]
pub struct Slot {
    pub word: usize,
    pub entry: Option<Entry>,
}

/// The keyed finalizing hash over a key.
pub open spec fn spec_hash(k: u64) -> u64 {
    ((k % 0x1_0000_0000) * 0x9E37_79B9 + k / 0x1_0000_0000) as u64
}

/// The filter byte: the low seven bits of a hash.
pub open spec fn spec_h2(h: u64) -> u8 {
    (h % 128) as u8
}

/// The probe-start bits: the hash above the filter byte.
pub open spec fn spec_h1(h: u64) -> u64 {
    h / 128
}

/// Hashes a key.
pub fn hash_key(k: u64) -> (h: u64)
    ensures
        h == spec_hash(k),
{
    let low = k % 0x1_0000_0000;
    proof {
        assert(low * 0x9E37_79B9 <= 0xffff_ffff * 0x9E37_79B9) by (nonlinear_arith)
            requires
                low <= 0xffff_ffff,
        ;
    }
    low * 0x9E37_79B9 + k / 0x1_0000_0000
}

/// Count of never-written slots among the first `n`.
pub open spec fn count_empty(s: Seq<Slot>, n: int) -> int
    decreases n,
{
    if n <= 0 {
        0
    } else {
        count_empty(s, n - 1) + if s[n - 1].word == 0 {
            1int
        } else {
            0int
        }
    }
}

/// Count of live slots among the first `n`.
pub open spec fn count_live(s: Seq<Slot>, n: int) -> int
    decreases n,
{
    if n <= 0 {
        0
    } else {
        count_live(s, n - 1) + if s[n - 1].word == ENTRY_ADDR {
            1int
        } else {
            0int
        }
    }
}

/// Both counts sit between zero and `n`.
pub proof fn lemma_count_bounds(s: Seq<Slot>, n: int)
    requires
        0 <= n <= s.len(),
    ensures
        0 <= count_empty(s, n) <= n,
        0 <= count_live(s, n) <= n,
    decreases n,
{
    if n > 0 {
        lemma_count_bounds(s, n - 1);
    }
}

/// Counts over a sequence with one slot changed.
pub proof fn lemma_count_update(s: Seq<Slot>, i: int, v: Slot, n: int)
    requires
        0 <= i < n <= s.len(),
    ensures
        count_empty(s.update(i, v), n) == count_empty(s, n) - (if s[i].word == 0 {
            1int
        } else {
            0int
        }) + (if v.word == 0 {
            1int
        } else {
            0int
        }),
        count_live(s.update(i, v), n) == count_live(s, n) - (if s[i].word == ENTRY_ADDR {
            1int
        } else {
            0int
        }) + (if v.word == ENTRY_ADDR {
            1int
        } else {
            0int
        }),
    decreases n,
{
    if i < n - 1 {
        lemma_count_update(s, i, v, n - 1);
    } else {
        lemma_count_same(s, s.update(i, v), n - 1);
    }
}

/// Counts agree on a prefix where the slots agree.
pub proof fn lemma_count_same(s1: Seq<Slot>, s2: Seq<Slot>, n: int)
    requires
        0 <= n <= s1.len(),
        n <= s2.len(),
        forall|i: int| 0 <= i < n ==> s1[i] == s2[i],
    ensures
        count_empty(s1, n) == count_empty(s2, n),
        count_live(s1, n) == count_live(s2, n),
    decreases n,
{
    if n > 0 {
        lemma_count_same(s1, s2, n - 1);
    }
}

/// A table with some never-written slot left has a positive empty count.
pub proof fn lemma_count_empty_exists(s: Seq<Slot>, n: int)
    requires
        0 <= n <= s.len(),
        count_empty(s, n) > 0,
    ensures
        exists|i: int| 0 <= i < n && s[i].word == 0,
    decreases n,
{
    if n > 0 && s[n - 1].word != 0 {
        lemma_count_empty_exists(s, n - 1);
    }
}

/// With every slot written, the empty count is zero.
pub proof fn lemma_count_empty_none(s: Seq<Slot>, n: int)
    requires
        0 <= n <= s.len(),
        forall|i: int| 0 <= i < n ==> s[i].word == 0,
    ensures
        count_empty(s, n) == n,
        count_live(s, n) == 0,
    decreases n,
{
    if n > 0 {
        lemma_count_empty_none(s, n - 1);
    }
}

/// The load bound carries from the live-key count to a generation whose
/// occupancy it caps.
pub proof fn lemma_load_bound(used: int, d1: int, d2: int, len: int, p: int)
    requires
        used <= d1,
        d1 <= d2,
        4 * (d2 + 1) <= 48 * p,
        len == 16 * p,
    ensures
        4 * (used + 1) <= 3 * len,
{
}

/// Where an insert probe ended: at the key's live slot, or at the
/// reusable slot the new entry should be published into.
pub enum ProbeSlot {
    /// The key is present in this slot.
    Existing(usize),
    /// The key is absent; this never-written or tombstone slot is the
    /// insert candidate.
    Install(usize),
}

/// One generation of the table.
pub struct Table {
    /// The metadata byte of each slot: its hash fragment while live, the
    /// empty sentinel while never written.
    pub meta: Vec<u8>,
    /// The slots.
    pub slots: Vec<Slot>,
    /// The slot-index mask: the slot count less one.
    pub mask: usize,
    /// How many slots have ever been written: live slots plus tombstones.
    pub used: usize,
    /// The group count's exponent.
    pub log_groups: usize,
    /// For each live slot, the probe step at which its key's probe reaches
    /// its group.
    pub pos: Ghost<Map<int, nat>>,
}

impl Table {
    /// Slot count.
    pub open spec fn len(self) -> int {
        self.slots.len() as int
    }

    /// Group count.
    pub open spec fn ng(self) -> int {
        self.len() / 16
    }

    /// Group where the probe for key `k` starts.
    pub open spec fn start_group(self, k: u64) -> int {
        spec_h1(spec_hash(k)) as int % self.ng()
    }

    /// Whether slot `i` holds a published entry.
    pub open spec fn is_live(self, i: int) -> bool {
        self.slots[i].word == ENTRY_ADDR
    }

    /// Whether slot `i` was never written.
    pub open spec fn is_empty_slot(self, i: int) -> bool {
        self.slots[i].word == 0
    }

    /// Whether slot `i` holds a tombstone.
    pub open spec fn is_tombstone(self, i: int) -> bool {
        self.slots[i].word == TAG_TOMBSTONE
    }

    /// Whether slot `i` holds a published entry for key `k`.
    pub open spec fn live_key(self, i: int, k: u64) -> bool {
        self.is_live(i) && self.slots[i].entry->Some_0.key == k
    }

    /// A slot's word, its entry, and its metadata byte agree.
    pub open spec fn slot_wf(self, i: int) -> bool {
        let s = self.slots[i];
        &&& (s.word == 0 || s.word == TAG_TOMBSTONE || s.word == ENTRY_ADDR)
        &&& (s.word == ENTRY_ADDR ==> s.entry is Some && s.entry->Some_0.hash == spec_hash(
            s.entry->Some_0.key,
        ) && self.meta[i] == spec_h2(s.entry->Some_0.hash))
        &&& (s.word == 0 ==> s.entry is None && self.meta[i] == META_EMPTY)
        &&& (s.word == TAG_TOMBSTONE ==> s.entry is None && self.meta[i] < 128)
    }

    /// Whether group `g` holds a never-written slot.
    pub open spec fn group_has_empty(self, g: int) -> bool {
        exists|i: int| 16 * g <= i < 16 * g + 16 && self.is_empty_slot(i)
    }

    /// Whether group `g` holds a published entry for key `k`.
    pub open spec fn group_has_live_key(self, g: int, k: u64) -> bool {
        exists|i: int| 16 * g <= i < 16 * g + 16 && self.live_key(i, k)
    }

    /// The live slot `i` is reachable by its key's probe: the probe walks
    /// to the slot's group without crossing a group that holds a
    /// never-written slot.
    pub open spec fn witness_ok(self, i: int) -> bool {
        let k = self.slots[i].entry->Some_0.key;
        let n = self.pos@[i];
        &&& self.pos@.dom().contains(i)
        &&& n < self.ng()
        &&& i / 16 == probe_group(self.start_group(k), n, self.ng())
        &&& forall|m: nat|
            m < n ==> !self.group_has_empty(
                #[trigger] probe_group(self.start_group(k), m, self.ng()),
            )
    }

    /// No key is live in two slots.
    pub open spec fn unique_keys(self) -> bool {
        forall|i: int, j: int|
            0 <= i < self.len() && 0 <= j < self.len() && i != j && #[trigger] self.is_live(i)
                && #[trigger] self.is_live(j) ==> self.slots[i].entry->Some_0.key
                != self.slots[j].entry->Some_0.key
    }

    /// The generation's invariant.
    pub open spec fn wf(self) -> bool {
        &&& self.meta.len() == self.slots.len()
        &&& self.slots.len() == 16 * pow2(self.log_groups as nat)
        &&& self.slots.len() <= MAX_TABLE_LEN
        &&& self.mask == self.slots.len() - 1
        &&& (forall|i: int| 0 <= i < self.len() ==> #[trigger] self.slot_wf(i))
        &&& self.unique_keys()
        &&& (forall|i: int| 0 <= i < self.len() && #[trigger] self.is_live(i) ==> self.witness_ok(i))
        &&& self.used == self.len() - count_empty(self.slots@, self.len())
        &&& 4 * self.used <= 3 * self.len()
        &&& self.view().dom().finite()
    }

    /// Whether some live slot holds key `k`.
    pub open spec fn has_key(self, k: u64) -> bool {
        exists|i: int| 0 <= i < self.len() && #[trigger] self.live_key(i, k)
    }

    /// The live slot holding key `k`.
    pub open spec fn slot_for(self, k: u64) -> int {
        choose|i: int| 0 <= i < self.len() && #[trigger] self.live_key(i, k)
    }

    /// The value published for key `k`.
    pub open spec fn value_for(self, k: u64) -> u64 {
        self.slots[self.slot_for(k)].entry->Some_0.value
    }

    /// The mapping the generation holds.
    pub open spec fn view(self) -> Map<u64, u64> {
        Map::new(|k: u64| self.has_key(k), |k: u64| self.value_for(k))
    }

    /// The group count is the power of two on record.
    pub proof fn lemma_ng(self)
        requires
            self.wf(),
        ensures
            self.ng() == pow2(self.log_groups as nat),
            self.ng() >= 1,
            self.len() == 16 * self.ng(),
    {
        lemma_pow2_pos(self.log_groups as nat);
        lemma_div_multiples_vanish(pow2(self.log_groups as nat) as int, 16);
        assert(16 * pow2(self.log_groups as nat) as int / 16 == pow2(self.log_groups as nat) as int);
    }

    /// Creates a generation of `16 * 2^lg` never-written slots.
    pub fn with_log_groups(lg: usize) -> (t: Table)
        requires
            16 * pow2(lg as nat) <= MAX_TABLE_LEN,
        ensures
            t.wf(),
            t.view() == Map::<u64, u64>::empty(),
            t.log_groups == lg,
            t.used == 0,
            t.slots.len() == 16 * pow2(lg as nat),
            forall|i: int| 0 <= i < t.len() ==> t.is_empty_slot(i),
    {
        let mut len: usize = 16;
        let mut j: usize = 0;
        proof {
            lemma2_to64();
        }
        while j < lg
            invariant
                j <= lg,
                len == 16 * pow2(j as nat),
                16 * pow2(lg as nat) <= MAX_TABLE_LEN,
            decreases lg - j,
        {
            proof {
                lemma_pow2_adds(1, j as nat);
                lemma2_to64();
                if ((j + 1) as nat) < (lg as nat) {
                    vstd::arithmetic::power2::lemma_pow2_strictly_increases(
                        (j + 1) as nat,
                        lg as nat,
                    );
                }
            }
            len = len * 2;
            j = j + 1;
        }
        let mut meta: Vec<u8> = Vec::new();
        let mut i: usize = 0;
        while i < len
            invariant
                i == meta.len() <= len,
                forall|b: int| 0 <= b < i ==> meta[b] == META_EMPTY,
            decreases len - i,
        {
            meta.push(META_EMPTY);
            i = i + 1;
        }
        let mut slots: Vec<Slot> = Vec::new();
        let mut i2: usize = 0;
        while i2 < len
            invariant
                i2 == slots.len() <= len,
                forall|b: int| 0 <= b < i2 ==> slots[b].word == 0 && slots[b].entry is None,
            decreases len - i2,
        {
            slots.push(Slot { word: 0, entry: None });
            i2 = i2 + 1;
        }
        proof {
            lemma_pow2_pos(lg as nat);
        }
        let t = Table {
            meta,
            slots,
            mask: len - 1,
            used: 0,
            log_groups: lg,
            pos: Ghost(Map::empty()),
        };
        proof {
            lemma_count_empty_none(t.slots@, t.len());
            assert(forall|k: u64| !t.has_key(k));
            assert(t.view() =~= Map::<u64, u64>::empty());
        }
        t
    }

    /// Probes for `k`: the index of its live slot, if the key is present.
    ///
    /// The probe walks triangular groups from the key's start group. In
    /// each group it checks the slots whose metadata byte matches the
    /// key's hash fragment; a group with a never-written slot ends the
    /// probe, since an insert of the key could not have passed it.
    #[verifier::loop_isolation(false)]
    #[verifier::rlimit(100)]
    pub fn find(&self, k: u64, h: u64) -> (r: Option<usize>)
        requires
            self.wf(),
            h == spec_hash(k),
        ensures
            match r {
                Some(i) => i < self.slots.len() && self.live_key(i as int, k),
                None => !self.has_key(k),
            },
    {
        proof {
            self.lemma_ng();
        }
        let len = self.slots.len();
        let ng = len / 16;
        let h2 = (h % 128) as u8;
        proof {
            lemma_mod_bound((h / 128) as int, ng as int);
        }
        let start = ((h / 128) % (ng as u64)) as usize;
        let ghost startg: int = self.start_group(k);
        assert(start as int == startg);
        proof {
            assert(tri(0) == 0);
            vstd::arithmetic::div_mod::lemma_small_mod(startg as nat, self.ng() as nat);
        }
        let mut g = start;
        let mut n: usize = 0;
        while n < ng
            invariant
                g as int == probe_group(startg, n as nat, self.ng()),
                g < ng,
                n <= ng,
                forall|m: nat|
                    m < n ==> !self.group_has_empty(#[trigger] probe_group(startg, m, self.ng())),
                forall|m: nat|
                    m < n ==> !self.group_has_live_key(
                        #[trigger] probe_group(startg, m, self.ng()),
                        k,
                    ),
            decreases ng - n,
        {
            let base = g * 16;
            assert(base + 16 <= len);
            let mut mask = match_byte(&self.meta, base, h2);
            let ghost mask0: u16 = mask@;
            #[verifier::loop_isolation(true)]
            loop
                invariant
                    self.wf(),
                    h == spec_hash(k),
                    base + 16 <= self.slots.len(),
                    h2 == spec_h2(spec_hash(k)),
                    forall|b: u16| b < 16 && bit_set(mask@, b) ==> bit_set(mask0, b),
                    forall|b: u16|
                        b < 16 && bit_set(mask0, b) && !bit_set(mask@, b) ==> !self.live_key(
                            base + b,
                            k,
                        ),
                ensures
                    forall|b: u16| b < 16 && bit_set(mask0, b) ==> !self.live_key(base + b, k),
                decreases mask@,
            {
                match mask.next() {
                    None => {
                        proof {
                            assert forall|b: u16| b < 16 && bit_set(mask0, b) implies !self
                                .live_key(base + b, k) by {
                                assert(!bit_set(0u16, b)) by (bit_vector);
                            }
                        }
                        break ;
                    },
                    Some(b) => {
                        let i = base + b;
                        let s = self.slots[i];
                        if s.word == ENTRY_ADDR {
                            match s.entry {
                                Some(e) => {
                                    if e.key == k {
                                        return Some(i);
                                    }
                                },
                                None => {
                                    proof {
                                        assert(self.slot_wf(i as int));
                                        assert(false);
                                    }
                                },
                            }
                        }
                    },
                }
            }
            proof {
                assert forall|i2: int|
                    16 * (g as int) <= i2 < 16 * (g as int) + 16 implies !self.live_key(
                    i2,
                    k,
                ) by {
                    if self.live_key(i2, k) {
                        let off = (i2 - 16 * (g as int)) as u16;
                        assert(self.slot_wf(i2));
                        assert(self.meta[i2] == h2);
                        assert(bit_set(mask0, off));
                        assert(!self.live_key(base + off, k));
                    }
                }
                assert(!self.group_has_live_key(g as int, k));
            }
            if any_empty(&self.meta, base) {
                proof {
                    let bi = choose|b2: int| base <= b2 < base + 16 && self.meta@[b2] >= 128;
                    assert(self.slot_wf(bi));
                    assert(self.is_empty_slot(bi));
                    assert(16 * (g as int) <= bi < 16 * (g as int) + 16);
                    assert(self.group_has_empty(g as int));
                    if self.has_key(k) {
                        let i3 = self.slot_for(k);
                        assert(self.live_key(i3, k));
                        assert(self.is_live(i3));
                        assert(self.witness_ok(i3));
                        let nk = self.pos@[i3];
                        lemma_fundamental_div_mod(i3, 16);
                        lemma_mod_bound(i3, 16);
                        let gi = i3 / 16;
                        assert(16 * gi <= i3 < 16 * gi + 16);
                        if nk < n as nat {
                            assert(self.group_has_live_key(probe_group(startg, nk, self.ng()), k));
                            assert(false);
                        } else if nk == n as nat {
                            assert(self.group_has_live_key(g as int, k));
                            assert(false);
                        } else {
                            assert(!self.group_has_empty(
                                probe_group(startg, n as nat, self.ng()),
                            ));
                            assert(false);
                        }
                    }
                }
                return None;
            }
            proof {
                assert forall|i2: int|
                    16 * (g as int) <= i2 < 16 * (g as int) + 16 implies !self.is_empty_slot(
                    i2,
                ) by {
                    if self.is_empty_slot(i2) {
                        assert(self.slot_wf(i2));
                        assert(self.meta@[i2] >= 128);
                    }
                }
                assert(!self.group_has_empty(g as int));
                lemma_probe_step(startg, n as nat, self.ng());
                lemma_add_mod_noop_right(g as int, (n + 1) as int, self.ng());
                lemma_mod_bound((g + n + 1) as int, self.ng());
            }
            let stride = n + 1;
            g = (g + stride) % ng;
            n = stride;
        }
        proof {
            if self.has_key(k) {
                let i3 = self.slot_for(k);
                assert(self.live_key(i3, k));
                assert(self.witness_ok(i3));
                let nk = self.pos@[i3];
                lemma_fundamental_div_mod(i3, 16);
                lemma_mod_bound(i3, 16);
                let gi = i3 / 16;
                assert(16 * gi <= i3 < 16 * gi + 16);
                assert(self.group_has_live_key(probe_group(startg, nk, self.ng()), k));
                assert(false);
            }
        }
        None
    }

    /// A candidate slot for installing key `k`, found at probe step `p`:
    /// reusable, in the group the probe reaches at `p`, with no
    /// never-written slot in any earlier probe group.
    pub open spec fn install_ok(self, c: int, p: nat, k: u64) -> bool {
        &&& 0 <= c < self.len()
        &&& (self.is_empty_slot(c) || self.is_tombstone(c))
        &&& p < self.ng()
        &&& c / 16 == probe_group(self.start_group(k), p, self.ng())
        &&& forall|m: nat|
            m < p ==> !self.group_has_empty(
                #[trigger] probe_group(self.start_group(k), m, self.ng()),
            )
    }

    /// The live slot holding `k` is the one `slot_for` picks.
    pub proof fn lemma_value_at(self, i: int, k: u64)
        requires
            self.unique_keys(),
            0 <= i < self.len(),
            self.live_key(i, k),
        ensures
            self.has_key(k),
            self.slot_for(k) == i,
            self.value_for(k) == self.slots[i].entry->Some_0.value,
    {
        assert(self.has_key(k));
        let j = self.slot_for(k);
        assert(self.live_key(j, k) && 0 <= j < self.len());
        if j != i {
            assert(self.is_live(i) && self.is_live(j));
            assert(false);
        }
    }

    /// Probes for `k` with insert-candidate tracking: either the key's
    /// live slot, or the first reusable slot on the probe path, with the
    /// key then known absent.
    #[verifier::loop_isolation(false)]
    #[verifier::rlimit(100)]
    pub fn probe_for_insert(&self, k: u64, h: u64) -> (r: (ProbeSlot, Ghost<nat>))
        requires
            self.wf(),
            h == spec_hash(k),
        ensures
            (r.0 matches ProbeSlot::Existing(i) ==> i < self.slots.len() && self.live_key(
                i as int,
                k,
            )),
            (r.0 matches ProbeSlot::Install(c) ==> self.install_ok(c as int, r.1@, k)
                && !self.has_key(k)),
    {
        proof {
            self.lemma_ng();
        }
        let len = self.slots.len();
        let ng = len / 16;
        let h2 = (h % 128) as u8;
        proof {
            lemma_mod_bound((h / 128) as int, ng as int);
        }
        let start = ((h / 128) % (ng as u64)) as usize;
        let ghost startg: int = self.start_group(k);
        assert(start as int == startg);
        proof {
            assert(tri(0) == 0);
            vstd::arithmetic::div_mod::lemma_small_mod(startg as nat, self.ng() as nat);
        }
        let mut g = start;
        let mut n: usize = 0;
        let mut cand: Option<usize> = None;
        let ghost mut cpos: nat = 0;
        while n < ng
            invariant
                g as int == probe_group(startg, n as nat, self.ng()),
                g < ng,
                n <= ng,
                forall|m: nat|
                    m < n ==> !self.group_has_empty(#[trigger] probe_group(startg, m, self.ng())),
                forall|m: nat|
                    m < n ==> !self.group_has_live_key(
                        #[trigger] probe_group(startg, m, self.ng()),
                        k,
                    ),
                cand matches Some(ci) ==> self.install_ok(ci as int, cpos, k),
            decreases ng - n,
        {
            let base = g * 16;
            assert(base + 16 <= len);
            let mut mask = match_byte(&self.meta, base, h2);
            let ghost mask0: u16 = mask@;
            #[verifier::loop_isolation(true)]
            loop
                invariant
                    self.wf(),
                    h == spec_hash(k),
                    base + 16 <= self.slots.len(),
                    h2 == spec_h2(spec_hash(k)),
                    forall|b: u16| b < 16 && bit_set(mask@, b) ==> bit_set(mask0, b),
                    forall|b: u16|
                        b < 16 && bit_set(mask0, b) && !bit_set(mask@, b) ==> !self.live_key(
                            base + b,
                            k,
                        ),
                ensures
                    forall|b: u16| b < 16 && bit_set(mask0, b) ==> !self.live_key(base + b, k),
                decreases mask@,
            {
                match mask.next() {
                    None => {
                        proof {
                            assert forall|b: u16| b < 16 && bit_set(mask0, b) implies !self
                                .live_key(base + b, k) by {
                                assert(!bit_set(0u16, b)) by (bit_vector);
                            }
                        }
                        break ;
                    },
                    Some(b) => {
                        let i = base + b;
                        let s = self.slots[i];
                        if s.word == ENTRY_ADDR {
                            match s.entry {
                                Some(e) => {
                                    if e.key == k {
                                        return (ProbeSlot::Existing(i), Ghost(0nat));
                                    }
                                },
                                None => {
                                    proof {
                                        assert(self.slot_wf(i as int));
                                        assert(false);
                                    }
                                },
                            }
                        }
                    },
                }
            }
            proof {
                assert forall|i2: int|
                    16 * (g as int) <= i2 < 16 * (g as int) + 16 implies !self.live_key(
                    i2,
                    k,
                ) by {
                    if self.live_key(i2, k) {
                        let off = (i2 - 16 * (g as int)) as u16;
                        assert(self.slot_wf(i2));
                        assert(self.meta[i2] == h2);
                        assert(bit_set(mask0, off));
                        assert(!self.live_key(base + off, k));
                    }
                }
                assert(!self.group_has_live_key(g as int, k));
            }
            if cand.is_none() {
                let mut b2: usize = 0;
                while b2 < 16
                    invariant
                        b2 <= 16,
                        cand is None ==> forall|b3: int|
                            base <= b3 < base + b2 ==> self.slots[b3].word == ENTRY_ADDR,
                        cand matches Some(ci) ==> self.install_ok(ci as int, cpos, k),
                    decreases 16 - b2,
                {
                    if cand.is_none() {
                        let i = base + b2;
                        let s = self.slots[i];
                        if s.word != ENTRY_ADDR {
                            proof {
                                assert(self.slot_wf(i as int));
                                lemma_fundamental_div_mod_converse(
                                    i as int,
                                    16,
                                    g as int,
                                    b2 as int,
                                );
                                cpos = n as nat;
                            }
                            cand = Some(i);
                        }
                    }
                    b2 = b2 + 1;
                }
            }
            if any_empty(&self.meta, base) {
                proof {
                    let bi = choose|b3: int| base <= b3 < base + 16 && self.meta@[b3] >= 128;
                    assert(self.slot_wf(bi));
                    assert(self.is_empty_slot(bi));
                    assert(16 * (g as int) <= bi < 16 * (g as int) + 16);
                    assert(self.group_has_empty(g as int));
                    if cand is None {
                        assert(self.slots@[bi].word == ENTRY_ADDR);
                        assert(false);
                    }
                    if self.has_key(k) {
                        let i3 = self.slot_for(k);
                        assert(self.live_key(i3, k));
                        assert(self.is_live(i3));
                        assert(self.witness_ok(i3));
                        let nk = self.pos@[i3];
                        lemma_fundamental_div_mod(i3, 16);
                        lemma_mod_bound(i3, 16);
                        let gi = i3 / 16;
                        assert(16 * gi <= i3 < 16 * gi + 16);
                        if nk < n as nat {
                            assert(self.group_has_live_key(probe_group(startg, nk, self.ng()), k));
                            assert(false);
                        } else if nk == n as nat {
                            assert(self.group_has_live_key(g as int, k));
                            assert(false);
                        } else {
                            assert(!self.group_has_empty(probe_group(startg, n as nat, self.ng())));
                            assert(false);
                        }
                    }
                }
                match cand {
                    Some(c) => {
                        return (ProbeSlot::Install(c), Ghost(cpos));
                    },
                    None => {
                        proof {
                            assert(false);
                        }
                    },
                }
            }
            proof {
                assert forall|i2: int|
                    16 * (g as int) <= i2 < 16 * (g as int) + 16 implies !self.is_empty_slot(
                    i2,
                ) by {
                    if self.is_empty_slot(i2) {
                        assert(self.slot_wf(i2));
                        assert(self.meta@[i2] >= 128);
                    }
                }
                assert(!self.group_has_empty(g as int));
                lemma_probe_step(startg, n as nat, self.ng());
                lemma_add_mod_noop_right(g as int, (n + 1) as int, self.ng());
                lemma_mod_bound((g + n + 1) as int, self.ng());
            }
            let stride = n + 1;
            g = (g + stride) % ng;
            n = stride;
        }
        proof {
            assert(count_empty(self.slots@, self.len()) > 0);
            lemma_count_empty_exists(self.slots@, self.len());
            let ei = choose|i: int| 0 <= i < self.len() && self.slots@[i].word == 0;
            lemma_fundamental_div_mod(ei, 16);
            lemma_mod_bound(ei, 16);
            let gstar = ei / 16;
            assert(0 <= gstar < self.ng());
            lemma_probe_covers(startg, self.log_groups as nat, gstar);
            let nstar = choose|n2: nat|
                n2 < pow2(self.log_groups as nat) && probe_group(
                    startg,
                    n2,
                    pow2(self.log_groups as nat) as int,
                ) == gstar;
            assert(self.is_empty_slot(ei));
            assert(16 * gstar <= ei < 16 * gstar + 16);
            assert(self.group_has_empty(probe_group(startg, nstar, self.ng())));
            assert(false);
        }
        vstd::pervasive::unreached()
    }

    /// Publishes a new entry for the absent key `k` into the candidate
    /// slot, after the compare-and-swap that installs the entry's tagged
    /// address and then releases the metadata byte.
    #[verifier::rlimit(100)]
    pub fn install(&mut self, c: usize, k: u64, v: u64, h: u64, Ghost(p): Ghost<nat>)
        requires
            old(self).wf(),
            h == spec_hash(k),
            !old(self).has_key(k),
            old(self).install_ok(c as int, p, k),
            4 * (old(self).used + 1) <= 3 * old(self).len(),
        ensures
            final(self).wf(),
            final(self).view() == old(self).view().insert(k, v),
            final(self).view().dom().len() == old(self).view().dom().len() + 1,
            final(self).slots.len() == old(self).slots.len(),
            final(self).log_groups == old(self).log_groups,
            final(self).used <= old(self).used + 1,
    {
        let was_empty = self.slots[c].word == 0;
        let newslot = Slot { word: ENTRY_ADDR, entry: Some(Entry { key: k, value: v, hash: h }) };
        let ghost t0 = *self;
        self.slots.set(c, newslot);
        self.meta.set(c, (h % 128) as u8);
        if was_empty {
            self.used = self.used + 1;
        }
        proof {
            self.pos@ = t0.pos@.insert(c as int, p);
        }
        proof {
            let t1 = *self;
            t0.lemma_ng();
            lemma_count_update(t0.slots@, c as int, newslot, t0.len());
            assert forall|g2: int|
                0 <= g2 < t1.ng() && #[trigger] t1.group_has_empty(g2) implies t0.group_has_empty(
                g2,
            ) by {
                let i4 = choose|i4: int| 16 * g2 <= i4 < 16 * g2 + 16 && t1.is_empty_slot(i4);
                assert(0 <= i4 < t1.len());
                assert(i4 != c);
                assert(t0.is_empty_slot(i4));
            }
            assert forall|i: int| 0 <= i < t1.len() implies #[trigger] t1.slot_wf(i) by {
                assert(t0.slot_wf(i));
            }
            assert forall|i: int, j: int|
                0 <= i < t1.len() && 0 <= j < t1.len() && i != j && #[trigger] t1.is_live(i)
                    && #[trigger] t1.is_live(j) implies t1.slots[i].entry->Some_0.key
                != t1.slots[j].entry->Some_0.key by {
                if i != c && j != c {
                    assert(t0.is_live(i) && t0.is_live(j));
                } else {
                    let o = if i == c {
                        j
                    } else {
                        i
                    };
                    assert(t0.is_live(o));
                    if t0.slots[o].entry->Some_0.key == k {
                        assert(t0.live_key(o, k));
                        assert(false);
                    }
                }
            }
            assert(t1.unique_keys());
            assert forall|i: int| 0 <= i < t1.len() && #[trigger] t1.is_live(i) implies t1
                .witness_ok(i) by {
                if i == c {
                    assert forall|m: nat|
                        m < p implies !t1.group_has_empty(
                        #[trigger] probe_group(t1.start_group(k), m, t1.ng()),
                    ) by {
                        lemma_mod_bound(t1.start_group(k) + tri(m), t1.ng());
                        assert(!t0.group_has_empty(probe_group(t0.start_group(k), m, t0.ng())));
                    }
                } else {
                    assert(t0.is_live(i));
                    assert(t0.witness_ok(i));
                    let k2 = t0.slots[i].entry->Some_0.key;
                    assert forall|m: nat|
                        m < t1.pos@[i] implies !t1.group_has_empty(
                        #[trigger] probe_group(t1.start_group(k2), m, t1.ng()),
                    ) by {
                        lemma_mod_bound(t1.start_group(k2) + tri(m), t1.ng());
                        assert(!t0.group_has_empty(probe_group(t0.start_group(k2), m, t0.ng())));
                    }
                }
            }
            assert(t1.live_key(c as int, k));
            t1.lemma_value_at(c as int, k);
            assert forall|k2: u64| k2 != k && #[trigger] t0.has_key(k2) implies t1.has_key(k2)
                && t1.value_for(k2) == t0.value_for(k2) by {
                let i0 = t0.slot_for(k2);
                assert(t0.live_key(i0, k2));
                assert(i0 != c);
                assert(t1.live_key(i0, k2));
                t0.lemma_value_at(i0, k2);
                t1.lemma_value_at(i0, k2);
            }
            assert forall|k2: u64| k2 != k && #[trigger] t1.has_key(k2) implies t0.has_key(
                k2,
            ) by {
                let i1 = t1.slot_for(k2);
                assert(t1.live_key(i1, k2));
                assert(i1 != c);
                assert(t0.live_key(i1, k2));
            }
            assert(t1.view() =~= t0.view().insert(k, v));
            assert(t1.view().dom() =~= t0.view().dom().insert(k));
        }
    }

    /// Republishes slot `i` with a new value for its key, after the
    /// compare-and-swap that replaces one live entry by another.
    #[verifier::rlimit(100)]
    pub fn replace(&mut self, i: usize, k: u64, v: u64) -> (prev: u64)
        requires
            old(self).wf(),
            i < old(self).slots.len(),
            old(self).live_key(i as int, k),
        ensures
            final(self).wf(),
            final(self).view() == old(self).view().insert(k, v),
            prev == old(self).view()[k],
            final(self).view().dom() == old(self).view().dom(),
            final(self).slots.len() == old(self).slots.len(),
            final(self).log_groups == old(self).log_groups,
            final(self).used == old(self).used,
    {
        let ghost t0 = *self;
        let s = self.slots[i];
        let e = match s.entry {
            Some(e) => e,
            None => {
                proof {
                    assert(self.slot_wf(i as int));
                    assert(false);
                }
                vstd::pervasive::unreached()
            },
        };
        let newslot = Slot {
            word: ENTRY_ADDR,
            entry: Some(Entry { key: e.key, value: v, hash: e.hash }),
        };
        self.slots.set(i, newslot);
        proof {
            let t1 = *self;
            t0.lemma_ng();
            t0.lemma_value_at(i as int, k);
            lemma_count_update(t0.slots@, i as int, newslot, t0.len());
            assert forall|g2: int|
                0 <= g2 < t1.ng() && #[trigger] t1.group_has_empty(g2) implies t0.group_has_empty(
                g2,
            ) by {
                let i4 = choose|i4: int| 16 * g2 <= i4 < 16 * g2 + 16 && t1.is_empty_slot(i4);
                assert(0 <= i4 < t1.len());
                assert(i4 != i);
                assert(t0.is_empty_slot(i4));
            }
            assert forall|i2: int| 0 <= i2 < t1.len() implies #[trigger] t1.slot_wf(i2) by {
                assert(t0.slot_wf(i2));
            }
            assert forall|i2: int, j2: int|
                0 <= i2 < t1.len() && 0 <= j2 < t1.len() && i2 != j2 && #[trigger] t1.is_live(i2)
                    && #[trigger] t1.is_live(j2) implies t1.slots[i2].entry->Some_0.key
                != t1.slots[j2].entry->Some_0.key by {
                assert(t0.is_live(i2) && t0.is_live(j2));
            }
            assert(t1.unique_keys());
            assert forall|i2: int| 0 <= i2 < t1.len() && #[trigger] t1.is_live(i2) implies t1
                .witness_ok(i2) by {
                assert(t0.is_live(i2));
                assert(t0.witness_ok(i2));
                let k2 = t0.slots[i2].entry->Some_0.key;
                assert(t1.slots[i2].entry->Some_0.key == k2);
                assert forall|m: nat|
                    m < t1.pos@[i2] implies !t1.group_has_empty(
                    #[trigger] probe_group(t1.start_group(k2), m, t1.ng()),
                ) by {
                    lemma_mod_bound(t1.start_group(k2) + tri(m), t1.ng());
                    assert(!t0.group_has_empty(probe_group(t0.start_group(k2), m, t0.ng())));
                }
            }
            assert(t1.live_key(i as int, k));
            t1.lemma_value_at(i as int, k);
            assert forall|k2: u64| k2 != k && #[trigger] t0.has_key(k2) implies t1.has_key(k2)
                && t1.value_for(k2) == t0.value_for(k2) by {
                let i0 = t0.slot_for(k2);
                assert(t0.live_key(i0, k2));
                assert(i0 != i);
                assert(t1.live_key(i0, k2));
                t0.lemma_value_at(i0, k2);
                t1.lemma_value_at(i0, k2);
            }
            assert forall|k2: u64| k2 != k && #[trigger] t1.has_key(k2) implies t0.has_key(
                k2,
            ) by {
                let i1 = t1.slot_for(k2);
                assert(t1.live_key(i1, k2));
                assert(i1 != i);
                assert(t0.live_key(i1, k2));
            }
            assert(t1.view() =~= t0.view().insert(k, v));
            assert(t1.view().dom() =~= t0.view().dom());
        }
        e.value
    }

    /// Deletes the live entry for `k` in slot `i`: the compare-and-swap
    /// that replaces the entry's address by a tombstone-tagged null. The
    /// metadata byte is left as it was, keeping probe chains intact.
    #[verifier::rlimit(100)]
    pub fn remove_at(&mut self, i: usize, k: u64) -> (prev: u64)
        requires
            old(self).wf(),
            i < old(self).slots.len(),
            old(self).live_key(i as int, k),
        ensures
            final(self).wf(),
            final(self).view() == old(self).view().remove(k),
            prev == old(self).view()[k],
            final(self).view().dom().len() == old(self).view().dom().len() - 1,
            final(self).slots.len() == old(self).slots.len(),
            final(self).log_groups == old(self).log_groups,
            final(self).used == old(self).used,
    {
        let ghost t0 = *self;
        let s = self.slots[i];
        let e = match s.entry {
            Some(e) => e,
            None => {
                proof {
                    assert(self.slot_wf(i as int));
                    assert(false);
                }
                vstd::pervasive::unreached()
            },
        };
        let newslot = Slot { word: TAG_TOMBSTONE, entry: None };
        self.slots.set(i, newslot);
        proof {
            let t1 = *self;
            t0.lemma_ng();
            t0.lemma_value_at(i as int, k);
            lemma_count_update(t0.slots@, i as int, newslot, t0.len());
            assert(t0.slot_wf(i as int));
            assert forall|g2: int|
                0 <= g2 < t1.ng() && #[trigger] t1.group_has_empty(g2) implies t0.group_has_empty(
                g2,
            ) by {
                let i4 = choose|i4: int| 16 * g2 <= i4 < 16 * g2 + 16 && t1.is_empty_slot(i4);
                assert(0 <= i4 < t1.len());
                assert(i4 != i);
                assert(t0.is_empty_slot(i4));
            }
            assert forall|i2: int| 0 <= i2 < t1.len() implies #[trigger] t1.slot_wf(i2) by {
                assert(t0.slot_wf(i2));
            }
            assert forall|i2: int, j2: int|
                0 <= i2 < t1.len() && 0 <= j2 < t1.len() && i2 != j2 && #[trigger] t1.is_live(i2)
                    && #[trigger] t1.is_live(j2) implies t1.slots[i2].entry->Some_0.key
                != t1.slots[j2].entry->Some_0.key by {
                assert(t0.is_live(i2) && t0.is_live(j2));
            }
            assert(t1.unique_keys());
            assert forall|i2: int| 0 <= i2 < t1.len() && #[trigger] t1.is_live(i2) implies t1
                .witness_ok(i2) by {
                assert(t0.is_live(i2));
                assert(t0.witness_ok(i2));
                let k2 = t0.slots[i2].entry->Some_0.key;
                assert forall|m: nat|
                    m < t1.pos@[i2] implies !t1.group_has_empty(
                    #[trigger] probe_group(t1.start_group(k2), m, t1.ng()),
                ) by {
                    lemma_mod_bound(t1.start_group(k2) + tri(m), t1.ng());
                    assert(!t0.group_has_empty(probe_group(t0.start_group(k2), m, t0.ng())));
                }
            }
            assert forall|k2: u64| k2 != k && #[trigger] t0.has_key(k2) implies t1.has_key(k2)
                && t1.value_for(k2) == t0.value_for(k2) by {
                let i0 = t0.slot_for(k2);
                assert(t0.live_key(i0, k2));
                assert(i0 != i);
                assert(t1.live_key(i0, k2));
                t0.lemma_value_at(i0, k2);
                t1.lemma_value_at(i0, k2);
            }
            assert forall|k2: u64| #[trigger] t1.has_key(k2) implies k2 != k && t0.has_key(
                k2,
            ) by {
                let i1 = t1.slot_for(k2);
                assert(t1.live_key(i1, k2));
                assert(i1 != i);
                assert(t0.live_key(i1, k2));
                if k2 == k {
                    assert(false);
                }
            }
            assert(t1.view() =~= t0.view().remove(k));
            assert(t1.view().dom() =~= t0.view().dom().remove(k));
        }
        e.value
    }

    /// Migrates every slot into a fresh generation of `16 * 2^new_lg`
    /// slots and swings this table to it.
    ///
    /// Each live source slot is locked, its entry re-probed on the next
    /// generation's wider mask and installed there, and the source marked
    /// copied; never-written slots and tombstones are marked copied with
    /// nothing to carry, which is how a rebuild sheds its tombstones.
    #[verifier::loop_isolation(false)]
    #[verifier::rlimit(100)]
    pub fn migrate(&mut self, new_lg: usize)
        requires
            old(self).wf(),
            16 * pow2(new_lg as nat) <= MAX_TABLE_LEN,
            4 * (old(self).view().dom().len() + 1) <= 3 * 16 * pow2(new_lg as nat),
        ensures
            final(self).wf(),
            final(self).view() == old(self).view(),
            final(self).log_groups == new_lg,
            4 * (final(self).used + 1) <= 3 * final(self).len(),
    {
        let ghost t0 = *old(self);
        proof {
            t0.lemma_ng();
        }
        let mut nt = Table::with_log_groups(new_lg);
        proof {
            assert forall|k: u64| !(#[trigger] nt.has_key(k)) by {
                if nt.has_key(k) {
                    let j = nt.slot_for(k);
                    assert(nt.live_key(j, k));
                    assert(nt.is_empty_slot(j));
                }
            }
        }
        let len = self.slots.len();
        let mut i: usize = 0;
        while i < len
            invariant
                nt.wf(),
                nt.log_groups == new_lg,
                nt.slots.len() == 16 * pow2(new_lg as nat),
                i <= len,
                self.slots.len() == len,
                forall|j: int| i <= j < len ==> self.slots@[j] == t0.slots@[j],
                forall|j: int|
                    0 <= j < i && #[trigger] t0.is_live(j) ==> nt.has_key(
                        t0.slots@[j].entry->Some_0.key,
                    ),
                forall|k: u64|
                    #[trigger] nt.has_key(k) ==> exists|j: int| 0 <= j < i && #[trigger] t0.live_key(
                        j,
                        k,
                    ),
                forall|k: u64| #[trigger] nt.has_key(k) ==> nt.view()[k] == t0.view()[k],
                nt.used <= nt.view().dom().len(),
            decreases len - i,
        {
            let s = self.slots[i];
            proof {
                assert(t0.slot_wf(i as int));
            }
            if s.word == ENTRY_ADDR {
                let e = match s.entry {
                    Some(e) => e,
                    None => {
                        proof {
                            assert(false);
                        }
                        vstd::pervasive::unreached()
                    },
                };
                let mut w = s.word;
                w.fetch_or(TAG_LOCKED);
                self.slots.set(i, Slot { word: w, entry: s.entry });
                proof {
                    if nt.has_key(e.key) {
                        let j = choose|j: int| 0 <= j < i && #[trigger] t0.live_key(j, e.key);
                        assert(t0.is_live(j) && t0.is_live(i as int));
                        assert(false);
                    }
                    assert forall|k: u64|
                        nt.view().dom().contains(k) implies t0.view().dom().contains(k) by {
                        assert(nt.has_key(k));
                        let j = choose|j: int| 0 <= j < i && #[trigger] t0.live_key(j, k);
                        assert(t0.has_key(k));
                    }
                    assert(nt.view().dom().subset_of(t0.view().dom()));
                    lemma_len_subset(nt.view().dom(), t0.view().dom());
                    lemma_load_bound(
                        nt.used as int,
                        nt.view().dom().len() as int,
                        t0.view().dom().len() as int,
                        nt.slots.len() as int,
                        pow2(new_lg as nat) as int,
                    );
                    t0.lemma_value_at(i as int, e.key);
                }
                let ghost ntpre = nt;
                match nt.probe_for_insert(e.key, e.hash) {
                    (ProbeSlot::Existing(_), _) => {
                        proof {
                            assert(false);
                        }
                    },
                    (ProbeSlot::Install(c), g) => {
                        nt.install(c, e.key, e.value, e.hash, g);
                    },
                }
                self.slots.set(i, Slot { word: ENTRY_ADDR | TAG_COPIED, entry: None });
                proof {
                    assert(nt.view() == ntpre.view().insert(e.key, e.value));
                    assert forall|k: u64| #[trigger] nt.has_key(k) implies exists|j: int|
                        0 <= j < i + 1 && #[trigger] t0.live_key(j, k) by {
                        if k == e.key {
                            assert(t0.live_key(i as int, k));
                        } else {
                            assert(nt.view().dom().contains(k));
                            assert(ntpre.view().insert(e.key, e.value).dom().contains(k));
                            assert(ntpre.view().dom().contains(k));
                            assert(ntpre.has_key(k));
                            let j = choose|j: int| 0 <= j < i && #[trigger] t0.live_key(j, k);
                            assert(0 <= j < i + 1 && t0.live_key(j, k));
                        }
                    }
                    assert forall|k: u64| #[trigger] nt.has_key(k) implies nt.view()[k]
                        == t0.view()[k] by {
                        if k == e.key {
                            assert(nt.view()[k] == e.value);
                            assert(t0.view()[k] == t0.value_for(k));
                        } else {
                            assert(nt.view().dom().contains(k));
                            assert(ntpre.view().dom().contains(k));
                            assert(ntpre.has_key(k));
                            assert(nt.view()[k] == ntpre.view()[k]);
                        }
                    }
                    assert forall|j: int|
                        0 <= j < i + 1 && #[trigger] t0.is_live(j) implies nt.has_key(
                        t0.slots@[j].entry->Some_0.key,
                    ) by {
                        let kj = t0.slots@[j].entry->Some_0.key;
                        if j < i {
                            assert(ntpre.has_key(kj));
                            assert(ntpre.view().dom().contains(kj));
                            assert(nt.view().dom().contains(kj));
                            assert(nt.has_key(kj));
                        } else {
                            assert(nt.view().dom().contains(e.key));
                            assert(nt.has_key(e.key));
                        }
                    }
                }
            } else {
                self.slots.set(i, Slot { word: TAG_COPIED, entry: None });
                proof {
                    assert forall|k: u64| #[trigger] nt.has_key(k) implies exists|j: int|
                        0 <= j < i + 1 && #[trigger] t0.live_key(j, k) by {
                        let j = choose|j: int| 0 <= j < i && #[trigger] t0.live_key(j, k);
                        assert(0 <= j < i + 1 && t0.live_key(j, k));
                    }
                }
            }
            i = i + 1;
        }
        proof {
            assert forall|k: u64| #[trigger] t0.has_key(k) implies nt.has_key(k) by {
                let j = t0.slot_for(k);
                assert(t0.live_key(j, k));
                assert(t0.is_live(j));
                assert(nt.has_key(t0.slots@[j].entry->Some_0.key));
            }
            assert forall|k: u64| #[trigger] nt.has_key(k) implies t0.has_key(k) by {
                let j = choose|j: int| 0 <= j < len && #[trigger] t0.live_key(j, k);
                assert(t0.has_key(k));
            }
            assert(nt.view() =~= t0.view());
            assert(nt.view().dom().subset_of(t0.view().dom()));
            lemma_len_subset(nt.view().dom(), t0.view().dom());
            lemma_load_bound(
                nt.used as int,
                nt.view().dom().len() as int,
                t0.view().dom().len() as int,
                nt.slots.len() as int,
                pow2(new_lg as nat) as int,
            );
        }
        *self = nt;
    }

    /// The value of the live slot `i`, which holds key `k`.
    pub fn entry_value(&self, i: usize, k: u64) -> (v: u64)
        requires
            self.wf(),
            i < self.slots.len(),
            self.live_key(i as int, k),
        ensures
            v == self.view()[k],
            self.view().contains_key(k),
    {
        proof {
            self.lemma_value_at(i as int, k);
        }
        match self.slots[i].entry {
            Some(e) => e.value,
            None => {
                proof {
                    assert(self.slot_wf(i as int));
                    assert(false);
                }
                vstd::pervasive::unreached()
            },
        }
    }

    /// Snapshots the live entries in slot order: each key the generation
    /// holds appears exactly once, with its current value.
    #[verifier::loop_isolation(false)]
    #[verifier::rlimit(100)]
    pub fn collect_entries(&self) -> (r: Vec<(u64, u64)>)
        requires
            self.wf(),
        ensures
            forall|x: int|
                0 <= x < r.len() ==> self.view().contains_key(#[trigger] r@[x].0) && r@[x].1
                    == self.view()[r@[x].0],
            forall|x: int, y: int|
                0 <= x < r.len() && 0 <= y < r.len() && x != y ==> r@[x].0 != r@[y].0,
            forall|k: u64|
                self.view().contains_key(k) ==> exists|x: int| 0 <= x < r.len() && r@[x].0 == k,
            r.len() == self.view().dom().len(),
    {
        let mut r: Vec<(u64, u64)> = Vec::new();
        let mut i: usize = 0;
        while i < self.slots.len()
            invariant
                i <= self.slots.len(),
                forall|x: int| #![trigger r@[x]]
                    0 <= x < r.len() ==> self.has_key(r@[x].0) && 0 <= self.slot_for(r@[x].0) < i
                        && self.view().contains_key(r@[x].0) && r@[x].1 == self.view()[r@[x].0],
                forall|x: int, y: int|
                    0 <= x < r.len() && 0 <= y < r.len() && x != y ==> r@[x].0 != r@[y].0,
                forall|j: int|
                    0 <= j < i && #[trigger] self.is_live(j) ==> exists|x: int|
                        0 <= x < r.len() && r@[x].0 == self.slots@[j].entry->Some_0.key,
            decreases self.slots.len() - i,
        {
            let s = self.slots[i];
            if s.word == ENTRY_ADDR {
                match s.entry {
                    Some(e) => {
                        let ghost r0 = r@;
                        proof {
                            assert(self.live_key(i as int, e.key));
                            self.lemma_value_at(i as int, e.key);
                            assert forall|x: int| 0 <= x < r0.len() implies r0[x].0 != e.key by {
                                if r0[x].0 == e.key {
                                    assert(self.slot_for(r0[x].0) < i);
                                }
                            }
                        }
                        r.push((e.key, e.value));
                        proof {
                            assert(r@ == r0.push((e.key, e.value)));
                            assert forall|x: int| #![trigger r@[x]]
                                0 <= x < r.len() implies self.has_key(r@[x].0) && 0 <= self.slot_for(
                                r@[x].0,
                            ) < i + 1 && self.view().contains_key(r@[x].0) && r@[x].1
                                == self.view()[r@[x].0] by {
                                if x < r0.len() {
                                    assert(r@[x] == r0[x]);
                                } else {
                                    assert(r@[x] == (e.key, e.value));
                                }
                            }
                            assert forall|x: int, y: int|
                                0 <= x < r.len() && 0 <= y < r.len() && x != y implies r@[x].0
                                != r@[y].0 by {
                                if x < r0.len() && y < r0.len() {
                                    assert(r@[x] == r0[x] && r@[y] == r0[y]);
                                } else if x < r0.len() {
                                    assert(r@[x] == r0[x] && r@[y] == (e.key, e.value));
                                } else {
                                    assert(r@[x] == (e.key, e.value) && r@[y] == r0[y]);
                                }
                            }
                            assert forall|j: int|
                                0 <= j < i + 1 && #[trigger] self.is_live(j) implies exists|x: int|
                                0 <= x < r.len() && r@[x].0
                                    == self.slots@[j].entry->Some_0.key by {
                                let kj = self.slots@[j].entry->Some_0.key;
                                if j == i {
                                    assert(r@[r.len() - 1].0 == kj);
                                } else {
                                    let x = choose|x: int| 0 <= x < r0.len() && r0[x].0 == kj;
                                    assert(r@[x].0 == kj);
                                }
                            }
                        }
                    },
                    None => {
                        proof {
                            assert(self.slot_wf(i as int));
                            assert(false);
                        }
                    },
                }
            }
            i = i + 1;
        }
        proof {
            assert forall|k: u64| self.view().contains_key(k) implies exists|x: int|
                0 <= x < r.len() && r@[x].0 == k by {
                assert(self.has_key(k));
                let j = self.slot_for(k);
                assert(self.live_key(j, k));
                assert(self.is_live(j));
            }
            let keys = r@.map_values(|p: (u64, u64)| p.0);
            assert(keys.no_duplicates());
            keys.unique_seq_to_set();
            assert forall|k: u64| keys.to_set().contains(k) implies self.view().dom().contains(
                k,
            ) by {
                let x = choose|x: int| 0 <= x < keys.len() && keys[x] == k;
                assert(self.view().contains_key(r@[x].0));
            }
            assert forall|k: u64| self.view().dom().contains(k) implies keys.to_set().contains(
                k,
            ) by {
                let x = choose|x: int| 0 <= x < r.len() && r@[x].0 == k;
                assert(keys[x] == k);
                assert(keys.contains(k));
            }
            assert(keys.to_set() =~= self.view().dom());
        }
        r
    }
}

} // verus!
