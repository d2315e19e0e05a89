//! Group matching over the metadata bytes.
//!
//! Probes walk the table sixteen slots at a time. For each group the probe
//! matches its hash fragment across the sixteen metadata bytes next to the
//! slots in one step, yielding the candidate offsets as a bitmask that is
//! drained lowest bit first. A metadata byte with its high bit set marks a
//! slot that was never written, which ends the probe run.

use vstd::prelude::*;

verus! {

/// Slots per probe group.
pub const GROUP_SIZE: usize = 16;

/// Metadata byte of a slot that was never written.
pub const META_EMPTY: u8 = 0x80;

/// Whether bit `b` of `bits` is set.
pub open spec fn bit_set(bits: u16, b: u16) -> bool {
    bits >> b & 1 == 1
}

/// A bitmask of group offsets, drained lowest bit first.
pub struct BitIter {
    bits: u16,
}

impl BitIter {
    /// The remaining mask.
    pub closed spec fn view(self) -> u16 {
        self.bits
    }

    /// Whether any offset remains.
    pub fn any_set(&self) -> (r: bool)
        ensures
            r <==> self@ != 0,
    {
        self.bits != 0
    }

    /// Returns the lowest remaining offset and clears it from the mask.
    pub fn next(&mut self) -> (r: Option<usize>)
        ensures
            old(self)@ == 0 ==> r is None && final(self)@ == 0,
            old(self)@ != 0 ==> final(self)@ < old(self)@,
            old(self)@ != 0 ==> (r matches Some(b) && b < 16 && bit_set(old(self)@, b as u16)
                && (forall|j: u16| j < b ==> !bit_set(old(self)@, j))
                && (forall|j: u16| j < 16 ==> (bit_set(final(self)@, j) <==> bit_set(
                    old(self)@,
                    j,
                ) && j != b))),
    {
        if self.bits == 0 {
            return None;
        }
        let prev: u16 = self.bits;
        proof {
            assert(prev >> 0 != 0) by (bit_vector)
                requires
                    prev != 0,
            ;
        }
        let mut b: u16 = 0;
        while prev >> b & 1 != 1
            invariant
                b <= 15,
                prev >> b != 0,
                forall|j: u16| j < b ==> !bit_set(prev, j),
            decreases 16 - b,
        {
            assert(b < 15 && prev >> (b + 1) != 0) by (bit_vector)
                requires
                    b <= 15,
                    prev >> b != 0,
                    prev >> b & 1 != 1,
            ;
            b = b + 1;
        }
        self.bits = prev & !(1u16 << b);
        assert(prev & !(1u16 << b) < prev) by (bit_vector)
            requires
                b < 16,
                prev >> b & 1 == 1,
        ;
        assert(forall|j: u16|
            j < 16 ==> (bit_set(prev & !(1u16 << b), j) <==> bit_set(prev, j) && j != b))
            by (bit_vector)
            requires
                b < 16,
        ;
        Some(b as usize)
    }
}

/// Matches `byte` across the group of metadata bytes starting at `base`,
/// returning the offsets whose metadata equals it as a bitmask.
pub fn match_byte(meta: &Vec<u8>, base: usize, byte: u8) -> (it: BitIter)
    requires
        base + 16 <= meta.len(),
    ensures
        forall|b: u16| b < 16 ==> (bit_set(it@, b) <==> meta[base + b] == byte),
{
    let mut bits: u16 = 0;
    proof {
        assert(forall|b: u16| !bit_set(0u16, b)) by (bit_vector);
    }
    let mut j: usize = 0;
    while j < 16
        invariant
            j <= 16,
            base + 16 <= meta.len(),
            forall|b: u16|
                b < 16 ==> (#[trigger] bit_set(bits, b) <==> (b < j && meta[base + b] == byte)),
        decreases 16 - j,
    {
        if meta[base + j] == byte {
            let jj: u16 = j as u16;
            let prev: u16 = bits;
            bits = bits | (1u16 << jj);
            proof {
                assert(forall|b: u16|
                    b < 16 ==> (#[trigger] bit_set(prev | (1u16 << jj), b) <==> bit_set(prev, b)
                        || b == jj)) by (bit_vector)
                    requires
                        jj < 16,
                ;
                assert(jj as int == j as int);
                assert forall|b: u16| b < 16 implies (#[trigger] bit_set(bits, b) <==> (b < j + 1
                    && meta[base + b] == byte)) by {
                    assert(bit_set(prev | (1u16 << jj), b) <==> bit_set(prev, b) || b == jj);
                    assert(bits == prev | (1u16 << jj));
                    if b == jj {
                        assert(meta[base + b] == byte);
                    }
                }
            }
        }
        j = j + 1;
    }
    BitIter { bits }
}

/// Whether any slot of the group starting at `base` was never written.
pub fn any_empty(meta: &Vec<u8>, base: usize) -> (r: bool)
    requires
        base + 16 <= meta.len(),
    ensures
        r <==> exists|b: int| base <= b < base + 16 && meta[b] >= 128,
{
    let mut j: usize = 0;
    while j < 16
        invariant
            j <= 16,
            base + 16 <= meta.len(),
            forall|b: int| base <= b < base + j ==> meta[b] < 128,
        decreases 16 - j,
    {
        if meta[base + j] >= 128 {
            return true;
        }
        j = j + 1;
    }
    false
}

} // verus!
