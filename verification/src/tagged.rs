//! Tag-encoded slot words.
//!
//! Entries are heap records aligned to at least eight bytes, so the low
//! three bits of an entry address are free to carry the slot's state. A
//! slot word is an address with one of the state tags below packed into
//! those bits. `unpack` splits a word back into its address and tag parts.

use vstd::prelude::*;

verus! {

/// Mask over the bits of a word that carry the state tag.
pub const TAG_MASK: usize = 7;

/// The slot holds a published entry.
pub const TAG_LIVE: usize = 0;

/// The slot's entry was deleted; probes continue past it.
pub const TAG_TOMBSTONE: usize = 1;

/// The slot's entry has been moved to the next generation.
pub const TAG_COPIED: usize = 2;

/// A writer is mid-copy; the slot must not be written by others.
pub const TAG_LOCKED: usize = 3;

/// The tag portion of a word: its low three bits.
pub open spec fn word_tag(w: usize) -> usize {
    w & TAG_MASK
}

/// The address portion of a word: the tag bits cleared.
pub open spec fn word_addr(w: usize) -> usize {
    w & !TAG_MASK
}

/// The tag is the remainder modulo eight, and the address the rest.
pub proof fn lemma_word_parts(w: usize)
    ensures
        word_tag(w) == w % 8,
        word_addr(w) == w - w % 8,
        word_addr(w) % 8 == 0,
        word_addr(w) + word_tag(w) == w,
{
    assert(w & 7 == w % 8) by (bit_vector);
    assert(w & !7 == w - w % 8) by (bit_vector);
    assert((w & !7) % 8 == 0) by (bit_vector);
}

/// Packing a tag into an aligned address is reversible.
pub proof fn lemma_word_pack(a: usize, t: usize)
    requires
        a % 8 == 0,
        t < 8,
    ensures
        word_tag(a | t) == t,
        word_addr(a | t) == a,
        (a | t) as int == a + t,
{
    assert((a | t) & 7 == t && (a | t) & !7 == a && (a | t) == a + t) by (bit_vector)
        requires
            a % 8 == 0,
            t < 8,
    ;
}

/// An unpacked tagged word: the raw word as stored, and its address with
/// the tag bits cleared.
#[derive(Clone, Copy, Debug)]
pub struct Tagged {
    /// The raw tagged word.
    pub raw: usize,
    /// The untagged address.
    pub ptr: usize,
}

/// Creates a `Tagged` from a word that carries no tag.
pub fn untagged(value: usize) -> (t: Tagged)
    ensures
        t.raw == value,
        t.ptr == value,
{
    Tagged { raw: value, ptr: value }
}

/// Splits a word into its address and tag parts.
pub fn unpack(raw: usize) -> (t: Tagged)
    ensures
        t.raw == raw,
        t.ptr == word_addr(raw),
{
    Tagged { raw, ptr: raw & !TAG_MASK }
}

impl Tagged {
    /// Returns the tag portion of this word.
    pub fn tag(self) -> (t: usize)
        ensures
            t == word_tag(self.raw),
    {
        self.raw & TAG_MASK
    }

    /// Maps the raw word, keeping the address part as recorded.
    pub fn map_tag<F: FnOnce(usize) -> usize>(self, f: F) -> (t: Tagged)
        requires
            call_requires(f, (self.raw,)),
        ensures
            call_ensures(f, (self.raw,), t.raw),
            t.ptr == self.ptr,
    {
        Tagged { raw: f(self.raw), ptr: self.ptr }
    }
}

/// Fetch-or over a slot word, after the atomic pointer operation that marks
/// an entry as copied without disturbing its address bits.
pub trait AtomicPtrFetchOps: Sized {
    /// The slot word this value holds.
    spec fn word(&self) -> usize;

    /// Ors `value` into the word and returns the word it held before.
    fn fetch_or(&mut self, value: usize) -> (prev: usize)
        ensures
            prev == old(self).word(),
            final(self).word() == (old(self).word() | value),
    ;
}

impl AtomicPtrFetchOps for usize {
    open spec fn word(&self) -> usize {
        *self
    }

    fn fetch_or(&mut self, value: usize) -> (prev: usize) {
        let prev: usize = *self;
        *self = *self | value;
        prev
    }
}

} // verus!
