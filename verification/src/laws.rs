//! Laws the map obeys across sequences of operations.
//!
//! Every operation's contract describes one step over the mapping view:
//! `insert` and `update` are a `Map::insert`, `remove` a `Map::remove`.
//! The laws here compose those steps: what a reader of one key sees
//! through an arbitrary run of operations on other keys, and what a run
//! of inserts leaves behind.

use vstd::prelude::*;

verus! {

/// One keyed map operation, as the operation contracts describe it.
pub enum Op {
    /// Publish a value for a key: what `insert` and `update` do.
    Insert(u64, u64),
    /// Delete a key: what `remove` does.
    Remove(u64),
}

/// The key an operation touches.
pub open spec fn op_key(op: Op) -> u64 {
    match op {
        Op::Insert(k, _) => k,
        Op::Remove(k) => k,
    }
}

/// The mapping after one operation.
pub open spec fn apply_op(m: Map<u64, u64>, op: Op) -> Map<u64, u64> {
    match op {
        Op::Insert(k, v) => m.insert(k, v),
        Op::Remove(k) => m.remove(k),
    }
}

/// The mapping after a sequence of operations.
pub open spec fn apply_ops(m: Map<u64, u64>, ops: Seq<Op>) -> Map<u64, u64>
    decreases ops.len(),
{
    if ops.len() == 0 {
        m
    } else {
        apply_op(apply_ops(m, ops.drop_last()), ops.last())
    }
}

/// Law: operations on other keys leave a key untouched. Whatever stands
/// between two accesses of `k`, if none of it touches `k`, a reader of
/// `k` sees the same presence and the same value.
pub proof fn lemma_frame(m: Map<u64, u64>, ops: Seq<Op>, k: u64)
    requires
        forall|i: int| 0 <= i < ops.len() ==> op_key(#[trigger] ops[i]) != k,
    ensures
        apply_ops(m, ops).contains_key(k) <==> m.contains_key(k),
        m.contains_key(k) ==> apply_ops(m, ops)[k] == m[k],
    decreases ops.len(),
{
    if ops.len() > 0 {
        assert(op_key(ops[ops.len() - 1]) != k);
        lemma_frame(m, ops.drop_last(), k);
    }
}

/// Law: the most recent operation on `k` decides what `get(k)` returns.
/// An insert of `v` not followed by an operation on `k` reads back as
/// `v`; after a remove, `k` reads as absent until its next insert.
pub proof fn lemma_last_write(m: Map<u64, u64>, ops: Seq<Op>, k: u64, v: u64)
    requires
        forall|i: int| 0 <= i < ops.len() ==> op_key(#[trigger] ops[i]) != k,
    ensures
        apply_ops(m.insert(k, v), ops).contains_key(k),
        apply_ops(m.insert(k, v), ops)[k] == v,
        !apply_ops(m.remove(k), ops).contains_key(k),
{
    lemma_frame(m.insert(k, v), ops, k);
    lemma_frame(m.remove(k), ops, k);
}

/// Law: an insert is read back: after `insert(k, v)`, a `get(k)` sees
/// `v`, and a `remove(k)` returns that same value.
pub proof fn lemma_insert_get(m: Map<u64, u64>, k: u64, v: u64)
    ensures
        m.insert(k, v).contains_key(k),
        m.insert(k, v)[k] == v,
{
}

/// Law: a removed key reads as absent, and removing it again changes
/// nothing and still finds nothing: removal is idempotent.
pub proof fn lemma_remove_idempotent(m: Map<u64, u64>, k: u64)
    ensures
        !m.remove(k).contains_key(k),
        m.remove(k).remove(k) == m.remove(k),
{
    assert(m.remove(k).remove(k) =~= m.remove(k));
}

/// Law: operations by threads owning disjoint key ranges do not disturb
/// each other: after any run of operations whose keys all lie outside
/// `lo .. hi`, every key in that range reads exactly as before.
pub proof fn lemma_disjoint_ranges(m: Map<u64, u64>, ops: Seq<Op>, lo: u64, hi: u64, k: u64)
    requires
        lo <= k < hi,
        forall|i: int| 0 <= i < ops.len() ==> !(lo <= op_key(#[trigger] ops[i]) < hi),
    ensures
        apply_ops(m, ops).contains_key(k) <==> m.contains_key(k),
        m.contains_key(k) ==> apply_ops(m, ops)[k] == m[k],
{
    lemma_frame(m, ops, k);
}

/// The mapping of each key below `n` to `f` of itself.
pub open spec fn filled(n: nat, f: spec_fn(u64) -> u64) -> Map<u64, u64>
    decreases n,
{
    if n == 0 {
        Map::empty()
    } else {
        filled((n - 1) as nat, f).insert((n - 1) as u64, f((n - 1) as u64))
    }
}

/// Law: inserting `f(i)` for the keys `0 .. n` in order leaves exactly
/// those keys, each with its own value — once each, however the table
/// grew along the way, since growth leaves the mapping unchanged and an
/// insert's effect on the mapping is one `Map::insert` in any generation.
pub proof fn lemma_fill(n: nat, f: spec_fn(u64) -> u64)
    requires
        n <= 0xffff_ffff_ffff_ffff,
    ensures
        forall|k: u64| #[trigger] filled(n, f).contains_key(k) <==> k < n,
        forall|k: u64| k < n ==> #[trigger] filled(n, f)[k] == f(k),
    decreases n,
{
    if n > 0 {
        lemma_fill((n - 1) as nat, f);
        let prev = filled((n - 1) as nat, f);
        let kn = (n - 1) as u64;
        assert(filled(n, f) == prev.insert(kn, f(kn)));
        assert forall|k: u64| #[trigger] filled(n, f).contains_key(k) <==> k < n by {
            if k != kn {
                assert(filled(n, f).contains_key(k) == prev.contains_key(k));
            }
        }
        assert forall|k: u64| k < n implies #[trigger] filled(n, f)[k] == f(k) by {
            if k != kn {
                assert(filled(n, f)[k] == prev[k]);
            }
        }
    } else {
        assert(filled(n, f) == Map::<u64, u64>::empty());
    }
}

} // verus!
