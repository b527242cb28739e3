//! The tree as the store holds it: node values and temporary-leaf counts by address,
//! and the writes that each operation makes.
use crate::hash::{compress_pair, default_hash};
use crate::keys::{be_bytes, be_value, key_height, node_key_spec};
use crate::store::{apply_op, apply_ops, StoreOp};
use vstd::prelude::*;

verus! {

/// The height of the tree: one level for each bit of a leaf index.
pub const HEIGHT: u32 = 32;

/// Column of node values.
pub const VALUES: u32 = 0;

/// Column of temporary-leaf counts.
pub const COUNTS: u32 = 1;

/// The number of leaves below a node of the given height.
pub open spec fn capacity(height: u32) -> u32 {
    1u32 << height
}

/// The value stored at (`height`, `index`), if any.
pub open spec fn stored_value(c: Map<(u32, Seq<u8>), Seq<u8>>, height: u32, index: u32) -> Option<
    Seq<u8>,
> {
    if c.contains_key((VALUES, node_key_spec(height, index))) {
        Some(c[(VALUES, node_key_spec(height, index))])
    } else {
        None
    }
}

/// The temporary-leaf count stored at (`height`, `index`); an absent count is zero.
pub open spec fn stored_count(c: Map<(u32, Seq<u8>), Seq<u8>>, height: u32, index: u32) -> u32 {
    if c.contains_key((COUNTS, node_key_spec(height, index))) {
        be_value(c[(COUNTS, node_key_spec(height, index))])
    } else {
        0
    }
}

/// The value of (`height`, `index`): the stored one, else the default of its height.
pub open spec fn effective_value(c: Map<(u32, Seq<u8>), Seq<u8>>, height: u32, index: u32) -> Seq<
    u8,
> {
    match stored_value(c, height, index) {
        Some(v) => v,
        None => default_hash(height as nat),
    }
}

/// The store's entries hold node values of 32 bytes and counts that fit their subtree.
pub open spec fn store_wf(c: Map<(u32, Seq<u8>), Seq<u8>>, cols: Set<u32>) -> bool {
    &&& cols.contains(VALUES)
    &&& cols.contains(COUNTS)
    &&& forall|k: Seq<u8>| #[trigger]
        c.contains_key((VALUES, k)) ==> k.len() == 8 && key_height(k) <= HEIGHT && c[(
            VALUES,
            k,
        )].len() == 32
    &&& forall|k: Seq<u8>| #[trigger]
        c.contains_key((COUNTS, k)) ==> k.len() == 8 && key_height(k) < HEIGHT && c[(
            COUNTS,
            k,
        )].len() == 4 && be_value(c[(COUNTS, k)]) <= capacity(key_height(k))
}

/// A write that keeps `store_wf`.
pub open spec fn op_wf(op: StoreOp) -> bool {
    &&& op.0 == VALUES || op.0 == COUNTS
    &&& op.2 is Some ==> op.1.len() == 8
    &&& (op.0 == VALUES && op.2 is Some) ==> key_height(op.1) <= HEIGHT && op.2->0.len() == 32
    &&& (op.0 == COUNTS && op.2 is Some) ==> key_height(op.1) < HEIGHT && op.2->0.len() == 4
        && be_value(op.2->0) <= capacity(key_height(op.1))
}

/// Writes that each keep `store_wf`.
pub open spec fn ops_wf(ops: Seq<StoreOp>) -> bool {
    forall|j: int| 0 <= j < ops.len() ==> op_wf(#[trigger] ops[j])
}

/// Writes of a node's value, and of its count where that is not zero.
pub open spec fn set_ops(height: u32, index: u32, value: Seq<u8>, count: u32) -> Seq<StoreOp> {
    if count > 0 {
        seq![
            (VALUES, node_key_spec(height, index), Some(value)),
            (COUNTS, node_key_spec(height, index), Some(be_bytes(count))),
        ]
    } else {
        seq![(VALUES, node_key_spec(height, index), Some(value))]
    }
}

/// Removals of a node's value and count.
pub open spec fn remove_ops(height: u32, index: u32) -> Seq<StoreOp> {
    seq![(VALUES, node_key_spec(height, index), None), (COUNTS, node_key_spec(height, index), None)]
}

/// The parent's value over the child (`height`, `index`) holding `value` and its sibling.
pub open spec fn parent_value(
    c: Map<(u32, Seq<u8>), Seq<u8>>,
    height: u32,
    index: u32,
    value: Seq<u8>,
) -> Seq<u8> {
    if index % 2 == 0 {
        compress_pair(value, effective_value(c, height, index ^ 1))
    } else {
        compress_pair(effective_value(c, height, index ^ 1), value)
    }
}

/// The parent's count over the child (`height`, `index`) holding `count` and its sibling.
pub open spec fn parent_count(
    c: Map<(u32, Seq<u8>), Seq<u8>>,
    height: u32,
    index: u32,
    count: u32,
) -> u32 {
    (count + stored_count(c, height, index ^ 1)) as u32
}

/// The writes that recompute the ancestors of the node (`height`, `index`), which now holds
/// `value` and `count`, up to height `HEIGHT - 1`, reading siblings from `c`; a parent whose
/// leaves are all temporary drops both children.
pub open spec fn path_ops(
    c: Map<(u32, Seq<u8>), Seq<u8>>,
    height: u32,
    index: u32,
    value: Seq<u8>,
    count: u32,
) -> Seq<StoreOp>
    decreases HEIGHT - height,
{
    if height + 1 >= HEIGHT {
        seq![]
    } else {
        let pv = parent_value(c, height, index, value);
        let pc = parent_count(c, height, index, count);
        let ph = (height + 1) as u32;
        set_ops(ph, index / 2, pv, pc) + (if pc == capacity(ph) {
            remove_ops(height, index) + remove_ops(height, index ^ 1)
        } else {
            seq![]
        }) + path_ops(c, ph, index / 2, pv, pc)
    }
}

/// The count of a single leaf.
pub open spec fn leaf_count(temporary: bool) -> u32 {
    if temporary {
        1
    } else {
        0
    }
}

/// The writes of `add_hash`.
pub open spec fn add_hash_ops(
    c: Map<(u32, Seq<u8>), Seq<u8>>,
    index: u32,
    value: Seq<u8>,
    temporary: bool,
) -> Seq<StoreOp> {
    set_ops(0, index, value, leaf_count(temporary)) + path_ops(
        c,
        0,
        index,
        value,
        leaf_count(temporary),
    )
}

/// The contents after `add_hash` of each entry in turn.
pub open spec fn after_add_hashes(
    c: Map<(u32, Seq<u8>), Seq<u8>>,
    cols: Set<u32>,
    entries: Seq<(u32, Seq<u8>, bool)>,
) -> Map<(u32, Seq<u8>), Seq<u8>>
    decreases entries.len(),
{
    if entries.len() == 0 {
        c
    } else {
        let prev = after_add_hashes(c, cols, entries.drop_last());
        let e = entries.last();
        apply_ops(prev, cols, add_hash_ops(prev, e.0, e.1, e.2))
    }
}

/// Whether `n` is a power of two.
pub open spec fn is_pow2(n: u32) -> bool {
    n != 0 && n & ((n - 1) as u32) == 0
}

/// A power of two above one is even, and its half is a power of two.
pub proof fn lemma_pow2_half(n: u32)
    requires
        is_pow2(n),
        n > 1,
    ensures
        n % 2 == 0,
        is_pow2(n / 2),
{
    assert(n != 0 && n & ((n - 1) as u32) == 0 && n > 1 ==> n % 2 == 0 && n / 2 != 0 && (n / 2) & (((n / 2) - 1) as u32) == 0) by (bit_vector);
}

/// A run that starts at a multiple of its power-of-two length ends within the index space.
pub proof fn lemma_aligned_run_fits(start: u32, n: u32)
    requires
        is_pow2(n),
        start % n == 0,
    ensures
        start + n <= 0x1_0000_0000,
{
    assert(n != 0 && n & ((n - 1) as u32) == 0 && start % n == 0 ==> start <= 0xffff_ffffu32 - ((n - 1) as u32))
        by (bit_vector);
}

/// The base-2 logarithm of `n`, rounded down.
pub open spec fn log2(n: nat) -> nat
    decreases n,
{
    if n <= 1 {
        0
    } else {
        1 + log2(n / 2)
    }
}

/// The parents of a run of nodes, pairing them from the left.
pub open spec fn pair_up(hs: Seq<Seq<u8>>) -> Seq<Seq<u8>> {
    Seq::new(hs.len() / 2, |j: int| compress_pair(hs[2 * j], hs[2 * j + 1]))
}

/// The nodes `k` levels above the leaves `hs`.
pub open spec fn level(hs: Seq<Seq<u8>>, k: nat) -> Seq<Seq<u8>>
    decreases k,
{
    if k == 0 {
        hs
    } else {
        pair_up(level(hs, (k - 1) as nat))
    }
}

/// The writes of a run of nodes at `height`, the first at index `first`, with no counts.
pub open spec fn level_ops(hs: Seq<Seq<u8>>, height: u32, first: u32) -> Seq<StoreOp> {
    Seq::new(
        hs.len(),
        |j: int| (VALUES, node_key_spec(height, (first + j) as u32), Some(hs[j])),
    )
}

/// The writes of the levels `0..=k` of the subtree over `hs` whose first leaf is `start`.
pub open spec fn subtree_build_ops(hs: Seq<Seq<u8>>, start: u32, k: nat) -> Seq<StoreOp>
    decreases k,
{
    let this_level = level_ops(level(hs, k), k as u32, start >> (k as u32));
    if k == 0 {
        this_level
    } else {
        subtree_build_ops(hs, start, (k - 1) as nat) + this_level
    }
}

/// The writes of `add_subtree`: the whole subtree, all permanent, then its ancestors.
pub open spec fn add_subtree_ops(
    c: Map<(u32, Seq<u8>), Seq<u8>>,
    hs: Seq<Seq<u8>>,
    start: u32,
) -> Seq<StoreOp> {
    let top = log2(hs.len());
    subtree_build_ops(hs, start, top) + path_ops(
        c,
        top as u32,
        start >> (top as u32),
        level(hs, top)[0],
        0,
    )
}

/// The writes of `add_subtree_root`.
pub open spec fn add_subtree_root_ops(
    c: Map<(u32, Seq<u8>), Seq<u8>>,
    height: u32,
    index: u32,
    value: Seq<u8>,
) -> Seq<StoreOp> {
    set_ops(height, index, value, capacity(height)) + path_ops(
        c,
        height,
        index,
        value,
        capacity(height),
    )
}


pub proof fn lemma_ops_wf_append(a: Seq<StoreOp>, b: Seq<StoreOp>)
    requires
        ops_wf(a),
        ops_wf(b),
    ensures
        ops_wf(a + b),
{
    assert forall|j: int| 0 <= j < (a + b).len() implies op_wf(#[trigger] (a + b)[j]) by {
        if j < a.len() {
            assert((a + b)[j] == a[j]);
        } else {
            assert((a + b)[j] == b[j - a.len()]);
        }
    }
}

/// Writes that each keep the store well formed keep it so together.
pub proof fn lemma_apply_ops_wf(c: Map<(u32, Seq<u8>), Seq<u8>>, cols: Set<u32>, ops: Seq<StoreOp>)
    requires
        store_wf(c, cols),
        ops_wf(ops),
    ensures
        store_wf(apply_ops(c, cols, ops), cols),
    decreases ops.len(),
{
    if ops.len() > 0 {
        let prefix = ops.drop_last();
        assert(ops_wf(prefix)) by {
            assert forall|j: int| 0 <= j < prefix.len() implies op_wf(#[trigger] prefix[j]) by {
                assert(prefix[j] == ops[j]);
            }
        }
        lemma_apply_ops_wf(c, cols, prefix);
        let m = apply_ops(c, cols, prefix);
        let op = ops.last();
        assert(op_wf(ops[ops.len() - 1]));
        let m2 = apply_op(m, cols, op);
        assert forall|k: Seq<u8>| #[trigger] m2.contains_key((VALUES, k)) implies k.len() == 8
            && key_height(k) <= HEIGHT && m2[(VALUES, k)].len() == 32 by {
            if !(op.1 == k && op.0 == VALUES) {
                assert(m.contains_key((VALUES, k)));
            }
        }
        assert forall|k: Seq<u8>| #[trigger] m2.contains_key((COUNTS, k)) implies k.len() == 8
            && key_height(k) < HEIGHT && m2[(COUNTS, k)].len() == 4 && be_value(m2[(COUNTS, k)])
            <= capacity(key_height(k)) by {
            if !(op.1 == k && op.0 == COUNTS) {
                assert(m.contains_key((COUNTS, k)));
            }
        }
    }
}

/// Two children's counts, each within its subtree, add up within the parent's.
pub proof fn lemma_count_sum(height: u32, a: u32, b: u32)
    requires
        height < 31,
        a <= capacity(height),
        b <= capacity(height),
    ensures
        a + b <= capacity((height + 1) as u32),
{
    assert(a <= (1u32 << height) && b <= (1u32 << height) && height < 31u32 ==> a <= 0xffff_ffffu32 - b
        && a + b <= (1u32 << (height + 1u32))) by (bit_vector);
}

} // verus!
