//! What holds of the tree across operations.
use crate::hash::default_hash;
use crate::keys::{key_height, lemma_node_key_injective, lemma_node_key_round_trip, node_key_spec};
use crate::model::{
    add_hash_ops, add_subtree_ops, add_subtree_root_ops, after_add_hashes, capacity, effective_value, leaf_count, level,
    level_ops, log2, parent_count, parent_value, path_ops, remove_ops, set_ops, store_wf,
    stored_count, stored_value, subtree_build_ops, COUNTS, HEIGHT, VALUES,
};
use crate::store::{apply_ops, StoreOp};
use vstd::prelude::*;

verus! {

/// The last write that `ops` makes to `k`, if any: `Some(None)` for a removal.
pub open spec fn last_write(ops: Seq<StoreOp>, k: (u32, Seq<u8>)) -> Option<Option<Seq<u8>>>
    decreases ops.len(),
{
    if ops.len() == 0 {
        None
    } else if (ops.last().0, ops.last().1) == k {
        Some(ops.last().2)
    } else {
        last_write(ops.drop_last(), k)
    }
}

/// After a sequence of writes, a key holds what its last write put there, or what it held
/// before where no write touched it.
pub proof fn lemma_lookup(
    c: Map<(u32, Seq<u8>), Seq<u8>>,
    cols: Set<u32>,
    ops: Seq<StoreOp>,
    k: (u32, Seq<u8>),
)
    requires
        cols.contains(k.0),
    ensures
        ({
            let m = apply_ops(c, cols, ops);
            match last_write(ops, k) {
                None => m.contains_key(k) == c.contains_key(k) && (c.contains_key(k) ==> m[k]
                    == c[k]),
                Some(Some(v)) => m.contains_key(k) && m[k] == v,
                Some(None) => !m.contains_key(k),
            }
        }),
    decreases ops.len(),
{
    if ops.len() > 0 {
        lemma_lookup(c, cols, ops.drop_last(), k);
    }
}

proof fn lemma_last_write_append(a: Seq<StoreOp>, b: Seq<StoreOp>, k: (u32, Seq<u8>))
    ensures
        last_write(a + b, k) == (if last_write(b, k) is Some {
            last_write(b, k)
        } else {
            last_write(a, k)
        }),
    decreases b.len(),
{
    if b.len() == 0 {
        assert(a + b =~= a);
    } else {
        assert((a + b).drop_last() =~= a + b.drop_last());
        assert((a + b).last() == b.last());
        lemma_last_write_append(a, b.drop_last(), k);
    }
}

proof fn lemma_last_write_untouched(ops: Seq<StoreOp>, k: (u32, Seq<u8>))
    requires
        forall|j: int| 0 <= j < ops.len() ==> (#[trigger] ops[j]).1 != k.1,
    ensures
        last_write(ops, k) is None,
    decreases ops.len(),
{
    if ops.len() > 0 {
        assert(ops.last() == ops[ops.len() - 1]);
        lemma_last_write_untouched(ops.drop_last(), k);
    }
}

/// Every key that `path_ops` from `height` writes is a node key at `height` or above.
proof fn lemma_path_ops_heights(
    c: Map<(u32, Seq<u8>), Seq<u8>>,
    height: u32,
    index: u32,
    value: Seq<u8>,
    count: u32,
)
    ensures
        forall|j: int|
            0 <= j < path_ops(c, height, index, value, count).len() ==> #[trigger] path_ops(
                c,
                height,
                index,
                value,
                count,
            )[j].1.len() == 8 && key_height(path_ops(c, height, index, value, count)[j].1)
                >= height,
    decreases HEIGHT - height,
{
    if height + 1 < HEIGHT {
        let pv = parent_value(c, height, index, value);
        let pc = parent_count(c, height, index, count);
        let ph = (height + 1) as u32;
        let s = set_ops(ph, index / 2, pv, pc);
        let r = if pc == capacity(ph) {
            remove_ops(height, index) + remove_ops(height, index ^ 1)
        } else {
            seq![]
        };
        let rest = path_ops(c, ph, index / 2, pv, pc);
        lemma_path_ops_heights(c, ph, index / 2, pv, pc);
        lemma_node_key_round_trip(ph, index / 2);
        lemma_node_key_round_trip(height, index);
        lemma_node_key_round_trip(height, index ^ 1);
        let all = path_ops(c, height, index, value, count);
        assert(all == s + r + rest);
        assert forall|j: int| 0 <= j < all.len() implies #[trigger] all[j].1.len() == 8
            && key_height(all[j].1) >= height by {
            if j < s.len() {
                assert(all[j] == s[j]);
            } else if j < s.len() + r.len() {
                assert(all[j] == r[j - s.len()]);
            } else {
                assert(all[j] == rest[j - s.len() - r.len()]);
            }
        }
    }
}

/// No write of `path_ops` from height 1 or above touches a leaf.
proof fn lemma_path_ops_spare_leaves(
    c: Map<(u32, Seq<u8>), Seq<u8>>,
    height: u32,
    index: u32,
    value: Seq<u8>,
    count: u32,
    col: u32,
    x: u32,
)
    requires
        height >= 1,
    ensures
        last_write(path_ops(c, height, index, value, count), (col, node_key_spec(0, x))) is None,
{
    let ops = path_ops(c, height, index, value, count);
    lemma_path_ops_heights(c, height, index, value, count);
    lemma_node_key_round_trip(0, x);
    lemma_last_write_untouched(ops, (col, node_key_spec(0, x)));
}

proof fn lemma_last_write_one(op: StoreOp, k: (u32, Seq<u8>))
    ensures
        last_write(seq![op], k) == (if (op.0, op.1) == k {
            Some(op.2)
        } else {
            None::<Option<Seq<u8>>>
        }),
{
    assert(seq![op].drop_last() =~= Seq::<StoreOp>::empty());
    assert(seq![op].last() == op);
    assert(last_write(Seq::<StoreOp>::empty(), k) is None);
    assert(seq![op].len() == 1);
}

proof fn lemma_last_write_two(a: StoreOp, b: StoreOp, k: (u32, Seq<u8>))
    ensures
        last_write(seq![a, b], k) == (if (b.0, b.1) == k {
            Some(b.2)
        } else if (a.0, a.1) == k {
            Some(a.2)
        } else {
            None::<Option<Seq<u8>>>
        }),
{
    assert(seq![a, b] =~= seq![a] + seq![b]);
    lemma_last_write_append(seq![a], seq![b], k);
    lemma_last_write_one(a, k);
    lemma_last_write_one(b, k);
}

/// The count that the first parent of leaf `index` gets from `add_hash`.
pub open spec fn first_parent_count(
    c: Map<(u32, Seq<u8>), Seq<u8>>,
    index: u32,
    temporary: bool,
) -> u32 {
    parent_count(c, 0, index, leaf_count(temporary))
}

/// What `add_hash(index, value, temporary)` does to the leaves. Unless the new leaf and its
/// sibling are both temporary, the new leaf is stored and every other leaf keeps its value
/// and count; where both are temporary, both leaves are dropped, and every other leaf is
/// untouched.
pub proof fn lemma_add_hash_leaves(
    c: Map<(u32, Seq<u8>), Seq<u8>>,
    cols: Set<u32>,
    index: u32,
    value: Seq<u8>,
    temporary: bool,
    x: u32,
)
    requires
        cols.contains(VALUES),
        cols.contains(COUNTS),
        stored_count(c, 0, index ^ 1) <= 1,
    ensures
        ({
            let after = apply_ops(c, cols, add_hash_ops(c, index, value, temporary));
            let full = first_parent_count(c, index, temporary) == 2;
            &&& !full ==> stored_value(after, 0, index) == Some(value)
            &&& !full && temporary ==> stored_count(after, 0, index) == 1
            &&& !full && !temporary ==> stored_count(after, 0, index) == stored_count(c, 0, index)
            &&& full ==> stored_value(after, 0, index) is None && stored_count(after, 0, index) == 0
            &&& full ==> stored_value(after, 0, index ^ 1) is None && stored_count(after, 0, index ^ 1) == 0
            &&& (x != index && (x != index ^ 1 || !full)) ==> stored_value(after, 0, x)
                == stored_value(c, 0, x) && stored_count(after, 0, x) == stored_count(c, 0, x)
        }),
{
    let cnt = leaf_count(temporary);
    let ops = add_hash_ops(c, index, value, temporary);
    let pv = parent_value(c, 0, index, value);
    let pc = parent_count(c, 0, index, cnt);
    let s0 = set_ops(0, index, value, cnt);
    let s1 = set_ops(1, index / 2, pv, pc);
    let r = if pc == capacity(1) {
        remove_ops(0, index) + remove_ops(0, index ^ 1)
    } else {
        seq![]
    };
    let rest = path_ops(c, 1, index / 2, pv, pc);
    assert(capacity(1) == 2) by (bit_vector);
    assert(path_ops(c, 0, index, value, cnt) == s1 + r + rest);
    assert(ops =~= s0 + (s1 + r + rest));
    let after = apply_ops(c, cols, ops);
    assert forall|col: u32, y: u32|
        (col == VALUES || col == COUNTS) implies #[trigger] last_write(ops, (col, node_key_spec(0, y)))
        == (if pc == 2 && (y == index || y == index ^ 1) {
        Some(None::<Seq<u8>>)
    } else {
        last_write(s0, (col, node_key_spec(0, y)))
    }) by {
        let k = (col, node_key_spec(0, y));
        lemma_path_ops_spare_leaves(c, 1, index / 2, pv, pc, col, y);
        lemma_node_key_injective(0, y, 1, index / 2);
        lemma_node_key_injective(0, y, 0, index);
        lemma_node_key_injective(0, y, 0, index ^ 1);
        if pc > 0 {
            lemma_last_write_two(s1[0], s1[1], k);
            assert(s1 =~= seq![s1[0], s1[1]]);
        } else {
            lemma_last_write_one(s1[0], k);
            assert(s1 =~= seq![s1[0]]);
        }
        if pc == 2 {
            let r0 = remove_ops(0, index);
            let r1 = remove_ops(0, index ^ 1);
            lemma_last_write_two(r0[0], r0[1], k);
            lemma_last_write_two(r1[0], r1[1], k);
            assert(r0 =~= seq![r0[0], r0[1]]);
            assert(r1 =~= seq![r1[0], r1[1]]);
            lemma_last_write_append(r0, r1, k);
        } else {
            lemma_last_write_untouched(r, k);
        }
        lemma_last_write_append(s1, r, k);
        lemma_last_write_append(s1 + r, rest, k);
        lemma_last_write_append(s0, s1 + r + rest, k);
    }
    let kv = (VALUES, node_key_spec(0, index));
    let kc = (COUNTS, node_key_spec(0, index));
    if cnt > 0 {
        lemma_last_write_two(s0[0], s0[1], kv);
        lemma_last_write_two(s0[0], s0[1], kc);
        assert(s0 =~= seq![s0[0], s0[1]]);
    } else {
        lemma_last_write_one(s0[0], kv);
        lemma_last_write_one(s0[0], kc);
        assert(s0 =~= seq![s0[0]]);
    }
    lemma_node_key_injective(0, x, 0, index);
    lemma_lookup(c, cols, ops, kv);
    lemma_lookup(c, cols, ops, kc);
    lemma_lookup(c, cols, ops, (VALUES, node_key_spec(0, index ^ 1)));
    lemma_lookup(c, cols, ops, (COUNTS, node_key_spec(0, index ^ 1)));
    lemma_lookup(c, cols, ops, (VALUES, node_key_spec(0, x)));
    lemma_lookup(c, cols, ops, (COUNTS, node_key_spec(0, x)));
    assert(last_write(ops, (VALUES, node_key_spec(0, x))) == (if pc == 2 && (x == index || x
        == index ^ 1) {
        Some(None::<Seq<u8>>)
    } else {
        last_write(s0, (VALUES, node_key_spec(0, x)))
    }));
    assert(last_write(ops, (COUNTS, node_key_spec(0, x))) == (if pc == 2 && (x == index || x
        == index ^ 1) {
        Some(None::<Seq<u8>>)
    } else {
        last_write(s0, (COUNTS, node_key_spec(0, x)))
    }));
    if x != index {
        if cnt > 0 {
            lemma_last_write_two(s0[0], s0[1], (VALUES, node_key_spec(0, x)));
            lemma_last_write_two(s0[0], s0[1], (COUNTS, node_key_spec(0, x)));
        } else {
            lemma_last_write_one(s0[0], (VALUES, node_key_spec(0, x)));
            lemma_last_write_one(s0[0], (COUNTS, node_key_spec(0, x)));
        }
    }
    assert(last_write(ops, kv) == (if pc == 2 { Some(None::<Seq<u8>>) } else { last_write(s0, kv) }));
    assert(last_write(ops, kc) == (if pc == 2 { Some(None::<Seq<u8>>) } else { last_write(s0, kc) }));
    assert(last_write(ops, (VALUES, node_key_spec(0, index ^ 1))) == (if pc == 2 { Some(None::<Seq<u8>>) } else { last_write(s0, (VALUES, node_key_spec(0, index ^ 1))) }));
    assert(last_write(ops, (COUNTS, node_key_spec(0, index ^ 1))) == (if pc == 2 { Some(None::<Seq<u8>>) } else { last_write(s0, (COUNTS, node_key_spec(0, index ^ 1))) }));
    crate::keys::lemma_be_round_trip(1);
}


proof fn lemma_add_hashes_leaves(
    c: Map<(u32, Seq<u8>), Seq<u8>>,
    cols: Set<u32>,
    entries: Seq<(u32, Seq<u8>, bool)>,
)
    requires
        cols.contains(VALUES),
        cols.contains(COUNTS),
        forall|x: u32| #[trigger] stored_count(c, 0, x) <= 1,
        forall|a: int, b: int|
            0 <= a < b < entries.len() ==> (#[trigger] entries[a]).0 != (#[trigger] entries[b]).0,
    ensures
        ({
            let after = after_add_hashes(c, cols, entries);
            &&& forall|x: u32| #[trigger] stored_count(after, 0, x) <= 1
            &&& forall|k: int|
                0 <= k < entries.len() && !(#[trigger] entries[k]).2 && stored_count(
                    c,
                    0,
                    entries[k].0,
                ) == 0 ==> stored_value(after, 0, entries[k].0) == Some(entries[k].1)
                    && stored_count(after, 0, entries[k].0) == 0
            &&& forall|x: u32|
                (forall|k: int| 0 <= k < entries.len() ==> (#[trigger] entries[k]).0 != x)
                    ==> #[trigger] stored_count(after, 0, x) <= stored_count(c, 0, x)
        }),
    decreases entries.len(),
{
    if entries.len() > 0 {
        let n = entries.len() - 1;
        let prefix = entries.drop_last();
        lemma_add_hashes_leaves(c, cols, prefix);
        let prev = after_add_hashes(c, cols, prefix);
        let e = entries.last();
        let (j, v, t) = (e.0, e.1, e.2);
        let after = after_add_hashes(c, cols, entries);
        assert(after == apply_ops(prev, cols, add_hash_ops(prev, j, v, t)));
        assert forall|x: u32| true implies #[trigger] stored_count(after, 0, x) <= 1 && (x
            == j ^ 1 && first_parent_count(prev, j, t) == 2 ==> stored_count(after, 0, x) == 0)
            && (x != j && !(x == j ^ 1 && first_parent_count(prev, j, t) == 2) ==> stored_value(
            after,
            0,
            x,
        ) == stored_value(prev, 0, x) && stored_count(after, 0, x) == stored_count(prev, 0, x))
            by {
            assert(stored_count(prev, 0, j ^ 1) <= 1);
            lemma_add_hash_leaves(prev, cols, j, v, t, x);
        }
        assert(stored_count(prev, 0, j ^ 1) <= 1);
        lemma_add_hash_leaves(prev, cols, j, v, t, j);
        assert forall|k: int|
            0 <= k < entries.len() && !(#[trigger] entries[k]).2 && stored_count(
                c,
                0,
                entries[k].0,
            ) == 0 implies stored_value(after, 0, entries[k].0) == Some(entries[k].1)
            && stored_count(after, 0, entries[k].0) == 0 by {
            if k < n {
                assert(prefix[k] == entries[k]);
                assert(entries[k].0 != entries[n].0);
                let y = entries[k].0;
                assert(stored_count(prev, 0, y) == 0);
                assert(stored_count(after, 0, y) <= 1);
            } else {
                assert forall|m: int| 0 <= m < prefix.len() implies (#[trigger] prefix[m]).0 != j by {
                    assert(prefix[m] == entries[m]);
                    assert(entries[m].0 != entries[n].0);
                }
                assert(stored_count(prev, 0, j) <= stored_count(c, 0, j));
            }
        }
        assert forall|x: u32|
            (forall|k: int| 0 <= k < entries.len() ==> (#[trigger] entries[k]).0 != x)
                implies #[trigger] stored_count(after, 0, x) <= stored_count(c, 0, x) by {
            assert(entries[n].0 != x);
            assert forall|m: int| 0 <= m < prefix.len() implies (#[trigger] prefix[m]).0 != x by {
                assert(prefix[m] == entries[m]);
            }
            assert(stored_count(prev, 0, x) <= stored_count(c, 0, x));
            assert(stored_count(after, 0, x) <= 1);
        }
    }
}

/// Over a run of `add_hash` calls at distinct indices, each leaf added as permanent, where
/// no temporary leaf stood before, reads back the value it was given.
pub proof fn lemma_permanent_leaves_read_back(
    c: Map<(u32, Seq<u8>), Seq<u8>>,
    cols: Set<u32>,
    entries: Seq<(u32, Seq<u8>, bool)>,
    k: int,
)
    requires
        store_wf(c, cols),
        forall|a: int, b: int|
            0 <= a < b < entries.len() ==> (#[trigger] entries[a]).0 != (#[trigger] entries[b]).0,
        0 <= k < entries.len(),
        !entries[k].2,
        stored_count(c, 0, entries[k].0) == 0,
    ensures
        stored_value(after_add_hashes(c, cols, entries), 0, entries[k].0) == Some(entries[k].1),
        effective_value(after_add_hashes(c, cols, entries), 0, entries[k].0) == entries[k].1,
{
    assert forall|x: u32| #[trigger] stored_count(c, 0, x) <= 1 by {
        lemma_node_key_round_trip(0, x);
        assert(capacity(0) == 1) by (bit_vector);
        if c.contains_key((COUNTS, node_key_spec(0, x))) {
            assert(key_height(node_key_spec(0, x)) == 0);
        }
    }
    lemma_add_hashes_leaves(c, cols, entries);
}


/// In an empty store every node reads as the default of its height.
pub proof fn lemma_empty_tree_reads_default(c: Map<(u32, Seq<u8>), Seq<u8>>, height: u32, index: u32)
    requires
        c == Map::<(u32, Seq<u8>), Seq<u8>>::empty(),
    ensures
        stored_value(c, height, index) is None,
        effective_value(c, height, index) == default_hash(height as nat),
{
}

/// A temporary leaf whose sibling leaf is temporary completes their pair: afterwards
/// neither leaf, nor its count, is stored.
pub proof fn lemma_temporary_pair_pruned(
    c: Map<(u32, Seq<u8>), Seq<u8>>,
    cols: Set<u32>,
    index: u32,
    value: Seq<u8>,
)
    requires
        cols.contains(VALUES),
        cols.contains(COUNTS),
        stored_count(c, 0, index ^ 1) == 1,
    ensures
        ({
            let after = apply_ops(c, cols, add_hash_ops(c, index, value, true));
            &&& stored_value(after, 0, index) is None
            &&& stored_value(after, 0, index ^ 1) is None
            &&& stored_count(after, 0, index) == 0
            &&& stored_count(after, 0, index ^ 1) == 0
        }),
{
    lemma_add_hash_leaves(c, cols, index, value, true, index);
}

/// A leaf whose pair is not wholly temporary stays stored when it is added, and its
/// sibling keeps its value and count.
pub proof fn lemma_partial_pair_kept(
    c: Map<(u32, Seq<u8>), Seq<u8>>,
    cols: Set<u32>,
    index: u32,
    value: Seq<u8>,
    temporary: bool,
)
    requires
        cols.contains(VALUES),
        cols.contains(COUNTS),
        stored_count(c, 0, index ^ 1) <= 1,
        !(temporary && stored_count(c, 0, index ^ 1) == 1),
    ensures
        ({
            let after = apply_ops(c, cols, add_hash_ops(c, index, value, temporary));
            &&& stored_value(after, 0, index) == Some(value)
            &&& stored_value(after, 0, index ^ 1) == stored_value(c, 0, index ^ 1)
            &&& stored_count(after, 0, index ^ 1) == stored_count(c, 0, index ^ 1)
        }),
{
    assert(index ^ 1 != index) by (bit_vector);
    lemma_add_hash_leaves(c, cols, index, value, temporary, index ^ 1);
}


/// The value that `path_ops` from (`height`, `index`) gives the ancestor `up` levels above.
pub open spec fn ancestor_value(
    c: Map<(u32, Seq<u8>), Seq<u8>>,
    height: u32,
    index: u32,
    value: Seq<u8>,
    count: u32,
    up: nat,
) -> Seq<u8>
    decreases up,
{
    if up == 0 {
        value
    } else {
        ancestor_value(
            c,
            (height + 1) as u32,
            index / 2,
            parent_value(c, height, index, value),
            parent_count(c, height, index, count),
            (up - 1) as nat,
        )
    }
}

/// One step of folding a proof: the parent over `node` and `sibling`.
pub open spec fn fold_step(node: Seq<u8>, sibling: Seq<u8>, is_left: bool) -> Seq<u8> {
    if is_left {
        crate::hash::compress_pair(node, sibling)
    } else {
        crate::hash::compress_pair(sibling, node)
    }
}

proof fn lemma_shift_half(x: u32, m: u32)
    requires
        m < 31,
    ensures
        (x / 2) >> m == x >> (m + 1) as u32,
        x >> 0u32 == x,
{
    assert((x / 2u32) >> m == x >> (m + 1u32) && x >> 0u32 == x) by (bit_vector)
        requires
            m < 31u32,
    ;
}

proof fn lemma_count_below_capacity(c: Map<(u32, Seq<u8>), Seq<u8>>, cols: Set<u32>, height: u32, index: u32)
    requires
        store_wf(c, cols),
        height < HEIGHT,
    ensures
        stored_count(c, height, index) <= capacity(height),
{
    lemma_node_key_round_trip(height, index);
    if c.contains_key((COUNTS, node_key_spec(height, index))) {
        assert(key_height(node_key_spec(height, index)) == height);
    }
}

/// While the count stays below capacity nothing is pruned: every write of `path_ops` from
/// `height` is above it.
proof fn lemma_path_ops_above(
    c: Map<(u32, Seq<u8>), Seq<u8>>,
    cols: Set<u32>,
    height: u32,
    index: u32,
    value: Seq<u8>,
    count: u32,
)
    requires
        store_wf(c, cols),
        height < HEIGHT,
        count < capacity(height),
    ensures
        forall|j: int|
            0 <= j < path_ops(c, height, index, value, count).len() ==> #[trigger] path_ops(
                c,
                height,
                index,
                value,
                count,
            )[j].1.len() == 8 && key_height(path_ops(c, height, index, value, count)[j].1)
                > height,
    decreases HEIGHT - height,
{
    if height + 1 < HEIGHT {
        let pv = parent_value(c, height, index, value);
        let pc = parent_count(c, height, index, count);
        let ph = (height + 1) as u32;
        lemma_count_below_capacity(c, cols, height, index ^ 1);
        let sc = stored_count(c, height, index ^ 1);
        assert(count < (1u32 << height) && sc <= (1u32 << height) && height < 31u32 ==> count
            <= 0xffff_ffffu32 - sc && count + sc < (1u32 << (height + 1u32))) by (bit_vector);
        let s = set_ops(ph, index / 2, pv, pc);
        let rest = path_ops(c, ph, index / 2, pv, pc);
        lemma_path_ops_above(c, cols, ph, index / 2, pv, pc);
        lemma_node_key_round_trip(ph, index / 2);
        let all = path_ops(c, height, index, value, count);
        assert(all =~= s + rest);
        assert forall|j: int| 0 <= j < all.len() implies #[trigger] all[j].1.len() == 8
            && key_height(all[j].1) > height by {
            if j < s.len() {
                assert(all[j] == s[j]);
            } else {
                assert(all[j] == rest[j - s.len()]);
            }
        }
    }
}

/// Without pruning, the last write of `path_ops` to the ancestor `up` levels above is its
/// new value, and the siblings along the path are not written.
proof fn lemma_path_ops_ancestors(
    c: Map<(u32, Seq<u8>), Seq<u8>>,
    cols: Set<u32>,
    height: u32,
    index: u32,
    value: Seq<u8>,
    count: u32,
    up: u32,
)
    requires
        store_wf(c, cols),
        height < HEIGHT,
        height + up < HEIGHT,
        count < capacity(height),
    ensures
        up >= 1 ==> last_write(
            path_ops(c, height, index, value, count),
            (VALUES, node_key_spec((height + up) as u32, index >> up)),
        ) == Some(Some(ancestor_value(c, height, index, value, count, up as nat))),
        last_write(
            path_ops(c, height, index, value, count),
            (VALUES, node_key_spec((height + up) as u32, (index >> up) ^ 1)),
        ) is None,
    decreases up,
{
    let ops = path_ops(c, height, index, value, count);
    lemma_path_ops_above(c, cols, height, index, value, count);
    let hk = (height + up) as u32;
    lemma_node_key_round_trip(hk, (index >> up) ^ 1);
    lemma_node_key_round_trip(hk, index >> up);
    if up == 0 {
        lemma_last_write_untouched(ops, (VALUES, node_key_spec(hk, (index >> up) ^ 1)));
    } else {
        let pv = parent_value(c, height, index, value);
        let pc = parent_count(c, height, index, count);
        let ph = (height + 1) as u32;
        lemma_count_below_capacity(c, cols, height, index ^ 1);
        let sc = stored_count(c, height, index ^ 1);
        assert(count < (1u32 << height) && sc <= (1u32 << height) && height < 31u32 ==> count
            <= 0xffff_ffffu32 - sc && count + sc < (1u32 << (height + 1u32))) by (bit_vector);
        let s = set_ops(ph, index / 2, pv, pc);
        let rest = path_ops(c, ph, index / 2, pv, pc);
        assert(ops =~= s + rest);
        lemma_shift_half(index, (up - 1) as u32);
        lemma_path_ops_ancestors(c, cols, ph, index / 2, pv, pc, (up - 1) as u32);
        lemma_path_ops_above(c, cols, ph, index / 2, pv, pc);
        let knode = (VALUES, node_key_spec(hk, index >> up));
        let ksib = (VALUES, node_key_spec(hk, (index >> up) ^ 1));
        lemma_last_write_append(s, rest, knode);
        lemma_last_write_append(s, rest, ksib);
        lemma_node_key_injective(hk, (index >> up) ^ 1, ph, index / 2);
        lemma_node_key_injective(hk, index >> up, ph, index / 2);
        assert(((index >> up) ^ 1) != index >> up) by (bit_vector);
        if pc > 0 {
            assert(s =~= seq![s[0], s[1]]);
            lemma_last_write_two(s[0], s[1], knode);
            lemma_last_write_two(s[0], s[1], ksib);
        } else {
            assert(s =~= seq![s[0]]);
            lemma_last_write_one(s[0], knode);
            lemma_last_write_one(s[0], ksib);
        }
        assert(ancestor_value(c, height, index, value, count, up as nat) == ancestor_value(
            c,
            ph,
            index / 2,
            pv,
            pc,
            (up - 1) as nat,
        ));
        if up == 1 {
            assert(index >> 1u32 == index / 2) by (bit_vector);
            assert(hk == ph);
            assert(key_height(knode.1) == ph);
            lemma_last_write_untouched(rest, knode);
            assert(ancestor_value(c, ph, index / 2, pv, pc, 0) == pv);
            assert(last_write(s, knode) == Some(Some(pv)));
        } else {
            assert(((ph + (up - 1)) as u32) == hk);
            assert(last_write(rest, knode) == Some(Some(ancestor_value(c, ph, index / 2, pv, pc, (up - 1) as nat))));
        }
    }
}

proof fn lemma_ancestor_top_step(
    c: Map<(u32, Seq<u8>), Seq<u8>>,
    height: u32,
    index: u32,
    value: Seq<u8>,
    count: u32,
    up: u32,
)
    requires
        height + up + 1 < HEIGHT,
    ensures
        ancestor_value(c, height, index, value, count, (up + 1) as nat) == parent_value(
            c,
            (height + up) as u32,
            index >> up,
            ancestor_value(c, height, index, value, count, up as nat),
        ),
    decreases up,
{
    lemma_shift_half(index, 0);
    let pv = parent_value(c, height, index, value);
    let pc = parent_count(c, height, index, count);
    assert(ancestor_value(c, height, index, value, count, (up + 1) as nat) == ancestor_value(
        c,
        (height + 1) as u32,
        index / 2,
        pv,
        pc,
        up as nat,
    ));
    if up == 0 {
        assert(ancestor_value(c, (height + 1) as u32, index / 2, pv, pc, 0) == pv);
    } else {
        lemma_ancestor_top_step(c, (height + 1) as u32, index / 2, pv, pc, (up - 1) as u32);
        lemma_shift_half(index, (up - 1) as u32);
        assert(ancestor_value(c, (height + 1) as u32, index / 2, pv, pc, (up - 1) as nat)
            == ancestor_value(c, height, index, value, count, up as nat));
    }
}

/// Right after a permanent leaf is added, each node on its path holds the fold of the one
/// below it with that one's sibling, in the order the path bit gives; the leaf holds its
/// value. So folding the leaf's proof `k` levels up gives the node at height `k` on its
/// path, for every `k` below `HEIGHT`.
pub proof fn lemma_path_folds_after_add(
    c: Map<(u32, Seq<u8>), Seq<u8>>,
    cols: Set<u32>,
    index: u32,
    value: Seq<u8>,
    height: u32,
)
    requires
        store_wf(c, cols),
        height + 1 < HEIGHT,
    ensures
        ({
            let after = apply_ops(c, cols, add_hash_ops(c, index, value, false));
            &&& effective_value(after, 0, index) == value
            &&& effective_value(after, (height + 1) as u32, index >> (height + 1) as u32)
                == fold_step(
                effective_value(after, height, index >> height),
                effective_value(after, height, (index >> height) ^ 1),
                (index >> height) % 2 == 0,
            )
        }),
{
    let s0 = set_ops(0, index, value, 0);
    let p = path_ops(c, 0, index, value, 0);
    let ops = add_hash_ops(c, index, value, false);
    let after = apply_ops(c, cols, ops);
    assert(capacity(0) == 1) by (bit_vector);
    assert(s0 =~= seq![s0[0]]);
    lemma_path_ops_above(c, cols, 0, index, value, 0);
    lemma_shift_half(index, 0);
    // the leaf
    let kleaf = (VALUES, node_key_spec(0, index));
    lemma_node_key_round_trip(0, index);
    lemma_last_write_untouched(p, kleaf);
    lemma_last_write_one(s0[0], kleaf);
    lemma_last_write_append(s0, p, kleaf);
    lemma_lookup(c, cols, ops, kleaf);
    // the node at `height`, its sibling, and its parent
    let up = (height + 1) as u32;
    let knode = (VALUES, node_key_spec(height, index >> height));
    let ksib = (VALUES, node_key_spec(height, (index >> height) ^ 1));
    let kpar = (VALUES, node_key_spec(up, index >> up));
    lemma_path_ops_ancestors(c, cols, 0, index, value, 0, height);
    lemma_path_ops_ancestors(c, cols, 0, index, value, 0, up);
    lemma_node_key_injective(height, (index >> height) ^ 1, 0, index);
    lemma_node_key_injective(height, index >> height, 0, index);
    lemma_node_key_injective(up, index >> up, 0, index);
    lemma_last_write_one(s0[0], knode);
    lemma_last_write_one(s0[0], ksib);
    lemma_last_write_one(s0[0], kpar);
    lemma_last_write_append(s0, p, knode);
    lemma_last_write_append(s0, p, ksib);
    lemma_last_write_append(s0, p, kpar);
    lemma_lookup(c, cols, ops, knode);
    lemma_lookup(c, cols, ops, ksib);
    lemma_lookup(c, cols, ops, kpar);
    lemma_ancestor_top_step(c, 0, index, value, 0, height);
    assert(((index >> height) ^ 1) != index >> height) by (bit_vector);
    if height == 0 {
        assert(effective_value(after, height, index >> height) == value);
    } else {
        assert(effective_value(after, height, index >> height) == ancestor_value(
            c,
            0,
            index,
            value,
            0,
            height as nat,
        ));
    }
    assert(effective_value(after, height, (index >> height) ^ 1) == effective_value(
        c,
        height,
        (index >> height) ^ 1,
    ));
}


/// Folds the first `k` levels of a proof upward from `leaf`.
pub open spec fn fold_proof(leaf: Seq<u8>, siblings: Seq<Seq<u8>>, path: Seq<bool>, k: nat) -> Seq<
    u8,
>
    decreases k,
{
    if k == 0 {
        leaf
    } else {
        fold_step(
            fold_proof(leaf, siblings, path, (k - 1) as nat),
            siblings[k - 1],
            path[k - 1],
        )
    }
}

/// Right after a permanent leaf is added, its proof, as `get_proof` gives it, folds `k`
/// levels up to the node at height `k` on the leaf's path, for every `k` below `HEIGHT`.
pub proof fn lemma_proof_folds_to_path(
    c: Map<(u32, Seq<u8>), Seq<u8>>,
    cols: Set<u32>,
    index: u32,
    value: Seq<u8>,
    siblings: Seq<Seq<u8>>,
    path: Seq<bool>,
    k: u32,
)
    requires
        store_wf(c, cols),
        k < HEIGHT,
        siblings.len() == HEIGHT,
        path.len() == HEIGHT,
        forall|h: int|
            0 <= h < HEIGHT ==> #[trigger] siblings[h] == effective_value(
                apply_ops(c, cols, add_hash_ops(c, index, value, false)),
                h as u32,
                (index >> (h as u32)) ^ 1,
            ),
        forall|h: int| 0 <= h < HEIGHT ==> #[trigger] path[h] == ((index >> (h as u32)) % 2 == 0),
    ensures
        fold_proof(value, siblings, path, k as nat) == effective_value(
            apply_ops(c, cols, add_hash_ops(c, index, value, false)),
            k,
            index >> k,
        ),
    decreases k,
{
    lemma_path_folds_after_add(c, cols, index, value, 0);
    lemma_shift_half(index, 0);
    if k > 0 {
        let h = (k - 1) as u32;
        lemma_proof_folds_to_path(c, cols, index, value, siblings, path, h);
        lemma_path_folds_after_add(c, cols, index, value, h);
        assert(siblings[h as int] == effective_value(
            apply_ops(c, cols, add_hash_ops(c, index, value, false)),
            h,
            (index >> h) ^ 1,
        ));
        assert(path[h as int] == ((index >> h) % 2 == 0));
    }
}


/// A subtree of one leaf makes exactly the writes of adding that leaf as permanent, so
/// both leave the same store.
pub proof fn lemma_single_leaf_subtree_is_add_hash(
    c: Map<(u32, Seq<u8>), Seq<u8>>,
    cols: Set<u32>,
    value: Seq<u8>,
    start: u32,
)
    ensures
        add_subtree_ops(c, seq![value], start) == add_hash_ops(c, start, value, false),
        apply_ops(c, cols, add_subtree_ops(c, seq![value], start)) == apply_ops(
            c,
            cols,
            add_hash_ops(c, start, value, false),
        ),
{
    let hs = seq![value];
    lemma_shift_half(start, 0);
    assert(log2(1) == 0);
    assert(level(hs, 0) == hs);
    assert(subtree_build_ops(hs, start, 0) == level_ops(hs, 0, start));
    assert(level_ops(hs, 0, start) =~= set_ops(0, start, value, 0));
}


/// The values that a path update computes do not depend on the counts it carries: whether
/// the leaf is temporary changes what is pruned, never a hash.
pub proof fn lemma_hashes_ignore_temporary(
    c: Map<(u32, Seq<u8>), Seq<u8>>,
    height: u32,
    index: u32,
    value: Seq<u8>,
    count_a: u32,
    count_b: u32,
    up: nat,
)
    ensures
        ancestor_value(c, height, index, value, count_a, up) == ancestor_value(
            c,
            height,
            index,
            value,
            count_b,
            up,
        ),
    decreases up,
{
    if up > 0 {
        lemma_hashes_ignore_temporary(
            c,
            (height + 1) as u32,
            index / 2,
            parent_value(c, height, index, value),
            parent_count(c, height, index, count_a),
            parent_count(c, height, index, count_b),
            (up - 1) as nat,
        );
    }
}


/// Placing a subtree root next to a sibling subtree whose leaves are all temporary fills
/// their parent: afterwards neither of the two, nor its count, is stored, so nothing of the
/// parent's subtree is kept below the parent.
pub proof fn lemma_full_sibling_subtrees_pruned(
    c: Map<(u32, Seq<u8>), Seq<u8>>,
    cols: Set<u32>,
    height: u32,
    index: u32,
    value: Seq<u8>,
)
    requires
        cols.contains(VALUES),
        cols.contains(COUNTS),
        height + 1 < HEIGHT,
        stored_count(c, height, index ^ 1) == capacity(height),
    ensures
        ({
            let after = apply_ops(c, cols, add_subtree_root_ops(c, height, index, value));
            &&& stored_value(after, height, index) is None
            &&& stored_value(after, height, index ^ 1) is None
            &&& stored_count(after, height, index) == 0
            &&& stored_count(after, height, index ^ 1) == 0
        }),
{
    let cap = capacity(height);
    let ops = add_subtree_root_ops(c, height, index, value);
    let ph = (height + 1) as u32;
    let pv = parent_value(c, height, index, value);
    let pc = parent_count(c, height, index, cap);
    assert(height < 31u32 ==> (1u32 << height) <= 0xffff_ffffu32 - (1u32 << height) && (1u32
        << height) + (1u32 << height) == (1u32 << (height + 1u32))) by (bit_vector);
    assert(pc == capacity(ph));
    let s0 = set_ops(height, index, value, cap);
    let s1 = set_ops(ph, index / 2, pv, pc);
    let r0 = remove_ops(height, index);
    let r1 = remove_ops(height, index ^ 1);
    let rest = path_ops(c, ph, index / 2, pv, pc);
    assert(path_ops(c, height, index, value, cap) == s1 + (r0 + r1) + rest);
    assert(ops =~= s0 + (s1 + (r0 + r1) + rest));
    lemma_path_ops_heights(c, ph, index / 2, pv, pc);
    assert(index ^ 1 != index) by (bit_vector);
    assert forall|col: u32, y: u32|
        (col == VALUES || col == COUNTS) && (y == index || y == index ^ 1) implies #[trigger]
        last_write(ops, (col, node_key_spec(height, y))) == Some(None::<Seq<u8>>) by {
        let k = (col, node_key_spec(height, y));
        lemma_node_key_round_trip(height, y);
        lemma_node_key_injective(height, y, ph, index / 2);
        lemma_last_write_untouched(rest, k);
        lemma_node_key_injective(height, y, height, index);
        lemma_node_key_injective(height, y, height, index ^ 1);
        lemma_last_write_two(r0[0], r0[1], k);
        lemma_last_write_two(r1[0], r1[1], k);
        assert(r0 =~= seq![r0[0], r0[1]]);
        assert(r1 =~= seq![r1[0], r1[1]]);
        lemma_last_write_append(r0, r1, k);
        lemma_last_write_append(s1, r0 + r1, k);
        lemma_last_write_append(s1 + (r0 + r1), rest, k);
        lemma_last_write_append(s0, s1 + (r0 + r1) + rest, k);
    }
    lemma_lookup(c, cols, ops, (VALUES, node_key_spec(height, index)));
    lemma_lookup(c, cols, ops, (COUNTS, node_key_spec(height, index)));
    lemma_lookup(c, cols, ops, (VALUES, node_key_spec(height, index ^ 1)));
    lemma_lookup(c, cols, ops, (COUNTS, node_key_spec(height, index ^ 1)));
    assert(last_write(ops, (VALUES, node_key_spec(height, index))) == Some(None::<Seq<u8>>));
    assert(last_write(ops, (COUNTS, node_key_spec(height, index))) == Some(None::<Seq<u8>>));
    assert(last_write(ops, (VALUES, node_key_spec(height, index ^ 1))) == Some(None::<Seq<u8>>));
    assert(last_write(ops, (COUNTS, node_key_spec(height, index ^ 1))) == Some(None::<Seq<u8>>));
}

} // verus!
